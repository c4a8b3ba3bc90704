//! `GET key`: the value stored under a key.

use bytes::Bytes;
use vstd::prelude::*;
use vstd::utf8::encode_utf8;
use crate::cmd::{CommandView, command_frame_view, execute_spec};
use crate::db::Db;
use crate::frame::{Frame, FrameView, lemma_array_view};
use crate::parse::{Parse, ParseError, after_read, read_first, string_of};

verus! {

/// A `GET` request.
#[derive(Debug)]
pub struct Get {
    key: String,
}

/// What reading the arguments of `GET` from `parts` gives, and the parts left.
pub open spec fn parse_get_spec(parts: Seq<Frame>) -> (Result<CommandView, ParseError>, Seq<Frame>) {
    (
        match read_first(parts, |f: Frame| string_of(f)) {
            Ok(k) => Ok(CommandView::Get { key: k }),
            Err(e) => Err(e),
        },
        after_read(parts),
    )
}

impl View for Get {
    type V = CommandView;

    open spec fn view(&self) -> CommandView {
        CommandView::Get { key: self.key_view() }
    }
}

impl Get {
    /// The key asked for, as characters.
    pub closed spec fn key_view(&self) -> Seq<char> {
        self.key@
    }
}

impl Get {
    /// A request for the value of `key`.
    pub fn new(key: &str) -> (g: Get)
        ensures
            g@ == (CommandView::Get { key: key@ }),
    {
        Get { key: key.to_owned() }
    }

    /// The key asked for.
    pub fn key(&self) -> (k: &str)
        ensures
            self@ == (CommandView::Get { key: k@ }),
    {
        self.key.as_str()
    }

    /// Reads the arguments of `GET`: the key.
    pub fn parse_frames(parse: &mut Parse) -> (r: Result<Get, ParseError>)
        ensures
            ({
                let (res, rest) = parse_get_spec(old(parse).remaining());
                &&& final(parse).remaining() == rest
                &&& match r {
                    Ok(g) => res == Ok::<CommandView, ParseError>(g@),
                    Err(e) => res == Err::<CommandView, ParseError>(e),
                }
            }),
    {
        let key = parse.next_string()?;
        Ok(Get { key })
    }

    /// Answers with the value of the key at `now` as a bulk frame, or `Null`
    /// when it is missing or expired.
    pub fn apply(self, db: &mut Db, now: u64) -> (f: Frame)
        requires
            old(db).wf(),
        ensures
            final(db).wf(),
            final(db).clock() == old(db).clock(),
            (final(db)@, f.view_frame()) == execute_spec(self@, old(db)@, now),
    {
        match db.get_at(self.key.as_str(), now) {
            Some(value) => Frame::Bulk(value),
            None => Frame::Null,
        }
    }

    /// The request as a frame: `["get", key]`, both as bulk frames.
    pub fn into_frame(self) -> (f: Frame)
        ensures
            f.view_frame() == command_frame_view(self@),
    {
        let mut frame = Frame::array();
        let name = Bytes::copy_from_slice("get".as_bytes());
        let key = Bytes::copy_from_slice(self.key.as_str().as_bytes());
        let ghost parts = seq![Frame::Bulk(name), Frame::Bulk(key)];
        frame.push_bulk(name);
        frame.push_bulk(key);
        proof {
            assert(frame matches Frame::Array(v) && v@ =~= parts);
            lemma_array_view(frame);
            assert(frame.view_frame() matches FrameView::Array(s) && s =~= seq![
                FrameView::Bulk(encode_utf8("get"@)),
                FrameView::Bulk(encode_utf8(self.key@)),
            ]);
        }
        frame
    }
}

} // verus!
