//! `PING [message]`: answers `PONG`, or echoes the message.

use bytes::Bytes;
use vstd::prelude::*;
use vstd::utf8::encode_utf8;
use crate::bytebuf::bytes_view;
use crate::cmd::{CommandView, bulk_text, command_frame_view, execute_spec};
use crate::db::Db;
use crate::frame::{Frame, FrameView, lemma_array_view};
use crate::parse::{Parse, ParseError, after_read, read_first, string_of};

verus! {

/// A `PING` request.
#[derive(Debug)]
pub struct Ping {
    msg: Option<Bytes>,
}

/// What reading the arguments of `PING` from `parts` gives, and the parts
/// left: the message is optional.
pub open spec fn parse_ping_spec(parts: Seq<Frame>) -> (Result<CommandView, ParseError>, Seq<Frame>) {
    (
        match read_first(parts, |f: Frame| string_of(f)) {
            Ok(s) => Ok(CommandView::Ping { msg: Some(encode_utf8(s)) }),
            Err(ParseError::EndOfStream) => Ok(CommandView::Ping { msg: None }),
            Err(e) => Err(e),
        },
        after_read(parts),
    )
}

impl View for Ping {
    type V = CommandView;

    open spec fn view(&self) -> CommandView {
        CommandView::Ping { msg: self.msg_view() }
    }
}

impl Ping {
    /// The message, as bytes, if any.
    pub closed spec fn msg_view(&self) -> Option<Seq<u8>> {
        match self.msg {
            Some(b) => Some(bytes_view(b)),
            None => None,
        }
    }
}

impl Ping {
    /// A ping, with or without a message.
    pub fn new(msg: Option<Bytes>) -> (p: Ping)
        ensures
            p@ == (CommandView::Ping {
                msg: match msg {
                    Some(b) => Some(bytes_view(b)),
                    None => None,
                },
            }),
    {
        Ping { msg }
    }

    /// Reads the arguments of `PING`: an optional message.
    pub fn parse_frames(parse: &mut Parse) -> (r: Result<Ping, ParseError>)
        ensures
            ({
                let (res, rest) = parse_ping_spec(old(parse).remaining());
                &&& final(parse).remaining() == rest
                &&& match r {
                    Ok(p) => res == Ok::<CommandView, ParseError>(p@),
                    Err(e) => res == Err::<CommandView, ParseError>(e),
                }
            }),
    {
        let msg = match parse.next_string() {
            Ok(s) => Some(Bytes::copy_from_slice(s.as_str().as_bytes())),
            Err(ParseError::EndOfStream) => None,
            Err(err) => return Err(err),
        };
        Ok(Ping { msg })
    }

    /// The request as a frame: `["ping"]`, or `["ping", message]`.
    pub fn into_frame(self) -> (f: Frame)
        ensures
            f.view_frame() == command_frame_view(self@),
    {
        let ghost view = self@;
        let mut frame = Frame::array();
        let name = Bytes::copy_from_slice("ping".as_bytes());
        let ghost n = name;
        frame.push_bulk(name);
        match self.msg {
            Some(msg) => {
                let ghost m = msg;
                frame.push_bulk(msg);
                proof {
                    assert(frame matches Frame::Array(v) && v@ =~= seq![Frame::Bulk(n), Frame::Bulk(m)]);
                    lemma_array_view(frame);
                    assert(view == CommandView::Ping { msg: Some(bytes_view(m)) });
                    assert(bytes_view(n) == encode_utf8("ping"@));
                    let expected = seq![bulk_text("ping"@)] + seq![FrameView::Bulk(bytes_view(m))];
                    assert(frame.view_frame() matches FrameView::Array(s) && s =~= expected);
                    assert(frame.view_frame() == command_frame_view(view));
                }
            },
            None => {
                proof {
                    assert(frame matches Frame::Array(v) && v@ =~= seq![Frame::Bulk(n)]);
                    lemma_array_view(frame);
                    assert(view == CommandView::Ping { msg: None });
                    assert(bytes_view(n) == encode_utf8("ping"@));
                    let expected = seq![bulk_text("ping"@)] + Seq::<FrameView>::empty();
                    assert(frame.view_frame() matches FrameView::Array(s) && s =~= expected);
                    assert(frame.view_frame() == command_frame_view(view));
                }
            },
        }
        frame
    }

    /// Answers with the message as a bulk frame, or `PONG` as a simple one.
    pub fn apply(self, db: &mut Db, now: u64) -> (f: Frame)
        requires
            old(db).wf(),
        ensures
            final(db).wf(),
            final(db).clock() == old(db).clock(),
            (final(db)@, f.view_frame()) == execute_spec(self@, old(db)@, now),
    {
        match self.msg {
            Some(msg) => Frame::Bulk(msg),
            None => Frame::Simple("PONG".to_owned()),
        }
    }
}

} // verus!
