//! `TTL key`: the whole seconds left before a key expires.

use vstd::prelude::*;
use crate::cmd::{CommandView, execute_spec};
use crate::db::Db;
use crate::frame::Frame;
use crate::parse::{Parse, ParseError, after_read, read_first, string_of};

verus! {

/// A `TTL` request.
#[derive(Debug)]
pub struct Ttl {
    key: String,
}

/// What reading the arguments of `TTL` from `parts` gives, and the parts left.
pub open spec fn parse_ttl_spec(parts: Seq<Frame>) -> (Result<CommandView, ParseError>, Seq<Frame>) {
    (
        match read_first(parts, |f: Frame| string_of(f)) {
            Ok(k) => Ok(CommandView::Ttl { key: k }),
            Err(e) => Err(e),
        },
        after_read(parts),
    )
}

impl View for Ttl {
    type V = CommandView;

    open spec fn view(&self) -> CommandView {
        CommandView::Ttl { key: self.key_view() }
    }
}

impl Ttl {
    /// The key asked about, as characters.
    pub closed spec fn key_view(&self) -> Seq<char> {
        self.key@
    }
}

impl Ttl {
    /// Reads the arguments of `TTL`: the key.
    pub fn parse_frames(parse: &mut Parse) -> (r: Result<Ttl, ParseError>)
        ensures
            ({
                let (res, rest) = parse_ttl_spec(old(parse).remaining());
                &&& final(parse).remaining() == rest
                &&& match r {
                    Ok(t) => res == Ok::<CommandView, ParseError>(t@),
                    Err(e) => res == Err::<CommandView, ParseError>(e),
                }
            }),
    {
        let key = parse.next_string()?;
        Ok(Ttl { key })
    }

    /// Answers with the whole seconds left to the key at `now`; 0 when it is
    /// missing, expired, or has no expiry time.
    pub fn apply(self, db: &mut Db, now: u64) -> (f: Frame)
        requires
            old(db).wf(),
        ensures
            final(db).wf(),
            final(db).clock() == old(db).clock(),
            (final(db)@, f.view_frame()) == execute_spec(self@, old(db)@, now),
    {
        match db.ttl_at(self.key.as_str(), now, now) {
            Some(remaining) => Frame::Integer(remaining / 1_000_000_000),
            None => Frame::Integer(0),
        }
    }
}

} // verus!
