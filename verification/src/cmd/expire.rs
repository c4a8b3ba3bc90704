//! `EXPIRE key seconds`: gives a key an expiry time.

use vstd::prelude::*;
use crate::cmd::{CommandView, execute_spec, secs_to_nanos};
use crate::db::{Db, expire_outcome};
use crate::frame::Frame;
use crate::parse::{Parse, ParseError, after_read, int_of, read_first, string_of};

verus! {

/// An `EXPIRE` request.
#[derive(Debug)]
pub struct Expire {
    key: String,
    seconds: u64,
}

/// What reading the arguments of `EXPIRE` from `parts` gives, and the parts
/// left.
pub open spec fn parse_expire_spec(parts: Seq<Frame>) -> (Result<CommandView, ParseError>, Seq<Frame>) {
    match read_first(parts, |f: Frame| string_of(f)) {
        Err(e) => (Err(e), after_read(parts)),
        Ok(k) => {
            let rest = after_read(parts);
            (
                match read_first(rest, |f: Frame| int_of(f)) {
                    Ok(n) => Ok(CommandView::Expire { key: k, seconds: n }),
                    Err(e) => Err(e),
                },
                after_read(rest),
            )
        },
    }
}

impl View for Expire {
    type V = CommandView;

    open spec fn view(&self) -> CommandView {
        CommandView::Expire { key: self.key_view(), seconds: self.seconds_view() }
    }
}

impl Expire {
    /// The key, as characters.
    pub closed spec fn key_view(&self) -> Seq<char> {
        self.key@
    }

    /// The number of seconds.
    pub closed spec fn seconds_view(&self) -> u64 {
        self.seconds
    }
}

impl Expire {
    /// Reads the arguments of `EXPIRE`: the key, then the number of seconds.
    pub fn parse_frames(parse: &mut Parse) -> (r: Result<Expire, ParseError>)
        ensures
            ({
                let (res, rest) = parse_expire_spec(old(parse).remaining());
                &&& final(parse).remaining() == rest
                &&& match r {
                    Ok(x) => res == Ok::<CommandView, ParseError>(x@),
                    Err(e) => res == Err::<CommandView, ParseError>(e),
                }
            }),
    {
        let key = parse.next_string()?;
        let seconds = parse.next_int()?;
        Ok(Expire { key, seconds })
    }

    /// Makes the key, if live at `now`, expire the given number of seconds
    /// after `now`; tells whether it was live.
    pub fn apply_to_db(self, db: &mut Db, now: u64) -> (r: bool)
        requires
            old(db).wf(),
        ensures
            final(db).wf(),
            final(db).clock() == old(db).clock(),
            expire_outcome(old(db)@, self@->Expire_key,
                now.saturating_add(secs_to_nanos(self@->Expire_seconds)), now, r, final(db)@),
    {
        let at = now.saturating_add(if self.seconds <= u64::MAX / 1_000_000_000 { self.seconds * 1_000_000_000 } else { u64::MAX });
        db.expire_at(self.key.as_str(), at, now)
    }

    /// Answers 1 when the key was live and now expires as asked, else 0.
    pub fn apply(self, db: &mut Db, now: u64) -> (f: Frame)
        requires
            old(db).wf(),
        ensures
            final(db).wf(),
            final(db).clock() == old(db).clock(),
            (final(db)@, f.view_frame()) == execute_spec(self@, old(db)@, now),
    {
        let ok = self.apply_to_db(db, now);
        Frame::Integer(if ok { 1 } else { 0 })
    }
}

} // verus!
