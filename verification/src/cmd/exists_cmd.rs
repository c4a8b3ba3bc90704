//! `EXISTS key...`: counts the keys that hold a value.

use vstd::prelude::*;
use crate::cmd::{CommandView, execute_spec, exists_keys, parse_keys_spec, read_keys};
use crate::db::Db;
use crate::frame::Frame;
use crate::parse::{Parse, ParseError};

verus! {

/// An `EXISTS` request.
#[derive(Debug)]
pub struct Exists {
    keys: Vec<String>,
}

impl View for Exists {
    type V = CommandView;

    open spec fn view(&self) -> CommandView {
        CommandView::Exists { keys: self.keys_view() }
    }
}

impl Exists {
    /// The keys, as characters.
    pub closed spec fn keys_view(&self) -> Seq<Seq<char>> {
        self.keys@.map_values(|k: String| k@)
    }
}

impl Exists {
    /// Reads the arguments of `EXISTS`: every remaining part, as a key.
    pub fn parse_frames(parse: &mut Parse) -> (r: Result<Exists, ParseError>)
        ensures
            ({
                let (res, rest) = parse_keys_spec(old(parse).remaining());
                &&& final(parse).remaining() == rest
                &&& match r {
                    Ok(x) => res matches Ok(ks) && x@ == (CommandView::Exists { keys: ks }),
                    Err(e) => res == Err::<Seq<Seq<char>>, ParseError>(e),
                }
            }),
    {
        let keys = read_keys(parse)?;
        Ok(Exists { keys })
    }

    /// Answers with how many of the keys hold a value at `now`, checked one
    /// after the other (a key named twice counts twice); expired entries met
    /// on the way are dropped.
    pub fn apply(self, db: &mut Db, now: u64) -> (f: Frame)
        requires
            old(db).wf(),
        ensures
            final(db).wf(),
            final(db).clock() == old(db).clock(),
            (final(db)@, f.view_frame()) == execute_spec(self@, old(db)@, now),
    {
        let ghost keys = self@->Exists_keys;
        let mut count: u64 = 0;
        let mut i: usize = 0;
        proof {
            assert(keys.skip(0) =~= keys);
        }
        while i < self.keys.len()
            invariant
                0 <= i <= self.keys@.len(),
                keys == self.keys@.map_values(|k: String| k@),
                count <= i,
                db.wf(),
                db.clock() == old(db).clock(),
                exists_keys(old(db)@, keys, now) == ({
                    let (m, c) = exists_keys(db@, keys.skip(i as int), now);
                    (m, (c + count) as nat)
                }),
            decreases self.keys@.len() - i,
        {
            proof {
                assert(keys.skip(i as int).drop_first() =~= keys.skip(i + 1));
            }
            if db.exists_at(self.keys[i].as_str(), now) {
                count = count + 1;
            }
            i = i + 1;
        }
        proof {
            assert(keys.skip(i as int) =~= Seq::<Seq<char>>::empty());
        }
        Frame::Integer(count)
    }
}

} // verus!
