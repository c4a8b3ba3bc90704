//! `DEL key...`: removes keys.

use bytes::Bytes;
use vstd::prelude::*;
use vstd::utf8::encode_utf8;
use crate::bytebuf::bytes_view;
use crate::cmd::{CommandView, bulk_text, command_frame_view, del_keys, execute_spec, parse_keys_spec, read_keys};
use crate::db::Db;
use crate::frame::{Frame, FrameView, lemma_array_view};
use crate::parse::{Parse, ParseError};

verus! {

/// A `DEL` request.
#[derive(Debug)]
pub struct Del {
    keys: Vec<String>,
}

impl View for Del {
    type V = CommandView;

    open spec fn view(&self) -> CommandView {
        CommandView::Del { keys: self.keys_view() }
    }
}

impl Del {
    /// The keys, as characters.
    pub closed spec fn keys_view(&self) -> Seq<Seq<char>> {
        self.keys@.map_values(|k: String| k@)
    }
}

impl Del {
    /// A request to remove `keys`.
    pub fn new(keys: Vec<String>) -> (d: Del)
        ensures
            d@ == (CommandView::Del { keys: keys@.map_values(|k: String| k@) }),
    {
        Del { keys }
    }

    /// Reads the arguments of `DEL`: every remaining part, as a key.
    pub fn parse_frames(parse: &mut Parse) -> (r: Result<Del, ParseError>)
        ensures
            ({
                let (res, rest) = parse_keys_spec(old(parse).remaining());
                &&& final(parse).remaining() == rest
                &&& match r {
                    Ok(d) => res matches Ok(ks) && d@ == (CommandView::Del { keys: ks }),
                    Err(e) => res == Err::<Seq<Seq<char>>, ParseError>(e),
                }
            }),
    {
        let keys = read_keys(parse)?;
        Ok(Del { keys })
    }

    /// The request as a frame: `["del", key...]`, all as bulk frames.
    pub fn into_frame(self) -> (f: Frame)
        ensures
            f.view_frame() == command_frame_view(self@),
    {
        let ghost view = self@;
        let mut frame = Frame::array();
        let name = Bytes::copy_from_slice("del".as_bytes());
        let ghost n = name;
        frame.push_bulk(name);
        let mut i: usize = 0;
        while i < self.keys.len()
            invariant
                0 <= i <= self.keys@.len(),
                view == (CommandView::Del { keys: self.keys@.map_values(|k: String| k@) }),
                frame matches Frame::Array(v) && v@.len() == i + 1 && v@[0] == Frame::Bulk(n)
                    && forall|j: int| 1 <= j <= i ==> #[trigger] v@[j] is Bulk
                        && bytes_view(v@[j]->Bulk_0) == encode_utf8(self.keys@[j - 1]@),
            decreases self.keys@.len() - i,
        {
            let b = Bytes::copy_from_slice(self.keys[i].as_str().as_bytes());
            frame.push_bulk(b);
            i = i + 1;
        }
        proof {
            lemma_array_view(frame);
            let keys = self.keys@.map_values(|k: String| k@);
            let expected = seq![bulk_text("del"@)] + keys.map_values(|k: Seq<char>| bulk_text(k));
            assert(bytes_view(n) == encode_utf8("del"@));
            assert(frame.view_frame() matches FrameView::Array(s) && s.len() == expected.len());
            assert forall|j: int| 0 <= j < expected.len() implies frame.view_frame()->Array_0[j] == expected[j] by {
                if j >= 1 {
                    assert(keys[j - 1] == self.keys@[j - 1]@);
                }
            }
            assert(frame.view_frame()->Array_0 =~= expected);
        }
        frame
    }

    /// Removes the keys one after the other; the count of those that were
    /// there (a key named twice is counted once).
    pub fn apply_to_db(self, db: &mut Db) -> (r: u64)
        requires
            old(db).wf(),
        ensures
            final(db).wf(),
            final(db).clock() == old(db).clock(),
            (final(db)@, r as nat) == del_keys(old(db)@, self@->Del_keys),
    {
        let ghost keys = self@->Del_keys;
        let mut count: u64 = 0;
        let mut i: usize = 0;
        proof {
            assert(keys.skip(0) =~= keys);
        }
        while i < self.keys.len()
            invariant
                0 <= i <= self.keys@.len(),
                keys == self.keys@.map_values(|k: String| k@),
                count <= i,
                db.wf(),
                db.clock() == old(db).clock(),
                del_keys(old(db)@, keys) == ({
                    let (m, c) = del_keys(db@, keys.skip(i as int));
                    (m, (c + count) as nat)
                }),
            decreases self.keys@.len() - i,
        {
            proof {
                assert(keys.skip(i as int).drop_first() =~= keys.skip(i + 1));
            }
            if db.del(self.keys[i].as_str()) {
                count = count + 1;
            }
            i = i + 1;
        }
        proof {
            assert(keys.skip(i as int) =~= Seq::<Seq<char>>::empty());
        }
        count
    }

    /// Answers with the count of removed keys.
    pub fn apply(self, db: &mut Db, now: u64) -> (f: Frame)
        requires
            old(db).wf(),
        ensures
            final(db).wf(),
            final(db).clock() == old(db).clock(),
            (final(db)@, f.view_frame()) == execute_spec(self@, old(db)@, now),
    {
        let count = self.apply_to_db(db);
        Frame::Integer(count)
    }
}

} // verus!
