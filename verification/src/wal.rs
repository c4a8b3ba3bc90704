//! Replaying the write-ahead log: the frames of the write requests, one after
//! the other, as they were received.

use vstd::prelude::*;
use crate::cmd::{Command, CommandView, command_frame_view, command_of, law_command_roundtrip, del_keys, execute_spec, exists_keys, is_write_spec, lemma_command_meaning, replay_spec};
use crate::db::{Db, EntryView, live, purge};
use crate::frame::{
    Frame, FrameView, decode_at, encode, encode_items, frames_view, lemma_decode_bounds, lemma_decode_encode,
    lemma_decode_shift, lemma_encode_len, sendable, sendable_items,
};

verus! {

/// The store after replaying the log `s` from position `p` at `now`: each
/// frame read in turn is applied when it is a write request and skipped when
/// it is no request; reading stops at the end or at the first frame that
/// cannot be read.
pub open spec fn replay_log(m: Map<Seq<char>, EntryView>, s: Seq<u8>, p: int, now: u64) -> Map<Seq<char>, EntryView>
    decreases s.len() - p,
{
    if p < 0 || p >= s.len() {
        m
    } else {
        match decode_at(s, p) {
            Err(_) => m,
            Ok((f, q)) => if q <= p || q > s.len() {
                m
            } else {
                let m2 = match command_of(f) {
                    Some(c) => replay_spec(c, m, now),
                    None => m,
                };
                replay_log(m2, s, q, now)
            },
        }
    }
}

/// Applying the requests that the frames `fs` make, in order, at `now`, as a
/// replay does: writes change the store, anything else is skipped.
pub open spec fn apply_logged(m: Map<Seq<char>, EntryView>, fs: Seq<FrameView>, now: u64) -> Map<Seq<char>, EntryView>
    decreases fs.len(),
{
    if fs.len() == 0 {
        m
    } else {
        let m2 = match command_of(fs[0]) {
            Some(c) => replay_spec(c, m, now),
            None => m,
        };
        apply_logged(m2, fs.drop_first(), now)
    }
}

/// Replays the log `data` into the store at `now` (see `replay_log`).
pub fn replay_at(db: &mut Db, data: &[u8], now: u64)
    requires
        old(db).wf(),
    ensures
        final(db).wf(),
        final(db).clock() == old(db).clock(),
        final(db)@ == replay_log(old(db)@, data@, 0, now),
{
    let mut pos: usize = 0;
    while pos < data.len()
        invariant_except_break
            pos <= data@.len(),
            db.wf(),
            db.clock() == old(db).clock(),
            replay_log(old(db)@, data@, 0, now) == replay_log(db@, data@, pos as int, now),
        ensures
            db.wf(),
            db.clock() == old(db).clock(),
            replay_log(old(db)@, data@, 0, now) == db@,
        decreases data@.len() - pos,
    {
        match Frame::parse_at(data, pos) {
            Err(_) => {
                break;
            },
            Ok((frame, next)) => {
                proof {
                    lemma_decode_bounds(data@, pos as int);
                    lemma_command_meaning(frame);
                }
                let ghost m0 = db@;
                let ghost fv = frame.view_frame();
                match Command::from_frame(frame) {
                    Ok(cmd) => {
                        let _ = cmd.apply_to_db(db, now);
                    },
                    Err(_) => {},
                }
                proof {
                    assert(db@ == match command_of(fv) {
                        Some(c) => replay_spec(c, m0, now),
                        None => m0,
                    });
                }
                pos = next;
            },
        }
    }
}

/// Replays the log `data` into the store, at the time of the store's clock
/// when the replay starts.
pub fn replay(db: &mut Db, data: &[u8])
    requires
        old(db).wf(),
    ensures
        final(db).wf(),
        final(db).clock() >= old(db).clock(),
        final(db)@ == replay_log(old(db)@, data@, 0, final(db).clock()),
{
    let now = db.now_nanos();
    replay_at(db, data, now);
}

/// Replaying from `p` over the encodings of `fs` applies the requests of `fs`
/// in order and goes on right after them.
proof fn lemma_replay_encoded(m: Map<Seq<char>, EntryView>, s: Seq<u8>, p: int, fs: Seq<FrameView>, now: u64)
    requires
        sendable_items(fs),
        0 <= p,
        p + encode_items(fs).len() <= s.len(),
        s.subrange(p, p + encode_items(fs).len()) == encode_items(fs),
    ensures
        replay_log(m, s, p, now) == replay_log(apply_logged(m, fs, now), s, p + encode_items(fs).len(), now),
    decreases fs.len(),
{
    if fs.len() > 0 {
        let w = encode_items(fs);
        let first = encode(fs[0]);
        let tail = fs.subrange(1, fs.len() as int);
        let rest = encode_items(tail);
        assert(w == first + rest);
        lemma_encode_len(fs[0]);
        let q = p + first.len();
        assert(s.subrange(p, q) =~= first) by {
            assert forall|k: int| 0 <= k < first.len() implies s.subrange(p, q)[k] == first[k] by {
                assert(s.subrange(p, p + w.len())[k] == w[k]);
            }
        }
        lemma_decode_encode(s, p, fs[0]);
        assert(s.subrange(q, q + rest.len()) =~= rest) by {
            assert forall|k: int| 0 <= k < rest.len() implies s.subrange(q, q + rest.len())[k] == rest[k] by {
                assert(s.subrange(p, p + w.len())[first.len() + k] == w[first.len() + k]);
            }
        }
        assert(tail == fs.drop_first());
        let m2 = match command_of(fs[0]) {
            Some(c) => replay_spec(c, m, now),
            None => m,
        };
        lemma_replay_encoded(m2, s, q, tail, now);
    }
}

/// Law: a log made of the encodings of sendable frames, followed by nothing
/// or by bytes from which no frame can be read (such as a frame cut short),
/// replays as the requests of those frames applied in order: every write is
/// applied, nothing else changes the store, and nothing from the unreadable
/// bytes on is applied.
pub proof fn law_replay_encoded_log(m: Map<Seq<char>, EntryView>, fs: Seq<FrameView>, tail: Seq<u8>, now: u64)
    requires
        sendable_items(fs),
        tail.len() == 0 || decode_at(tail, 0) is Err,
    ensures
        replay_log(m, encode_items(fs) + tail, 0, now) == apply_logged(m, fs, now),
{
    let e = encode_items(fs);
    let s = e + tail;
    assert(s.subrange(0, e.len() as int) =~= e);
    lemma_replay_encoded(m, s, 0, fs, now);
    if tail.len() > 0 {
        lemma_decode_shift(e, tail, 0);
    }
}

/// The store after serving the requests `cs` one after the other at `now`.
pub open spec fn serve_all(m: Map<Seq<char>, EntryView>, cs: Seq<CommandView>, now: u64) -> Map<Seq<char>, EntryView>
    decreases cs.len(),
{
    if cs.len() == 0 {
        m
    } else {
        serve_all(execute_spec(cs[0], m, now).0, cs.drop_first(), now)
    }
}

/// The store after replaying the requests `cs` one after the other at `now`:
/// only the writes among them change it.
pub open spec fn replay_all(m: Map<Seq<char>, EntryView>, cs: Seq<CommandView>, now: u64) -> Map<Seq<char>, EntryView>
    decreases cs.len(),
{
    if cs.len() == 0 {
        m
    } else {
        replay_all(replay_spec(cs[0], m, now), cs.drop_first(), now)
    }
}

/// Two stores that every read at `now` sees alike.
pub open spec fn same_live(a: Map<Seq<char>, EntryView>, b: Map<Seq<char>, EntryView>, now: u64) -> bool {
    forall|k: Seq<char>| #[trigger] live(a, k, now) == live(b, k, now)
}

proof fn lemma_purge_same(m: Map<Seq<char>, EntryView>, key: Seq<char>, now: u64)
    ensures
        same_live(purge(m, key, now), m, now),
{
}

proof fn lemma_del_keys_same(a: Map<Seq<char>, EntryView>, b: Map<Seq<char>, EntryView>, keys: Seq<Seq<char>>, now: u64)
    requires
        same_live(a, b, now),
    ensures
        same_live(del_keys(a, keys).0, del_keys(b, keys).0, now),
    decreases keys.len(),
{
    if keys.len() > 0 {
        assert(same_live(a.remove(keys[0]), b.remove(keys[0]), now)) by {
            assert forall|k: Seq<char>| #[trigger] live(a.remove(keys[0]), k, now) == live(b.remove(keys[0]), k, now) by {
                assert(live(a, k, now) == live(b, k, now));
            }
        }
        lemma_del_keys_same(a.remove(keys[0]), b.remove(keys[0]), keys.drop_first(), now);
    }
}

proof fn lemma_exists_keys_same(m: Map<Seq<char>, EntryView>, keys: Seq<Seq<char>>, now: u64)
    ensures
        same_live(exists_keys(m, keys, now).0, m, now),
    decreases keys.len(),
{
    if keys.len() > 0 {
        let m1 = purge(m, keys[0], now);
        lemma_purge_same(m, keys[0], now);
        lemma_exists_keys_same(m1, keys.drop_first(), now);
        assert forall|k: Seq<char>| #[trigger] live(exists_keys(m, keys, now).0, k, now) == live(m, k, now) by {
            assert(live(exists_keys(m1, keys.drop_first(), now).0, k, now) == live(m1, k, now));
            assert(live(m1, k, now) == live(m, k, now));
        }
    }
}

/// Serving one request to a store, and replaying it into a store that reads
/// alike at the same time, leave stores that read alike.
proof fn lemma_step_same(c: CommandView, a: Map<Seq<char>, EntryView>, b: Map<Seq<char>, EntryView>, now: u64)
    requires
        same_live(a, b, now),
    ensures
        same_live(execute_spec(c, a, now).0, replay_spec(c, b, now), now),
{
    let ea = execute_spec(c, a, now).0;
    let rb = replay_spec(c, b, now);
    match c {
        CommandView::Get { key } => {
            lemma_purge_same(a, key, now);
        },
        CommandView::Ttl { key } => {
            lemma_purge_same(a, key, now);
        },
        CommandView::Exists { keys } => {
            lemma_exists_keys_same(a, keys, now);
            assert forall|k: Seq<char>| #[trigger] live(ea, k, now) == live(rb, k, now) by {
                assert(live(ea, k, now) == live(a, k, now));
                assert(live(a, k, now) == live(b, k, now));
            }
        },
        CommandView::Ping { msg } => {},
        CommandView::SetCmd { key, value, expire } => {
            assert forall|k: Seq<char>| #[trigger] live(ea, k, now) == live(rb, k, now) by {
                assert(live(a, k, now) == live(b, k, now));
            }
        },
        CommandView::Del { keys } => {
            lemma_del_keys_same(a, b, keys, now);
        },
        CommandView::Expire { key, seconds } => {
            assert(live(a, key, now) == live(b, key, now));
            lemma_purge_same(a, key, now);
            lemma_purge_same(b, key, now);
            assert forall|k: Seq<char>| #[trigger] live(ea, k, now) == live(rb, k, now) by {
                assert(live(a, k, now) == live(b, k, now));
                assert(live(purge(a, key, now), k, now) == live(a, k, now));
                assert(live(purge(b, key, now), k, now) == live(b, k, now));
            }
        },
    }
}

proof fn lemma_session_same(a: Map<Seq<char>, EntryView>, b: Map<Seq<char>, EntryView>, cs: Seq<CommandView>, now: u64)
    requires
        same_live(a, b, now),
    ensures
        same_live(serve_all(a, cs, now), replay_all(b, cs, now), now),
    decreases cs.len(),
{
    if cs.len() > 0 {
        lemma_step_same(cs[0], a, b, now);
        lemma_session_same(execute_spec(cs[0], a, now).0, replay_spec(cs[0], b, now), cs.drop_first(), now);
    }
}

/// Law: replaying the requests of a session, in which only the writes change
/// the store, leaves a store from which every read at the same time gets
/// what it gets after the session was served.
pub proof fn law_replay_restores_session(m: Map<Seq<char>, EntryView>, cs: Seq<CommandView>, now: u64, key: Seq<char>)
    ensures
        live(replay_all(m, cs, now), key, now) == live(serve_all(m, cs, now), key, now),
{
    lemma_session_same(m, m, cs, now);
}

/// The writes among the requests `cs`, in order: what the server appends to
/// the log.
pub open spec fn writes_of(cs: Seq<CommandView>) -> Seq<CommandView>
    decreases cs.len(),
{
    if cs.len() == 0 {
        cs
    } else if is_write_spec(cs[0]) {
        seq![cs[0]] + writes_of(cs.drop_first())
    } else {
        writes_of(cs.drop_first())
    }
}

proof fn lemma_replay_writes(m: Map<Seq<char>, EntryView>, cs: Seq<CommandView>, now: u64)
    ensures
        replay_all(m, writes_of(cs), now) == replay_all(m, cs, now),
    decreases cs.len(),
{
    if cs.len() > 0 {
        let rest = writes_of(cs.drop_first());
        if is_write_spec(cs[0]) {
            let w = seq![cs[0]] + rest;
            assert(w[0] == cs[0]);
            assert(w.drop_first() =~= rest);
            lemma_replay_writes(replay_spec(cs[0], m, now), cs.drop_first(), now);
        } else {
            lemma_replay_writes(m, cs.drop_first(), now);
        }
    }
}

proof fn lemma_logged_commands(m: Map<Seq<char>, EntryView>, fs: Seq<FrameView>, cs: Seq<CommandView>, now: u64)
    requires
        fs.len() == cs.len(),
        forall|i: int| 0 <= i < fs.len() ==> #[trigger] command_of(fs[i]) == Some(cs[i]),
    ensures
        apply_logged(m, fs, now) == replay_all(m, cs, now),
    decreases fs.len(),
{
    if fs.len() > 0 {
        assert(command_of(fs[0]) == Some(cs[0]));
        let fs2 = fs.drop_first();
        let cs2 = cs.drop_first();
        assert forall|i: int| 0 <= i < fs2.len() implies #[trigger] command_of(fs2[i]) == Some(cs2[i]) by {
            assert(command_of(fs[i + 1]) == Some(cs[i + 1]));
        }
        lemma_logged_commands(replay_spec(cs[0], m, now), fs2, cs2, now);
    }
}

/// Law: a log that holds, encoded, the frames of the write requests of a
/// session, followed by nothing or by bytes from which no frame can be read,
/// replays into a store from which every read at the same time gets what it
/// gets after the session was served.
pub proof fn law_log_restores_session(
    m: Map<Seq<char>, EntryView>,
    cs: Seq<CommandView>,
    fs: Seq<FrameView>,
    tail: Seq<u8>,
    now: u64,
    key: Seq<char>,
)
    requires
        sendable_items(fs),
        tail.len() == 0 || decode_at(tail, 0) is Err,
        fs.len() == writes_of(cs).len(),
        forall|i: int| 0 <= i < fs.len() ==> #[trigger] command_of(fs[i]) == Some(writes_of(cs)[i]),
    ensures
        live(replay_log(m, encode_items(fs) + tail, 0, now), key, now) == live(serve_all(m, cs, now), key, now),
{
    law_replay_encoded_log(m, fs, tail, now);
    lemma_logged_commands(m, fs, writes_of(cs), now);
    lemma_replay_writes(m, cs, now);
    law_replay_restores_session(m, cs, now, key);
}

/// Frames that are each sendable are sendable together.
proof fn lemma_sendable_items(items: Seq<FrameView>)
    requires
        forall|i: int| 0 <= i < items.len() ==> sendable(#[trigger] items[i]),
    ensures
        sendable_items(items),
    decreases items.len(),
{
    if items.len() > 0 {
        let t = items.subrange(1, items.len() as int);
        assert forall|i: int| 0 <= i < t.len() implies sendable(#[trigger] t[i]) by {
            assert(t[i] == items[i + 1]);
        }
        lemma_sendable_items(t);
    }
}

/// Law: the log that a client's write requests leave replays into the store
/// that applying those requests in order leaves. The requests `cs` are `SET`s
/// and `DEL`s, `fs` the frames a client sends for them (as
/// `command_frame_view` describes them, with every length fitting in 64
/// bits), and the log their encodings one after the other, followed by
/// nothing or by bytes from which no frame can be read.
pub proof fn law_client_writes_replay(
    m: Map<Seq<char>, EntryView>,
    cs: Seq<CommandView>,
    fs: Seq<Frame>,
    tail: Seq<u8>,
    now: u64,
)
    requires
        fs.len() == cs.len(),
        forall|i: int| 0 <= i < cs.len() ==> (#[trigger] cs[i] is SetCmd || cs[i] is Del),
        forall|i: int| 0 <= i < cs.len() ==> #[trigger] fs[i].view_frame() == command_frame_view(cs[i]),
        forall|i: int| 0 <= i < cs.len() ==> sendable(#[trigger] command_frame_view(cs[i])),
        tail.len() == 0 || decode_at(tail, 0) is Err,
    ensures
        replay_log(m, encode_items(frames_view(fs)) + tail, 0, now) == replay_all(m, cs, now),
{
    let vs = frames_view(fs);
    assert forall|i: int| 0 <= i < vs.len() implies #[trigger] command_of(vs[i]) == Some(cs[i]) by {
        assert(fs[i].view_frame() == command_frame_view(cs[i]));
        law_command_roundtrip(cs[i], fs[i]);
        lemma_command_meaning(fs[i]);
    }
    assert forall|i: int| 0 <= i < vs.len() implies sendable(#[trigger] vs[i]) by {
        assert(fs[i].view_frame() == command_frame_view(cs[i]));
        assert(sendable(command_frame_view(cs[i])));
    }
    lemma_sendable_items(vs);
    law_replay_encoded_log(m, vs, tail, now);
    lemma_logged_commands(m, vs, cs, now);
}

} // verus!
