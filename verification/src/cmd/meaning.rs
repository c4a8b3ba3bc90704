//! What a request frame means, read from its content alone.

use vstd::prelude::*;
use vstd::utf8::{decode_utf8, encode_utf8, valid_utf8};
use crate::cmd::{
    CommandView, Parsed, dispatch_spec, parse_command_spec, parse_expire_spec, parse_get_spec,
    parse_keys_spec, parse_ping_spec, parse_set_spec, parse_ttl_spec, secs_to_millis,
};
use crate::frame::{Frame, FrameView, frames_view, lemma_array_view};
use crate::parse::{ParseError, after_read, bytes_of, int_of, read_first, string_of};
use crate::text::{atoi_u64, lowercase, uppercase};

verus! {

/// The value of a successful result.
pub open spec fn ok_value<T>(r: Result<T, ParseError>) -> Option<T> {
    match r {
        Ok(v) => Some(v),
        Err(_) => None,
    }
}

/// The text a part holds: a simple frame's, or a bulk frame's bytes when they
/// are UTF-8.
pub open spec fn text_of(f: FrameView) -> Option<Seq<char>> {
    match f {
        FrameView::Simple(s) => Some(s),
        FrameView::Bulk(b) => if valid_utf8(b) { Some(decode_utf8(b)) } else { None },
        _ => None,
    }
}

/// The bytes a part holds: a simple frame's text in UTF-8, or a bulk frame's.
pub open spec fn raw_of(f: FrameView) -> Option<Seq<u8>> {
    match f {
        FrameView::Simple(s) => Some(encode_utf8(s)),
        FrameView::Bulk(b) => Some(b),
        _ => None,
    }
}

/// The number a part holds: an integer frame's, or the one a simple or bulk
/// frame starts with.
pub open spec fn num_of(f: FrameView) -> Option<u64> {
    match f {
        FrameView::Integer(v) => Some(v),
        FrameView::Simple(s) => atoi_u64(encode_utf8(s)),
        FrameView::Bulk(b) => atoi_u64(b),
        _ => None,
    }
}

/// The texts that all the parts hold, if they all hold one.
pub open spec fn texts_of(a: Seq<FrameView>) -> Option<Seq<Seq<char>>>
    decreases a.len(),
{
    if a.len() == 0 {
        Some(Seq::empty())
    } else {
        match text_of(a[0]) {
            None => None,
            Some(k) => match texts_of(a.drop_first()) {
                Some(ks) => Some(seq![k] + ks),
                None => None,
            },
        }
    }
}

/// `GET key`.
pub open spec fn get_args(a: Seq<FrameView>) -> Option<CommandView> {
    if a.len() == 1 {
        match text_of(a[0]) {
            Some(k) => Some(CommandView::Get { key: k }),
            None => None,
        }
    } else {
        None
    }
}

/// `TTL key`.
pub open spec fn ttl_args(a: Seq<FrameView>) -> Option<CommandView> {
    if a.len() == 1 {
        match text_of(a[0]) {
            Some(k) => Some(CommandView::Ttl { key: k }),
            None => None,
        }
    } else {
        None
    }
}

/// `EXPIRE key seconds`.
pub open spec fn expire_args(a: Seq<FrameView>) -> Option<CommandView> {
    if a.len() == 2 {
        match (text_of(a[0]), num_of(a[1])) {
            (Some(k), Some(n)) => Some(CommandView::Expire { key: k, seconds: n }),
            _ => None,
        }
    } else {
        None
    }
}

/// `PING [message]`.
pub open spec fn ping_args(a: Seq<FrameView>) -> Option<CommandView> {
    if a.len() == 0 {
        Some(CommandView::Ping { msg: None })
    } else if a.len() == 1 {
        match text_of(a[0]) {
            Some(s) => Some(CommandView::Ping { msg: Some(encode_utf8(s)) }),
            None => None,
        }
    } else {
        None
    }
}

/// `SET key value [EX seconds | PX milliseconds]`.
pub open spec fn set_args(a: Seq<FrameView>) -> Option<CommandView> {
    if a.len() == 2 {
        match (text_of(a[0]), raw_of(a[1])) {
            (Some(k), Some(v)) => Some(CommandView::SetCmd { key: k, value: v, expire: None }),
            _ => None,
        }
    } else if a.len() == 4 {
        match (text_of(a[0]), raw_of(a[1]), text_of(a[2]), num_of(a[3])) {
            (Some(k), Some(v), Some(o), Some(n)) => if uppercase(o) == "EX"@ {
                Some(CommandView::SetCmd { key: k, value: v, expire: Some(secs_to_millis(n)) })
            } else if uppercase(o) == "PX"@ {
                Some(CommandView::SetCmd { key: k, value: v, expire: Some(n) })
            } else {
                None
            },
            _ => None,
        }
    } else {
        None
    }
}

/// The request that the command name `name` (in lower case) with the
/// arguments `a` makes, if it makes one.
pub open spec fn args_of(name: Seq<char>, a: Seq<FrameView>) -> Option<CommandView> {
    if name == "get"@ {
        get_args(a)
    } else if name == "set"@ {
        set_args(a)
    } else if name == "del"@ {
        match texts_of(a) {
            Some(ks) => Some(CommandView::Del { keys: ks }),
            None => None,
        }
    } else if name == "ping"@ {
        ping_args(a)
    } else if name == "exists"@ {
        match texts_of(a) {
            Some(ks) => Some(CommandView::Exists { keys: ks }),
            None => None,
        }
    } else if name == "ttl"@ {
        ttl_args(a)
    } else if name == "expire"@ {
        expire_args(a)
    } else {
        None
    }
}

/// The request that a frame with the content `f` makes, if it makes one: an
/// array whose first part names the command.
pub open spec fn command_of(f: FrameView) -> Option<CommandView> {
    match f {
        FrameView::Array(parts) => if parts.len() == 0 {
            None
        } else {
            match text_of(parts[0]) {
                Some(name) => args_of(lowercase(name), parts.drop_first()),
                None => None,
            }
        },
        _ => None,
    }
}

/// A request read from parts, counted only when no part is left over.
pub open spec fn finished(p: (Result<CommandView, ParseError>, Seq<Frame>)) -> Option<CommandView> {
    match p.0 {
        Ok(c) => if p.1.len() == 0 { Some(c) } else { None },
        Err(_) => None,
    }
}

/// Reading a part gives what its content holds.
proof fn lemma_parts(p: Seq<Frame>)
    ensures
        frames_view(p).len() == p.len(),
        forall|i: int| 0 <= i < p.len() ==> {
            &&& ok_value(string_of(#[trigger] p[i])) == text_of(frames_view(p)[i])
            &&& ok_value(bytes_of(p[i])) == raw_of(frames_view(p)[i])
            &&& ok_value(int_of(p[i])) == num_of(frames_view(p)[i])
        },
{
}

/// The parts after one read have the contents after the first.
proof fn lemma_after_read(p: Seq<Frame>)
    requires
        p.len() > 0,
    ensures
        after_read(p) == p.drop_first(),
        frames_view(after_read(p)) == frames_view(p).drop_first(),
{
    assert(frames_view(p.drop_first()) =~= frames_view(p).drop_first());
}

proof fn lemma_keys_meaning(p: Seq<Frame>)
    ensures
        (parse_keys_spec(p).0 is Ok ==> parse_keys_spec(p).1.len() == 0),
        ok_value(parse_keys_spec(p).0) == texts_of(frames_view(p)),
    decreases p.len(),
{
    lemma_parts(p);
    if p.len() > 0 {
        lemma_after_read(p);
        lemma_keys_meaning(p.drop_first());
    }
}

proof fn lemma_get_meaning(p: Seq<Frame>)
    ensures
        finished(parse_get_spec(p)) == get_args(frames_view(p)),
{
    lemma_parts(p);
    if p.len() > 0 {
        lemma_after_read(p);
    }
}

proof fn lemma_ttl_meaning(p: Seq<Frame>)
    ensures
        finished(parse_ttl_spec(p)) == ttl_args(frames_view(p)),
{
    lemma_parts(p);
    if p.len() > 0 {
        lemma_after_read(p);
    }
}

proof fn lemma_ping_meaning(p: Seq<Frame>)
    ensures
        finished(parse_ping_spec(p)) == ping_args(frames_view(p)),
{
    lemma_parts(p);
    if p.len() > 0 {
        lemma_after_read(p);
    }
}

proof fn lemma_expire_meaning(p: Seq<Frame>)
    ensures
        finished(parse_expire_spec(p)) == expire_args(frames_view(p)),
{
    lemma_parts(p);
    if p.len() > 0 {
        lemma_after_read(p);
        let p2 = p.drop_first();
        lemma_parts(p2);
        if p2.len() > 0 {
            lemma_after_read(p2);
        }
    }
}

proof fn lemma_set_meaning(p: Seq<Frame>)
    ensures
        finished(parse_set_spec(p)) == set_args(frames_view(p)),
{
    lemma_parts(p);
    if p.len() > 0 {
        lemma_after_read(p);
        let p2 = p.drop_first();
        lemma_parts(p2);
        if p2.len() > 0 {
            lemma_after_read(p2);
            let p3 = p2.drop_first();
            lemma_parts(p3);
            if p3.len() > 0 {
                lemma_after_read(p3);
                let p4 = p3.drop_first();
                lemma_parts(p4);
                if p4.len() > 0 {
                    lemma_after_read(p4);
                }
            }
        }
    }
}

/// A request frame is read as a request exactly when its content makes one,
/// and then as that one.
pub proof fn lemma_command_meaning(f: Frame)
    ensures
        match parse_command_spec(f) {
            Parsed::Command(c) => command_of(f.view_frame()) == Some(c),
            _ => command_of(f.view_frame()) is None,
        },
{
    match f {
        Frame::Array(v) => {
            let p = v@;
            lemma_array_view(f);
            lemma_parts(p);
            assert(f.view_frame()->Array_0 =~= frames_view(p));
            if p.len() > 0 {
                lemma_after_read(p);
                let rest = p.drop_first();
                lemma_get_meaning(rest);
                lemma_set_meaning(rest);
                lemma_ping_meaning(rest);
                lemma_ttl_meaning(rest);
                lemma_expire_meaning(rest);
                lemma_keys_meaning(rest);
            }
        },
        _ => {},
    }
}

} // verus!
