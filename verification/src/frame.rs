//! Frames of the Redis serialization protocol (RESP).

use bytes::Bytes;
use vstd::prelude::*;
use vstd::utf8::{decode_utf8, encode_utf8, encode_utf8_decode_utf8, encode_utf8_valid_utf8, valid_utf8};
use crate::bytebuf::bytes_view;
use crate::text::{atoi_u64, decimal, is_digit, lemma_atoi_decimal, lemma_decimal_digits, parse_u64_prefix, push_decimal};

verus! {

/// A frame of the protocol.
#[derive(Debug)]
pub enum Frame {
    Simple(String),
    Error(String),
    Integer(u64),
    Bulk(Bytes),
    Null,
    Array(Vec<Frame>),
}

/// The mathematical content of a frame: strings as characters, buffers as
/// bytes.
pub enum FrameView {
    Simple(Seq<char>),
    Error(Seq<char>),
    Integer(u64),
    Bulk(Seq<u8>),
    Null,
    Array(Seq<FrameView>),
}

impl Frame {
    /// An empty array frame.
    pub fn array() -> (f: Frame)
        ensures
            f matches Frame::Array(v) && v@.len() == 0,
    {
        Frame::Array(Vec::new())
    }

    /// Appends a bulk frame holding `bytes` to this array frame.
    pub fn push_bulk(&mut self, bytes: Bytes)
        requires
            *old(self) is Array,
        ensures
            *final(self) matches Frame::Array(v) && *old(self) matches Frame::Array(w)
                && v@ == w@.push(Frame::Bulk(bytes)),
    {
        match self {
            Frame::Array(vec) => vec.push(Frame::Bulk(bytes)),
            _ => {},
        }
    }

    /// The content of this frame.
    pub open spec fn view_frame(self) -> FrameView
        decreases self,
    {
        match self {
            Frame::Simple(s) => FrameView::Simple(s@),
            Frame::Error(s) => FrameView::Error(s@),
            Frame::Integer(n) => FrameView::Integer(n),
            Frame::Bulk(b) => FrameView::Bulk(bytes_view(b)),
            Frame::Null => FrameView::Null,
            Frame::Array(v) => FrameView::Array(
                Seq::new(
                    v@.len(),
                    |i: int|
                        if 0 <= i < v@.len() {
                            v@[i].view_frame()
                        } else {
                            FrameView::Null
                        },
                ),
            ),
        }
    }
}

/// The content of an array frame is the content of its elements.
pub proof fn lemma_array_view(f: Frame)
    requires
        f is Array,
    ensures
        f matches Frame::Array(v) && f.view_frame() matches FrameView::Array(s) && s.len() == v@.len()
            && forall|i: int| 0 <= i < v@.len() ==> #[trigger] s[i] == v@[i].view_frame(),
{
}

/// Why bytes could not be read as a frame.
#[derive(Debug, PartialEq, Eq, Structural)]
pub enum FrameError {
    /// The bytes end before the frame does: more must be read.
    Incomplete,
    /// The first byte does not name a kind of frame.
    InvalidTypeByte(u8),
    /// A length or number is not a decimal numeral, or a null is malformed.
    InvalidFormat,
    /// A simple or error line is not UTF-8.
    InvalidUtf8,
}

/// Carriage return and line feed, which end every line.
pub open spec fn crlf() -> Seq<u8> {
    seq![13u8, 10u8]
}

/// The first position at or after `i` where a line ends (a carriage return
/// followed by a line feed), if any.
pub open spec fn find_crlf(s: Seq<u8>, i: int) -> Option<int>
    decreases s.len() - i,
{
    if i < 0 || i + 1 >= s.len() {
        None
    } else if s[i] == 13 && s[i + 1] == 10 {
        Some(i)
    } else {
        find_crlf(s, i + 1)
    }
}

/// A line end found from `i` lies at or after `i` and leaves room for the
/// line feed.
pub proof fn lemma_find_crlf_bounds(s: Seq<u8>, i: int)
    ensures
        find_crlf(s, i) matches Some(e) ==> i <= e && e + 1 < s.len() && s[e] == 13 && s[e + 1] == 10,
    decreases s.len() - i,
{
    if !(i < 0 || i + 1 >= s.len()) && !(s[i] == 13 && s[i + 1] == 10) {
        lemma_find_crlf_bounds(s, i + 1);
    }
}

/// Reading a frame from `s` at position `p`: the frame and the position just
/// after it, or why none can be read.
///
/// `+line` and `-line` are simple and error frames (the line must be UTF-8);
/// `:n` an integer; `$-1` a null; `$n` a bulk frame of the `n` bytes after
/// the line (and two more, not looked at, that end it); `*n` an array of the
/// `n` frames that follow. Numbers are read as `atoi` reads them.
pub open spec fn decode_at(s: Seq<u8>, p: int) -> Result<(FrameView, int), FrameError>
    decreases s.len() - p, 0int,
{
    if p < 0 || p >= s.len() {
        Err(FrameError::Incomplete)
    } else {
        let t = s[p];
        if t == 43 || t == 45 {
            match find_crlf(s, p + 1) {
                None => Err(FrameError::Incomplete),
                Some(e) => {
                    let line = s.subrange(p + 1, e);
                    if valid_utf8(line) {
                        Ok((
                            if t == 43 {
                                FrameView::Simple(decode_utf8(line))
                            } else {
                                FrameView::Error(decode_utf8(line))
                            },
                            e + 2,
                        ))
                    } else {
                        Err(FrameError::InvalidUtf8)
                    }
                },
            }
        } else if t == 58 {
            match find_crlf(s, p + 1) {
                None => Err(FrameError::Incomplete),
                Some(e) => match atoi_u64(s.subrange(p + 1, e)) {
                    Some(n) => Ok((FrameView::Integer(n), e + 2)),
                    None => Err(FrameError::InvalidFormat),
                },
            }
        } else if t == 36 {
            if p + 1 >= s.len() {
                Err(FrameError::Incomplete)
            } else if s[p + 1] == 45 {
                if s.len() - p < 5 {
                    Err(FrameError::Incomplete)
                } else {
                    match find_crlf(s, p + 1) {
                        None => Err(FrameError::Incomplete),
                        Some(e) => if s.subrange(p + 1, e) == seq![45u8, 49u8] {
                            Ok((FrameView::Null, e + 2))
                        } else {
                            Err(FrameError::InvalidFormat)
                        },
                    }
                }
            } else {
                match find_crlf(s, p + 1) {
                    None => Err(FrameError::Incomplete),
                    Some(e) => match atoi_u64(s.subrange(p + 1, e)) {
                        None => Err(FrameError::InvalidFormat),
                        Some(n) => if s.len() - (e + 2) < n + 2 {
                            Err(FrameError::Incomplete)
                        } else {
                            Ok((FrameView::Bulk(s.subrange(e + 2, e + 2 + n)), e + 4 + n))
                        },
                    },
                }
            }
        } else if t == 42 {
            match find_crlf(s, p + 1) {
                None => Err(FrameError::Incomplete),
                Some(e) => match atoi_u64(s.subrange(p + 1, e)) {
                    None => Err(FrameError::InvalidFormat),
                    Some(n) => {
                        proof {
                            lemma_find_crlf_bounds(s, p + 1);
                        }
                        match decode_items(s, e + 2, n as nat) {
                            Err(x) => Err(x),
                            Ok((items, q)) => Ok((FrameView::Array(items), q)),
                        }
                    },
                },
            }
        } else {
            Err(FrameError::InvalidTypeByte(t))
        }
    }
}

/// Reading `n` frames one after the other from `s` at `p`.
pub open spec fn decode_items(s: Seq<u8>, p: int, n: nat) -> Result<(Seq<FrameView>, int), FrameError>
    decreases s.len() - p, 1int,
{
    if n == 0 {
        Ok((Seq::empty(), p))
    } else {
        match decode_at(s, p) {
            Err(x) => Err(x),
            Ok((f, q)) => if q <= p || q > s.len() {
                Err(FrameError::InvalidFormat)
            } else {
                match decode_items(s, q, (n - 1) as nat) {
                    Err(x) => Err(x),
                    Ok((fs, r)) => Ok((seq![f] + fs, r)),
                }
            },
        }
    }
}

/// A frame read from `p` ends after `p` and within the bytes.
pub proof fn lemma_decode_bounds(s: Seq<u8>, p: int)
    ensures
        decode_at(s, p) matches Ok((f, q)) ==> p < q <= s.len(),
    decreases s.len() - p, 0int,
{
    if 0 <= p < s.len() {
        lemma_find_crlf_bounds(s, p + 1);
        let t = s[p];
        if t == 42 {
            if let Some(e) = find_crlf(s, p + 1) {
                if let Some(n) = atoi_u64(s.subrange(p + 1, e)) {
                    lemma_items_bounds(s, e + 2, n as nat);
                }
            }
        }
    }
}

/// Frames read from `p` end at or after `p` and within the bytes.
pub proof fn lemma_items_bounds(s: Seq<u8>, p: int, n: nat)
    requires
        0 <= p <= s.len(),
    ensures
        decode_items(s, p, n) matches Ok((fs, r)) ==> p <= r <= s.len() && fs.len() == n,
    decreases s.len() - p, 1int,
{
    if n > 0 {
        lemma_decode_bounds(s, p);
        if let Ok((f, q)) = decode_at(s, p) {
            if q > p && q <= s.len() {
                lemma_items_bounds(s, q, (n - 1) as nat);
            }
        }
    }
}

/// A reading result moved `n` positions on.
pub open spec fn shifted(r: Result<(FrameView, int), FrameError>, n: int) -> Result<(FrameView, int), FrameError> {
    match r {
        Ok((f, q)) => Ok((f, q + n)),
        Err(x) => Err(x),
    }
}

/// A result of reading several frames moved `n` positions on.
pub open spec fn shifted_items(
    r: Result<(Seq<FrameView>, int), FrameError>,
    n: int,
) -> Result<(Seq<FrameView>, int), FrameError> {
    match r {
        Ok((fs, q)) => Ok((fs, q + n)),
        Err(x) => Err(x),
    }
}

/// Looking for a line end depends only on the bytes from where the search
/// starts.
pub proof fn lemma_find_crlf_shift(pre: Seq<u8>, t: Seq<u8>, i: int)
    requires
        0 <= i,
    ensures
        find_crlf(pre + t, pre.len() + i) == match find_crlf(t, i) {
            Some(e) => Some(pre.len() + e),
            None => None::<int>,
        },
    decreases t.len() - i,
{
    let s = pre + t;
    let n = pre.len() as int;
    if i + 1 < t.len() {
        assert(s[n + i] == t[i]);
        assert(s[n + i + 1] == t[i + 1]);
        if !(t[i] == 13 && t[i + 1] == 10) {
            lemma_find_crlf_shift(pre, t, i + 1);
        }
    }
}

/// Reading a frame depends only on the bytes from where it starts: bytes put
/// in front move the result by their length and change nothing else.
pub proof fn lemma_decode_shift(pre: Seq<u8>, t: Seq<u8>, p: int)
    requires
        0 <= p,
    ensures
        decode_at(pre + t, pre.len() + p) == shifted(decode_at(t, p), pre.len() as int),
    decreases t.len() - p, 0int,
{
    let s = pre + t;
    let n = pre.len() as int;
    if p < t.len() {
        assert(s[n + p] == t[p]);
        lemma_find_crlf_shift(pre, t, p + 1);
        lemma_find_crlf_bounds(t, p + 1);
        if p + 1 < t.len() {
            assert(s[n + p + 1] == t[p + 1]);
        }
        match find_crlf(t, p + 1) {
            Some(e) => {
                assert(s.subrange(n + p + 1, n + e) =~= t.subrange(p + 1, e));
                let t0 = t[p];
                if t0 == 36 && t[p + 1] != 45 {
                    if let Some(k) = atoi_u64(t.subrange(p + 1, e)) {
                        if t.len() - (e + 2) >= k + 2 {
                            assert(s.subrange(n + e + 2, n + e + 2 + k) =~= t.subrange(e + 2, e + 2 + k));
                        }
                    }
                }
                if t0 == 42 {
                    if let Some(k) = atoi_u64(t.subrange(p + 1, e)) {
                        lemma_items_shift(pre, t, e + 2, k as nat);
                    }
                }
            },
            None => {},
        }
    }
}

/// Reading several frames depends only on the bytes from where the first
/// starts.
pub proof fn lemma_items_shift(pre: Seq<u8>, t: Seq<u8>, p: int, k: nat)
    requires
        0 <= p <= t.len(),
    ensures
        decode_items(pre + t, pre.len() + p, k) == shifted_items(decode_items(t, p, k), pre.len() as int),
    decreases t.len() - p, 1int,
{
    if k > 0 {
        let n = pre.len() as int;
        lemma_decode_shift(pre, t, p);
        match decode_at(t, p) {
            Ok((f, q)) => {
                if q > p && q <= t.len() {
                    lemma_items_shift(pre, t, q, (k - 1) as nat);
                }
            },
            Err(_) => {},
        }
    }
}

/// The bytes that encode a frame.
pub open spec fn encode(f: FrameView) -> Seq<u8>
    decreases f, 0int,
{
    match f {
        FrameView::Simple(s) => seq![43u8] + encode_utf8(s) + crlf(),
        FrameView::Error(s) => seq![45u8] + encode_utf8(s) + crlf(),
        FrameView::Integer(n) => seq![58u8] + decimal(n as nat) + crlf(),
        FrameView::Bulk(b) => seq![36u8] + decimal(b.len()) + crlf() + b + crlf(),
        FrameView::Null => seq![36u8, 45u8, 49u8, 13u8, 10u8],
        FrameView::Array(items) => seq![42u8] + decimal(items.len()) + crlf() + encode_items(items),
    }
}

/// The bytes that encode frames one after the other.
pub open spec fn encode_items(items: Seq<FrameView>) -> Seq<u8>
    decreases items, 1int,
{
    if items.len() == 0 {
        Seq::empty()
    } else {
        encode(items[0]) + encode_items(items.subrange(1, items.len() as int))
    }
}

/// No line end inside `b`.
pub open spec fn no_crlf(b: Seq<u8>) -> bool {
    forall|i: int| 0 <= i < b.len() - 1 ==> !(#[trigger] b[i] == 13 && b[i + 1] == 10)
}

/// A frame that reads back as itself once encoded: simple and error lines
/// hold no line end, and lengths fit in 64 bits.
pub open spec fn sendable(f: FrameView) -> bool
    decreases f, 0int,
{
    match f {
        FrameView::Simple(s) => no_crlf(encode_utf8(s)),
        FrameView::Error(s) => no_crlf(encode_utf8(s)),
        FrameView::Bulk(b) => b.len() <= u64::MAX,
        FrameView::Array(items) => items.len() <= u64::MAX && sendable_items(items),
        _ => true,
    }
}

/// Frames that are all sendable.
pub open spec fn sendable_items(items: Seq<FrameView>) -> bool
    decreases items, 1int,
{
    if items.len() == 0 {
        true
    } else {
        sendable(items[0]) && sendable_items(items.subrange(1, items.len() as int))
    }
}

/// A window of `s` starting at `p` that equals `w` agrees with `w` byte by
/// byte.
proof fn lemma_window(s: Seq<u8>, p: int, w: Seq<u8>)
    requires
        0 <= p,
        p + w.len() <= s.len(),
        s.subrange(p, p + w.len()) == w,
    ensures
        forall|k: int| 0 <= k < w.len() ==> s[p + k] == #[trigger] w[k],
{
    assert forall|k: int| 0 <= k < w.len() implies s[p + k] == #[trigger] w[k] by {
        assert(s.subrange(p, p + w.len())[k] == s[p + k]);
    }
}

/// Bytes that agree with `w` byte by byte from `p` hold `w` as a window.
proof fn lemma_window_from(s: Seq<u8>, p: int, w: Seq<u8>)
    requires
        0 <= p,
        p + w.len() <= s.len(),
        forall|k: int| 0 <= k < w.len() ==> s[p + k] == #[trigger] w[k],
    ensures
        s.subrange(p, p + w.len()) == w,
{
    assert(s.subrange(p, p + w.len()) =~= w);
}

/// The first line end from `i` is at `e` when one is at `e` and none before.
proof fn lemma_find_crlf_at(s: Seq<u8>, i: int, e: int)
    requires
        0 <= i <= e,
        e + 1 < s.len(),
        s[e] == 13,
        s[e + 1] == 10,
        forall|j: int| i <= j < e ==> !(#[trigger] s[j] == 13 && s[j + 1] == 10),
    ensures
        find_crlf(s, i) == Some(e),
    decreases e - i,
{
    if i < e {
        lemma_find_crlf_at(s, i + 1, e);
    }
}

/// A line `line` without line ends, after the type byte at `p` and followed
/// by a line end, is found as such.
proof fn lemma_line(s: Seq<u8>, p: int, line: Seq<u8>)
    requires
        0 <= p,
        p + line.len() + 3 <= s.len(),
        no_crlf(line),
        forall|k: int| 0 <= k < line.len() ==> s[p + 1 + k] == #[trigger] line[k],
        s[p + 1 + line.len()] == 13,
        s[p + 2 + line.len()] == 10,
    ensures
        find_crlf(s, p + 1) == Some(p + 1 + line.len()),
        s.subrange(p + 1, p + 1 + line.len()) == line,
{
    let e = p + 1 + line.len();
    assert forall|j: int| p + 1 <= j < e implies !(#[trigger] s[j] == 13 && s[j + 1] == 10) by {
        let k = j - (p + 1);
        assert(s[j] == line[k]);
        if k + 1 < line.len() {
            assert(s[j + 1] == line[k + 1]);
        }
    }
    lemma_find_crlf_at(s, p + 1, e);
    lemma_window_from(s, p + 1, line);
}

/// A numeral has no line end in it.
proof fn lemma_decimal_no_crlf(n: nat)
    ensures
        no_crlf(decimal(n)),
        decimal(n).len() >= 1,
        is_digit(decimal(n)[0]),
{
    lemma_decimal_digits(n);
    assert forall|i: int| 0 <= i < decimal(n).len() - 1 implies !(#[trigger] decimal(n)[i] == 13 && decimal(n)[i + 1] == 10) by {
        assert(is_digit(decimal(n)[i]));
    }
}

/// A numeral read back gives its number.
proof fn lemma_atoi_numeral(n: u64)
    ensures
        atoi_u64(decimal(n as nat)) == Some(n),
{
    lemma_atoi_decimal(n, Seq::empty());
    assert(decimal(n as nat) + Seq::<u8>::empty() =~= decimal(n as nat));
}

/// An encoded frame starts with its type byte.
pub proof fn lemma_encode_len(f: FrameView)
    ensures
        encode(f).len() >= 1,
{
}

/// Encoding a sendable frame and reading it back, wherever it stands in a
/// longer run of bytes, gives the frame and the position right after it.
pub proof fn lemma_decode_encode(s: Seq<u8>, p: int, f: FrameView)
    requires
        sendable(f),
        0 <= p,
        p + encode(f).len() <= s.len(),
        s.subrange(p, p + encode(f).len()) == encode(f),
    ensures
        decode_at(s, p) == Ok::<(FrameView, int), FrameError>((f, p + encode(f).len())),
    decreases f, 0int,
{
    broadcast use encode_utf8_decode_utf8, encode_utf8_valid_utf8;

    let w = encode(f);
    lemma_window(s, p, w);
    match f {
        FrameView::Simple(st) => {
            let line = encode_utf8(st);
            assert(w == seq![43u8] + line + crlf());
            assert forall|k: int| 0 <= k < line.len() implies s[p + 1 + k] == #[trigger] line[k] by {
                assert(w[1 + k] == line[k]);
            }
            assert(w[1 + line.len() as int] == 13);
            assert(w[2 + line.len() as int] == 10);
            lemma_line(s, p, line);
            assert(s[p] == w[0]);
            assert(s.subrange(p + 1, p + 1 + line.len()) == line);
            assert(valid_utf8(line));
            assert(decode_utf8(line) == st);
            assert(w.len() == line.len() + 3);
            assert(decode_at(s, p) == Ok::<(FrameView, int), FrameError>((f, p + encode(f).len())));
        },
        FrameView::Error(st) => {
            let line = encode_utf8(st);
            assert(w == seq![45u8] + line + crlf());
            assert forall|k: int| 0 <= k < line.len() implies s[p + 1 + k] == #[trigger] line[k] by {
                assert(w[1 + k] == line[k]);
            }
            assert(w[1 + line.len() as int] == 13);
            assert(w[2 + line.len() as int] == 10);
            lemma_line(s, p, line);
            assert(s[p] == w[0]);
            assert(s.subrange(p + 1, p + 1 + line.len()) == line);
            assert(valid_utf8(line));
            assert(decode_utf8(line) == st);
            assert(w.len() == line.len() + 3);
            assert(decode_at(s, p) == Ok::<(FrameView, int), FrameError>((f, p + encode(f).len())));
        },
        FrameView::Integer(n) => {
            let line = decimal(n as nat);
            lemma_decimal_no_crlf(n as nat);
            lemma_atoi_numeral(n);
            assert forall|k: int| 0 <= k < line.len() implies s[p + 1 + k] == #[trigger] line[k] by {
                assert(w[1 + k] == line[k]);
            }
            assert(w[1 + line.len() as int] == 13);
            assert(w[2 + line.len() as int] == 10);
            lemma_line(s, p, line);
            assert(s[p] == w[0]);
            assert(s.subrange(p + 1, p + 1 + line.len()) == line);
            assert(w.len() == line.len() + 3);
            assert(decode_at(s, p) == Ok::<(FrameView, int), FrameError>((f, p + encode(f).len())));
        },
        FrameView::Bulk(b) => {
            let line = decimal(b.len());
            lemma_decimal_no_crlf(b.len());
            lemma_atoi_numeral(b.len() as u64);
            assert forall|k: int| 0 <= k < line.len() implies s[p + 1 + k] == #[trigger] line[k] by {
                assert(w[1 + k] == line[k]);
            }
            assert(w[1 + line.len() as int] == 13);
            assert(w[2 + line.len() as int] == 10);
            lemma_line(s, p, line);
            assert(s[p + 1] == line[0]);
            let e = p + 1 + line.len();
            assert forall|k: int| 0 <= k < b.len() implies s[e + 2 + k] == #[trigger] b[k] by {
                assert(w[line.len() as int + 3 + k] == b[k]);
            }
            lemma_window_from(s, e + 2, b);
            assert(s[p] == w[0]);
            assert(w.len() == line.len() + 5 + b.len());
            assert(atoi_u64(s.subrange(p + 1, e)) == Some(b.len() as u64));
            assert(s.subrange(e + 2, e + 2 + b.len()) == b);
            assert(decode_at(s, p) == Ok::<(FrameView, int), FrameError>((f, p + encode(f).len())));
        },
        FrameView::Null => {
            assert(s[p] == 36);
            assert(s[p + 1] == 45);
            assert(s[p + 2] == 49);
            assert(s[p + 3] == 13);
            assert(s[p + 4] == 10);
            lemma_find_crlf_at(s, p + 1, p + 3);
            assert(s.subrange(p + 1, p + 3) =~= seq![45u8, 49u8]);
            assert(decode_at(s, p) == Ok::<(FrameView, int), FrameError>((f, p + encode(f).len())));
        },
        FrameView::Array(items) => {
            let line = decimal(items.len());
            lemma_decimal_no_crlf(items.len());
            lemma_atoi_numeral(items.len() as u64);
            assert forall|k: int| 0 <= k < line.len() implies s[p + 1 + k] == #[trigger] line[k] by {
                assert(w[1 + k] == line[k]);
            }
            assert(w[1 + line.len() as int] == 13);
            assert(w[2 + line.len() as int] == 10);
            lemma_line(s, p, line);
            let e = p + 1 + line.len();
            let body = encode_items(items);
            assert forall|k: int| 0 <= k < body.len() implies s[e + 2 + k] == #[trigger] body[k] by {
                assert(w[line.len() as int + 3 + k] == body[k]);
            }
            lemma_window_from(s, e + 2, body);
            lemma_decode_encode_items(s, e + 2, items);
            assert(s[p] == w[0]);
            assert(w.len() == line.len() + 3 + body.len());
            assert(atoi_u64(s.subrange(p + 1, e)) == Some(items.len() as u64));
            assert((items.len() as u64) as nat == items.len());
            assert(decode_at(s, p) == Ok::<(FrameView, int), FrameError>((f, p + encode(f).len())));
        },
    }
}

/// Encoding sendable frames one after the other and reading them back gives
/// the frames and the position right after them.
pub proof fn lemma_decode_encode_items(s: Seq<u8>, p: int, items: Seq<FrameView>)
    requires
        sendable_items(items),
        0 <= p,
        p + encode_items(items).len() <= s.len(),
        s.subrange(p, p + encode_items(items).len()) == encode_items(items),
    ensures
        decode_items(s, p, items.len()) == Ok::<(Seq<FrameView>, int), FrameError>((items, p + encode_items(items).len())),
    decreases items, 1int,
{
    if items.len() > 0 {
        let w = encode_items(items);
        let first = encode(items[0]);
        let tail = items.subrange(1, items.len() as int);
        let rest = encode_items(tail);
        assert(w == first + rest);
        lemma_window(s, p, w);
        assert forall|k: int| 0 <= k < first.len() implies s[p + k] == #[trigger] first[k] by {
            assert(w[k] == first[k]);
        }
        lemma_window_from(s, p, first);
        lemma_decode_encode(s, p, items[0]);
        lemma_encode_len(items[0]);
        let q = p + first.len();
        assert forall|k: int| 0 <= k < rest.len() implies s[q + k] == #[trigger] rest[k] by {
            assert(w[first.len() as int + k] == rest[k]);
        }
        lemma_window_from(s, q, rest);
        lemma_decode_encode_items(s, q, tail);
        assert(tail.len() == (items.len() - 1) as nat);
        assert(seq![items[0]] + tail =~= items);
    } else {
        assert(items =~= Seq::<FrameView>::empty());
    }
}

/// Law: a sendable frame, encoded and followed by any bytes at all, reads
/// back as itself and takes exactly the bytes of its encoding.
pub proof fn law_frame_roundtrip(f: FrameView, rest: Seq<u8>)
    requires
        sendable(f),
    ensures
        decode_at(encode(f) + rest, 0) == Ok::<(FrameView, int), FrameError>((f, encode(f).len() as int)),
{
    let s = encode(f) + rest;
    assert(s.subrange(0, encode(f).len() as int) =~= encode(f));
    lemma_decode_encode(s, 0, f);
}

/// A frame whose content is a bulk buffer is a bulk frame holding it.
pub proof fn lemma_view_bulk(f: Frame, b: Seq<u8>)
    requires
        f.view_frame() == FrameView::Bulk(b),
    ensures
        f matches Frame::Bulk(x) && bytes_view(x) == b,
{
}

/// A frame whose content is an array is an array frame of frames with those
/// contents.
pub proof fn lemma_view_array(f: Frame, items: Seq<FrameView>)
    requires
        f.view_frame() == FrameView::Array(items),
    ensures
        f matches Frame::Array(v) && v@.len() == items.len()
            && forall|i: int| 0 <= i < items.len() ==> #[trigger] v@[i].view_frame() == items[i],
{
    lemma_array_view(f);
}

/// The content of a sequence of frames.
pub open spec fn frames_view(v: Seq<Frame>) -> Seq<FrameView> {
    Seq::new(v.len(), |i: int| v[i].view_frame())
}

/// An executable reading result agrees with a specified one.
pub open spec fn decoded_as(r: Result<(Frame, usize), FrameError>, d: Result<(FrameView, int), FrameError>) -> bool {
    match d {
        Ok((v, q)) => r matches Ok((f, n)) && f.view_frame() == v && n == q,
        Err(x) => r == Err::<(Frame, usize), FrameError>(x),
    }
}

/// Frames already read, put in front of what reading the rest gives.
pub open spec fn prepend_items(
    done: Seq<FrameView>,
    rest: Result<(Seq<FrameView>, int), FrameError>,
) -> Result<(Seq<FrameView>, int), FrameError> {
    match rest {
        Ok((fs, r)) => Ok((done + fs, r)),
        Err(x) => Err(x),
    }
}

/// Encoding frames one after the other, split anywhere.
pub proof fn lemma_encode_items_append(a: Seq<FrameView>, b: Seq<FrameView>)
    ensures
        encode_items(a + b) == encode_items(a) + encode_items(b),
    decreases a.len(),
{
    if a.len() == 0 {
        assert(a + b =~= b);
        assert(encode_items(a) + encode_items(b) =~= encode_items(b));
    } else {
        let tail = a.subrange(1, a.len() as int);
        lemma_encode_items_append(tail, b);
        assert((a + b).subrange(1, (a + b).len() as int) =~= tail + b);
        assert((a + b)[0] == a[0]);
        assert(encode_items(a + b) =~= encode_items(a) + encode_items(b));
    }
}

/// The first line end at or after `from`.
fn find_line_end(src: &[u8], from: usize) -> (r: Option<usize>)
    ensures
        match find_crlf(src@, from as int) {
            Some(e) => r == Some(e as usize),
            None => r is None,
        },
{
    let mut i = from;
    while i < src.len() && i + 1 < src.len()
        invariant
            from <= i,
            find_crlf(src@, from as int) == find_crlf(src@, i as int),
        decreases src.len() - i,
    {
        if src[i] == 13 && src[i + 1] == 10 {
            return Some(i);
        }
        i = i + 1;
    }
    None
}

impl Frame {
    /// Reads one frame from the start of `src`: the frame and how many bytes
    /// it took, or why none can be read (see `decode_at`).
    pub fn parse(src: &[u8]) -> (r: Result<(Frame, usize), FrameError>)
        ensures
            decoded_as(r, decode_at(src@, 0)),
    {
        Self::parse_at(src, 0)
    }

    /// Reads one frame from `src` at `p`: the frame and the position right
    /// after it.
    pub fn parse_at(src: &[u8], p: usize) -> (r: Result<(Frame, usize), FrameError>)
        ensures
            decoded_as(r, decode_at(src@, p as int)),
        decreases src@.len() - p,
    {
        if p >= src.len() {
            return Err(FrameError::Incomplete);
        }
        let t = src[p];
        if t == 43 || t == 45 {
            match find_line_end(src, p + 1) {
                None => Err(FrameError::Incomplete),
                Some(e) => {
                    proof {
                        lemma_find_crlf_bounds(src@, p + 1);
                    }
                    match core::str::from_utf8(&src[p + 1..e]) {
                        Ok(line) => {
                            let text = line.to_owned();
                            if t == 43 {
                                Ok((Frame::Simple(text), e + 2))
                            } else {
                                Ok((Frame::Error(text), e + 2))
                            }
                        },
                        Err(_) => Err(FrameError::InvalidUtf8),
                    }
                },
            }
        } else if t == 58 {
            match find_line_end(src, p + 1) {
                None => Err(FrameError::Incomplete),
                Some(e) => {
                    proof {
                        lemma_find_crlf_bounds(src@, p + 1);
                    }
                    match parse_u64_prefix(&src[p + 1..e]) {
                        Some(n) => Ok((Frame::Integer(n), e + 2)),
                        None => Err(FrameError::InvalidFormat),
                    }
                },
            }
        } else if t == 36 {
            if p + 1 >= src.len() {
                Err(FrameError::Incomplete)
            } else if src[p + 1] == 45 {
                if src.len() - p < 5 {
                    Err(FrameError::Incomplete)
                } else {
                    match find_line_end(src, p + 1) {
                        None => Err(FrameError::Incomplete),
                        Some(e) => {
                            proof {
                                lemma_find_crlf_bounds(src@, p + 1);
                            }
                            if e == p + 3 && src[p + 2] == 49 {
                                proof {
                                    assert(src@.subrange(p + 1, e as int) =~= seq![45u8, 49u8]);
                                }
                                Ok((Frame::Null, e + 2))
                            } else {
                                proof {
                                    if src@.subrange(p + 1, e as int) == seq![45u8, 49u8] {
                                        assert(src@.subrange(p + 1, e as int)[1] == src@[p + 2]);
                                    }
                                }
                                Err(FrameError::InvalidFormat)
                            }
                        },
                    }
                }
            } else {
                match find_line_end(src, p + 1) {
                    None => Err(FrameError::Incomplete),
                    Some(e) => {
                        proof {
                            lemma_find_crlf_bounds(src@, p + 1);
                        }
                        match parse_u64_prefix(&src[p + 1..e]) {
                            None => Err(FrameError::InvalidFormat),
                            Some(n) => {
                                let rem = src.len() - (e + 2);
                                if rem < 2 || ((rem - 2) as u64) < n {
                                    Err(FrameError::Incomplete)
                                } else {
                                    let len = n as usize;
                                    let data = Bytes::copy_from_slice(&src[e + 2..e + 2 + len]);
                                    Ok((Frame::Bulk(data), e + 4 + len))
                                }
                            },
                        }
                    },
                }
            }
        } else if t == 42 {
            match find_line_end(src, p + 1) {
                None => Err(FrameError::Incomplete),
                Some(e) => {
                    proof {
                        lemma_find_crlf_bounds(src@, p + 1);
                    }
                    match parse_u64_prefix(&src[p + 1..e]) {
                        None => Err(FrameError::InvalidFormat),
                        Some(n) => {
                            let start = e + 2;
                            let mut items: Vec<Frame> = Vec::new();
                            let mut q: usize = start;
                            let mut i: u64 = 0;
                            proof {
                                assert(frames_view(items@) + Seq::<FrameView>::empty() =~= frames_view(items@));
                                assert(decode_items(src@, start as int, n as nat) == prepend_items(
                                    frames_view(items@), decode_items(src@, q as int, (n - i) as nat)));
                            }
                            while i < n
                                invariant
                                    p < start <= q <= src@.len(),
                                    src@[p as int] == 42,
                                    find_crlf(src@, p + 1) == Some(e as int),
                                    start == e + 2,
                                    atoi_u64(src@.subrange(p + 1, e as int)) == Some(n),
                                    i <= n,
                                    items@.len() == i,
                                    decode_items(src@, start as int, n as nat) == prepend_items(
                                        frames_view(items@),
                                        decode_items(src@, q as int, (n - i) as nat),
                                    ),
                                decreases n - i,
                            {
                                let ghost before = frames_view(items@);
                                match Self::parse_at(src, q) {
                                    Err(x) => {
                                        proof {
                                            assert(decode_items(src@, q as int, (n - i) as nat) == Err::<(Seq<FrameView>, int), FrameError>(x));
                                            assert(decode_items(src@, start as int, n as nat) == Err::<(Seq<FrameView>, int), FrameError>(x));
                                            assert(src@[p as int] == 42);
                                            assert(decode_at(src@, p as int) == Err::<(FrameView, int), FrameError>(x));
                                        }
                                        return Err(x);
                                    },
                                    Ok((f, q2)) => {
                                        proof {
                                            lemma_decode_bounds(src@, q as int);
                                        }
                                        let ghost fv = f.view_frame();
                                        items.push(f);
                                        q = q2;
                                        i = i + 1;
                                        proof {
                                            assert(frames_view(items@) =~= before.push(fv));
                                            match decode_items(src@, q as int, (n - i) as nat) {
                                                Ok((fs, r)) => {
                                                    assert(before + (seq![fv] + fs) =~= before.push(fv) + fs);
                                                },
                                                Err(_) => {},
                                            }
                                        }
                                    },
                                }
                            }
                            proof {
                                assert(frames_view(items@) + Seq::<FrameView>::empty() =~= frames_view(items@));
                                let fr = Frame::Array(items);
                                lemma_array_view(fr);
                                assert(fr.view_frame()->Array_0 =~= frames_view(items@));
                            }
                            Ok((Frame::Array(items), q))
                        },
                    }
                },
            }
        } else {
            Err(FrameError::InvalidTypeByte(t))
        }
    }

    /// Appends the encoding of this frame to `out` (see `encode`).
    pub fn encode(&self, out: &mut Vec<u8>)
        ensures
            final(out)@ == old(out)@ + encode(self.view_frame()),
        decreases self,
    {
        match self {
            Frame::Simple(s) => {
                out.push(43);
                out.extend_from_slice(s.as_str().as_bytes());
                out.push(13);
                out.push(10);
                proof {
                    assert(out@ =~= old(out)@ + encode(self.view_frame()));
                }
            },
            Frame::Error(s) => {
                out.push(45);
                out.extend_from_slice(s.as_str().as_bytes());
                out.push(13);
                out.push(10);
                proof {
                    assert(out@ =~= old(out)@ + encode(self.view_frame()));
                }
            },
            Frame::Integer(n) => {
                out.push(58);
                push_decimal(*n, out);
                out.push(13);
                out.push(10);
                proof {
                    assert(out@ =~= old(out)@ + encode(self.view_frame()));
                }
            },
            Frame::Bulk(b) => {
                let data: &[u8] = &**b;
                out.push(36);
                push_decimal(data.len() as u64, out);
                out.push(13);
                out.push(10);
                out.extend_from_slice(data);
                out.push(13);
                out.push(10);
                proof {
                    assert(out@ =~= old(out)@ + encode(self.view_frame()));
                }
            },
            Frame::Null => {
                out.push(36);
                out.push(45);
                out.push(49);
                out.push(13);
                out.push(10);
                proof {
                    assert(out@ =~= old(out)@ + encode(self.view_frame()));
                }
            },
            Frame::Array(items) => {
                out.push(42);
                push_decimal(items.len() as u64, out);
                out.push(13);
                out.push(10);
                let ghost head = out@;
                let ghost views = frames_view(items@);
                proof {
                    lemma_array_view(*self);
                    assert(views.take(0) =~= Seq::<FrameView>::empty());
                    assert(head =~= head + encode_items(views.take(0)));
                }
                let mut i: usize = 0;
                while i < items.len()
                    invariant
                        0 <= i <= items@.len(),
                        *self is Array,
                        self->Array_0 == *items,
                        views == frames_view(items@),
                        out@ == head + encode_items(views.take(i as int)),
                    decreases items@.len() - i,
                {
                    proof {
                        assert(decreases_to!(*self => self->Array_0));
                        assert(decreases_to!(self->Array_0 => self->Array_0@));
                        assert(decreases_to!(self->Array_0@ => items@[i as int]));
                    }
                    items[i].encode(out);
                    proof {
                        lemma_encode_items_append(views.take(i as int), seq![views[i as int]]);
                        assert(views.take(i as int) + seq![views[i as int]] =~= views.take(i + 1));
                        assert(seq![views[i as int]].subrange(1, 1) =~= Seq::<FrameView>::empty());
                        assert(encode_items(Seq::<FrameView>::empty()) =~= Seq::<u8>::empty());
                        assert(encode_items(seq![views[i as int]]) =~= encode(views[i as int]));
                    }
                    i = i + 1;
                }
                proof {
                    assert(views.take(items@.len() as int) =~= views);
                    assert(self.view_frame()->Array_0 =~= views);
                    assert(out@ =~= old(out)@ + encode(self.view_frame()));
                }
            },
        }
    }
}

} // verus!
