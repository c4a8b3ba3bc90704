//! `SET key value [EX seconds | PX milliseconds]`: stores a value.

use bytes::Bytes;
use vstd::prelude::*;
use vstd::utf8::encode_utf8;
use crate::bytebuf::bytes_view;
use crate::cmd::{CommandView, bulk_text, command_frame_view, deadline, execute_spec, secs_to_millis};
use crate::db::{Db, EntryView};
use crate::frame::{Frame, FrameView, lemma_array_view};
use crate::parse::{Parse, ParseError, ProtocolError, after_read, bytes_of, int_of, read_first, string_of};
use crate::text::{decimal, decimal_bytes, str_eq, uppercase};

verus! {

/// A `SET` request. The expiry, when there is one, is a count of
/// milliseconds.
#[derive(Debug)]
pub struct SetCmd {
    key: String,
    value: Bytes,
    expire: Option<u64>,
}

/// What reading the arguments of `SET` from `parts` gives, and the parts left:
/// the key, the value, then optionally `EX` and seconds or `PX` and
/// milliseconds, the option name in any case.
pub open spec fn parse_set_spec(parts: Seq<Frame>) -> (Result<CommandView, ParseError>, Seq<Frame>) {
    match read_first(parts, |f: Frame| string_of(f)) {
        Err(e) => (Err(e), after_read(parts)),
        Ok(key) => {
            let p2 = after_read(parts);
            match read_first(p2, |f: Frame| bytes_of(f)) {
                Err(e) => (Err(e), after_read(p2)),
                Ok(value) => {
                    let p3 = after_read(p2);
                    match read_first(p3, |f: Frame| string_of(f)) {
                        Err(ParseError::EndOfStream) => (
                            Ok(CommandView::SetCmd { key, value, expire: None }),
                            after_read(p3),
                        ),
                        Err(e) => (Err(e), after_read(p3)),
                        Ok(opt) => {
                            let p4 = after_read(p3);
                            let up = uppercase(opt);
                            if up == "EX"@ {
                                (
                                    match read_first(p4, |f: Frame| int_of(f)) {
                                        Ok(n) => Ok(CommandView::SetCmd { key, value, expire: Some(secs_to_millis(n)) }),
                                        Err(e) => Err(e),
                                    },
                                    after_read(p4),
                                )
                            } else if up == "PX"@ {
                                (
                                    match read_first(p4, |f: Frame| int_of(f)) {
                                        Ok(n) => Ok(CommandView::SetCmd { key, value, expire: Some(n) }),
                                        Err(e) => Err(e),
                                    },
                                    after_read(p4),
                                )
                            } else {
                                (Err(ParseError::Other(ProtocolError::UnsupportedSetOption)), p4)
                            }
                        },
                    }
                },
            }
        },
    }
}

impl View for SetCmd {
    type V = CommandView;

    open spec fn view(&self) -> CommandView {
        CommandView::SetCmd { key: self.key_view(), value: self.value_view(), expire: self.expire_view() }
    }
}

impl SetCmd {
    /// The key, as characters.
    pub closed spec fn key_view(&self) -> Seq<char> {
        self.key@
    }

    /// The value, as bytes.
    pub closed spec fn value_view(&self) -> Seq<u8> {
        bytes_view(self.value)
    }

    /// The expiry in milliseconds, if any.
    pub closed spec fn expire_view(&self) -> Option<u64> {
        self.expire
    }
}

impl SetCmd {
    /// A request to store `value` under `key`, to expire `expire`
    /// milliseconds after it is applied when given.
    pub fn new(key: &str, value: Bytes, expire: Option<u64>) -> (s: SetCmd)
        ensures
            s@ == (CommandView::SetCmd { key: key@, value: bytes_view(value), expire }),
    {
        SetCmd { key: key.to_owned(), value, expire }
    }

    /// The key to store under.
    pub fn key(&self) -> (k: &str)
        ensures
            self@->SetCmd_key == k@,
    {
        self.key.as_str()
    }

    /// The value to store.
    pub fn value(&self) -> (v: &Bytes)
        ensures
            self@->SetCmd_value == bytes_view(*v),
    {
        &self.value
    }

    /// The expiry, in milliseconds, if any.
    pub fn expire(&self) -> (e: Option<u64>)
        ensures
            self@->SetCmd_expire == e,
    {
        self.expire
    }

    /// Reads the arguments of `SET` (see `parse_set_spec`).
    pub fn parse_frames(parse: &mut Parse) -> (r: Result<SetCmd, ParseError>)
        ensures
            ({
                let (res, rest) = parse_set_spec(old(parse).remaining());
                &&& final(parse).remaining() == rest
                &&& match r {
                    Ok(s) => res == Ok::<CommandView, ParseError>(s@),
                    Err(e) => res == Err::<CommandView, ParseError>(e),
                }
            }),
    {
        let key = parse.next_string()?;
        let value = parse.next_bytes()?;
        let mut expire: Option<u64> = None;
        match parse.next_string() {
            Ok(s) => {
                let up = s.as_str().to_uppercase();
                if str_eq(up.as_str(), "EX") {
                    let secs = parse.next_int()?;
                    expire = Some(if secs <= u64::MAX / 1000 { secs * 1000 } else { u64::MAX });
                } else if str_eq(up.as_str(), "PX") {
                    let ms = parse.next_int()?;
                    expire = Some(ms);
                } else {
                    return Err(ParseError::Other(ProtocolError::UnsupportedSetOption));
                }
            },
            Err(ParseError::EndOfStream) => {},
            Err(err) => return Err(err),
        }
        Ok(SetCmd { key, value, expire })
    }

    /// The request as a frame: `["set", key, value]`, followed by
    /// `["px", milliseconds]` when there is an expiry, all as bulk frames.
    pub fn into_frame(self) -> (f: Frame)
        ensures
            f.view_frame() == command_frame_view(self@),
    {
        let ghost view = self@;
        let mut frame = Frame::array();
        let name = Bytes::copy_from_slice("set".as_bytes());
        let key = Bytes::copy_from_slice(self.key.as_str().as_bytes());
        let ghost (n, k, v) = (name, key, self.value);
        frame.push_bulk(name);
        frame.push_bulk(key);
        frame.push_bulk(self.value);
        match self.expire {
            Some(ms) => {
                let px = Bytes::copy_from_slice("px".as_bytes());
                let digits = decimal_bytes(ms);
                let num = Bytes::copy_from_slice(digits.as_slice());
                let ghost (p, d) = (px, num);
                frame.push_bulk(px);
                frame.push_bulk(num);
                proof {
                    assert(frame matches Frame::Array(w) && w@ =~= seq![
                        Frame::Bulk(n), Frame::Bulk(k), Frame::Bulk(v), Frame::Bulk(p), Frame::Bulk(d),
                    ]);
                    lemma_array_view(frame);
                    assert(bytes_view(n) == encode_utf8("set"@));
                    assert(bytes_view(p) == encode_utf8("px"@));
                    assert(bytes_view(d) == decimal(ms as nat));
                    let expected = seq![bulk_text("set"@), bulk_text(self.key@), FrameView::Bulk(bytes_view(v))]
                        + seq![bulk_text("px"@), FrameView::Bulk(decimal(ms as nat))];
                    assert(frame.view_frame() matches FrameView::Array(s) && s =~= expected);
                }
            },
            None => {
                proof {
                    assert(frame matches Frame::Array(w) && w@ =~= seq![Frame::Bulk(n), Frame::Bulk(k), Frame::Bulk(v)]);
                    lemma_array_view(frame);
                    assert(bytes_view(n) == encode_utf8("set"@));
                    let expected = seq![bulk_text("set"@), bulk_text(self.key@), FrameView::Bulk(bytes_view(v))]
                        + Seq::<FrameView>::empty();
                    assert(frame.view_frame() matches FrameView::Array(s) && s =~= expected);
                }
            },
        }
        frame
    }

    /// Stores the value; the expiry, if any, counts from `now`.
    pub fn apply_to_db(self, db: &mut Db, now: u64)
        requires
            old(db).wf(),
        ensures
            final(db).wf(),
            final(db).clock() == old(db).clock(),
            final(db)@ == old(db)@.insert(
                self@->SetCmd_key,
                EntryView { data: self@->SetCmd_value, expires_at: deadline(self@->SetCmd_expire, now) },
            ),
    {
        let expire = match self.expire {
            Some(d) => Some(now.saturating_add(if d <= u64::MAX / 1_000_000 { d * 1_000_000 } else { u64::MAX })),
            None => None,
        };
        db.set(self.key.as_str(), self.value, expire);
    }

    /// Stores the value and answers `OK`.
    pub fn apply(self, db: &mut Db, now: u64) -> (f: Frame)
        requires
            old(db).wf(),
        ensures
            final(db).wf(),
            final(db).clock() == old(db).clock(),
            (final(db)@, f.view_frame()) == execute_spec(self@, old(db)@, now),
    {
        self.apply_to_db(db, now);
        Frame::Simple("OK".to_owned())
    }
}

} // verus!
