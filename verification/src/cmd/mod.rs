//! The commands of the server: reading them from request frames, and what
//! they do to the store.

mod del;
mod exists_cmd;
mod expire;
mod get;
mod meaning;
mod ping;
mod set;
mod ttl;

pub use del::Del;
pub use exists_cmd::Exists;
pub use expire::{Expire, parse_expire_spec};
pub use get::{Get, parse_get_spec};
pub use meaning::{command_of, lemma_command_meaning};
pub use ping::{Ping, parse_ping_spec};
pub use set::{SetCmd, parse_set_spec};
pub use ttl::{Ttl, parse_ttl_spec};

use vstd::prelude::*;
use vstd::utf8::{decode_utf8, decode_utf8_encode_utf8, encode_utf8, encode_utf8_decode_utf8, encode_utf8_valid_utf8, is_ascii_chars, valid_utf8};
use crate::db::{Db, EntryView, expired, live, purge, ttl_of};
use crate::frame::{Frame, FrameView, lemma_view_array, lemma_view_bulk};
use crate::parse::{Parse, ParseError, ProtocolError, after_read, bytes_of, int_of, read_first, string_of};
use crate::text::{ascii_lower_char, ascii_upper_char, decimal, lemma_atoi_decimal, lowercase, str_eq, uppercase};

verus! {

/// The content of a request.
pub enum CommandView {
    Get { key: Seq<char> },
    SetCmd { key: Seq<char>, value: Seq<u8>, expire: Option<u64> },
    Del { keys: Seq<Seq<char>> },
    Exists { keys: Seq<Seq<char>> },
    Ping { msg: Option<Seq<u8>> },
    Ttl { key: Seq<char> },
    Expire { key: Seq<char>, seconds: u64 },
}

/// A bulk frame holding the UTF-8 encoding of `s`.
pub open spec fn bulk_text(s: Seq<char>) -> FrameView {
    FrameView::Bulk(encode_utf8(s))
}

/// The frame by which a client sends a request: the lower-case command name
/// and the arguments, each as a bulk frame. An expiry is sent as `px` and a
/// count of milliseconds. (Only `GET`, `SET`, `DEL` and `PING` are ever sent;
/// the other requests have no frame here and map to `Null`.)
pub open spec fn command_frame_view(c: CommandView) -> FrameView {
    match c {
        CommandView::Get { key } => FrameView::Array(seq![bulk_text("get"@), bulk_text(key)]),
        CommandView::SetCmd { key, value, expire } => FrameView::Array(
            seq![bulk_text("set"@), bulk_text(key), FrameView::Bulk(value)] + match expire {
                Some(ms) => seq![bulk_text("px"@), FrameView::Bulk(decimal(ms as nat))],
                None => Seq::<FrameView>::empty(),
            },
        ),
        CommandView::Del { keys } => FrameView::Array(
            seq![bulk_text("del"@)] + keys.map_values(|k: Seq<char>| bulk_text(k)),
        ),
        CommandView::Ping { msg } => FrameView::Array(
            seq![bulk_text("ping"@)] + match msg {
                Some(m) => seq![FrameView::Bulk(m)],
                None => Seq::<FrameView>::empty(),
            },
        ),
        _ => FrameView::Null,
    }
}

/// `a + b`, or `u64::MAX` when the sum does not fit.
pub open spec fn sat_add(a: u64, b: u64) -> u64 {
    if a + b > u64::MAX { u64::MAX } else { (a + b) as u64 }
}

/// A number of seconds in milliseconds, or `u64::MAX` when that does not fit.
pub open spec fn secs_to_millis(secs: u64) -> u64 {
    if secs <= u64::MAX / 1000 { (secs * 1000) as u64 } else { u64::MAX }
}

/// A number of milliseconds in nanoseconds, or `u64::MAX` when that does not
/// fit.
pub open spec fn millis_to_nanos(ms: u64) -> u64 {
    if ms <= u64::MAX / 1_000_000 { (ms * 1_000_000) as u64 } else { u64::MAX }
}

/// A number of seconds in nanoseconds, or `u64::MAX` when that does not fit.
pub open spec fn secs_to_nanos(secs: u64) -> u64 {
    if secs <= u64::MAX / 1_000_000_000 { (secs * 1_000_000_000) as u64 } else { u64::MAX }
}

/// The expiry time, in nanoseconds on the store's clock, of a value stored at
/// `now` with the expiry `expire` (in milliseconds from then).
pub open spec fn deadline(expire: Option<u64>, now: u64) -> Option<u64> {
    match expire {
        Some(d) => Some(sat_add(now, millis_to_nanos(d))),
        None => None,
    }
}

/// Removing `keys` from `m` one after the other: the store left, and how many
/// of them were there when their turn came.
pub open spec fn del_keys(m: Map<Seq<char>, EntryView>, keys: Seq<Seq<char>>) -> (Map<Seq<char>, EntryView>, nat)
    decreases keys.len(),
{
    if keys.len() == 0 {
        (m, 0)
    } else {
        let (m2, c) = del_keys(m.remove(keys[0]), keys.drop_first());
        (m2, c + if m.contains_key(keys[0]) { 1nat } else { 0nat })
    }
}

/// Checking `keys` in `m` one after the other at `now`: the store left (with
/// the expired entries met dropped), and how many were live.
pub open spec fn exists_keys(m: Map<Seq<char>, EntryView>, keys: Seq<Seq<char>>, now: u64) -> (Map<Seq<char>, EntryView>, nat)
    decreases keys.len(),
{
    if keys.len() == 0 {
        (m, 0)
    } else {
        let (m2, c) = exists_keys(purge(m, keys[0], now), keys.drop_first(), now);
        (m2, c + if live(m, keys[0], now) is Some { 1nat } else { 0nat })
    }
}

/// What a request does at `now` to the store `m`, and the frame it answers
/// with.
pub open spec fn execute_spec(c: CommandView, m: Map<Seq<char>, EntryView>, now: u64) -> (Map<Seq<char>, EntryView>, FrameView) {
    match c {
        CommandView::Get { key } => (
            purge(m, key, now),
            match live(m, key, now) {
                Some(e) => FrameView::Bulk(e.data),
                None => FrameView::Null,
            },
        ),
        CommandView::SetCmd { key, value, expire } => (
            m.insert(key, EntryView { data: value, expires_at: deadline(expire, now) }),
            FrameView::Simple("OK"@),
        ),
        CommandView::Del { keys } => {
            let (m2, n) = del_keys(m, keys);
            (m2, FrameView::Integer(n as u64))
        },
        CommandView::Exists { keys } => {
            let (m2, n) = exists_keys(m, keys, now);
            (m2, FrameView::Integer(n as u64))
        },
        CommandView::Ping { msg } => (
            m,
            match msg {
                Some(b) => FrameView::Bulk(b),
                None => FrameView::Simple("PONG"@),
            },
        ),
        CommandView::Ttl { key } => (
            purge(m, key, now),
            FrameView::Integer(
                match ttl_of(m, key, now) {
                    Some(ns) => ns / 1_000_000_000,
                    None => 0,
                },
            ),
        ),
        CommandView::Expire { key, seconds } => {
            let at = sat_add(now, secs_to_nanos(seconds));
            match live(m, key, now) {
                Some(e) => (m.insert(key, EntryView { data: e.data, expires_at: Some(at) }), FrameView::Integer(1)),
                None => (purge(m, key, now), FrameView::Integer(0)),
            }
        },
    }
}

/// The requests that change the store, and so are logged.
pub open spec fn is_write_spec(c: CommandView) -> bool {
    c is SetCmd || c is Del || c is Expire
}

/// What replaying a logged request at `now` does to the store: a write does
/// what it did when served; any other request does nothing.
pub open spec fn replay_spec(c: CommandView, m: Map<Seq<char>, EntryView>, now: u64) -> Map<Seq<char>, EntryView> {
    if is_write_spec(c) {
        execute_spec(c, m, now).0
    } else {
        m
    }
}

/// What reading keys up to the end of the request from `parts` gives, and the
/// parts left.
pub open spec fn parse_keys_spec(parts: Seq<Frame>) -> (Result<Seq<Seq<char>>, ParseError>, Seq<Frame>)
    decreases parts.len(),
{
    if parts.len() == 0 {
        (Ok(Seq::empty()), parts)
    } else {
        match string_of(parts[0]) {
            Err(e) => (Err(e), parts.drop_first()),
            Ok(k) => {
                let (r, rest) = parse_keys_spec(parts.drop_first());
                (
                    match r {
                        Ok(ks) => Ok(seq![k] + ks),
                        Err(e) => Err(e),
                    },
                    rest,
                )
            },
        }
    }
}

/// Reads strings up to the end of the request.
pub fn read_keys(parse: &mut Parse) -> (r: Result<Vec<String>, ParseError>)
    ensures
        ({
            let (res, rest) = parse_keys_spec(old(parse).remaining());
            &&& final(parse).remaining() == rest
            &&& match r {
                Ok(v) => res == Ok::<Seq<Seq<char>>, ParseError>(v@.map_values(|k: String| k@)),
                Err(e) => res == Err::<Seq<Seq<char>>, ParseError>(e),
            }
        }),
{
    let ghost orig = parse.remaining();
    let mut keys: Vec<String> = Vec::new();
    let mut failed: Option<ParseError> = None;
    loop
        invariant_except_break
            failed is None,
            parse_keys_spec(orig) == ({
                let (r, rest) = parse_keys_spec(parse.remaining());
                (
                    match r {
                        Ok(ks) => Ok(keys@.map_values(|k: String| k@) + ks),
                        Err(e) => Err(e),
                    },
                    rest,
                )
            }),
        ensures
            parse_keys_spec(orig) == (
                match failed {
                    Some(e) => Err::<Seq<Seq<char>>, ParseError>(e),
                    None => Ok::<Seq<Seq<char>>, ParseError>(keys@.map_values(|k: String| k@)),
                },
                parse.remaining(),
            ),
        decreases parse.remaining().len(),
    {
        let ghost before = parse.remaining();
        let ghost done = keys@.map_values(|k: String| k@);
        match parse.next_string() {
            Ok(key) => {
                keys.push(key);
                proof {
                    assert(keys@.map_values(|k: String| k@) =~= done.push(key@));
                    let (r, rest) = parse_keys_spec(parse.remaining());
                    if let Ok(ks) = r {
                        assert(done + (seq![key@] + ks) =~= done.push(key@) + ks);
                    }
                }
            },
            Err(ParseError::EndOfStream) => {
                proof {
                    assert(done + Seq::<Seq<char>>::empty() =~= done);
                }
                break;
            },
            Err(err) => {
                proof {
                    assert(before.len() > 0);
                    assert(parse_keys_spec(before) == (Err::<Seq<Seq<char>>, ParseError>(err), before.drop_first()));
                }
                failed = Some(err);
                break;
            },
        }
    }
    match failed {
        Some(e) => Err(e),
        None => Ok(keys),
    }
}

/// A request.
#[derive(Debug)]
pub enum Command {
    Get(Get),
    SetCmd(SetCmd),
    Del(Del),
    Exists(Exists),
    Ping(Ping),
    Ttl(Ttl),
    Expire(Expire),
}

impl View for Command {
    type V = CommandView;

    open spec fn view(&self) -> CommandView {
        match self {
            Command::Get(c) => c@,
            Command::SetCmd(c) => c@,
            Command::Del(c) => c@,
            Command::Exists(c) => c@,
            Command::Ping(c) => c@,
            Command::Ttl(c) => c@,
            Command::Expire(c) => c@,
        }
    }
}

/// How reading a request ends.
pub enum Parsed {
    Command(CommandView),
    Failed(ParseError),
    /// The command name, in lower case, is not known.
    Unknown(Seq<char>),
}

/// What reading the arguments of the command `name` (in lower case) from
/// `parts` gives and the parts left, or `None` for an unknown name.
pub open spec fn dispatch_spec(name: Seq<char>, parts: Seq<Frame>) -> Option<(Result<CommandView, ParseError>, Seq<Frame>)> {
    if name == "get"@ {
        Some(parse_get_spec(parts))
    } else if name == "set"@ {
        Some(parse_set_spec(parts))
    } else if name == "del"@ {
        let (r, rest) = parse_keys_spec(parts);
        Some((
            match r {
                Ok(ks) => Ok(CommandView::Del { keys: ks }),
                Err(e) => Err(e),
            },
            rest,
        ))
    } else if name == "ping"@ {
        Some(parse_ping_spec(parts))
    } else if name == "exists"@ {
        let (r, rest) = parse_keys_spec(parts);
        Some((
            match r {
                Ok(ks) => Ok(CommandView::Exists { keys: ks }),
                Err(e) => Err(e),
            },
            rest,
        ))
    } else if name == "ttl"@ {
        Some(parse_ttl_spec(parts))
    } else if name == "expire"@ {
        Some(parse_expire_spec(parts))
    } else {
        None
    }
}

/// What reading a request from `frame` gives: the frame must be an array
/// whose first part names the command (in any case, as Unicode lowercasing
/// maps it), whose next parts are its arguments, and that has nothing more.
pub open spec fn parse_command_spec(frame: Frame) -> Parsed {
    match frame {
        Frame::Array(v) => match read_first(v@, |f: Frame| string_of(f)) {
            Err(e) => Parsed::Failed(e),
            Ok(name) => match dispatch_spec(lowercase(name), after_read(v@)) {
                None => Parsed::Unknown(lowercase(name)),
                Some((Err(e), _)) => Parsed::Failed(e),
                Some((Ok(c), rest)) => if rest.len() == 0 {
                    Parsed::Command(c)
                } else {
                    Parsed::Failed(ParseError::Other(ProtocolError::ExpectedEnd))
                },
            },
        },
        _ => Parsed::Failed(ParseError::Other(ProtocolError::ExpectedArray(frame))),
    }
}

/// An executable result of reading a request agrees with the specified one.
pub open spec fn parsed_as(r: Result<Command, ParseError>, p: Parsed) -> bool {
    match p {
        Parsed::Command(c) => r matches Ok(cmd) && cmd@ == c,
        Parsed::Failed(e) => r == Err::<Command, ParseError>(e),
        Parsed::Unknown(name) => r matches Err(ParseError::Other(ProtocolError::UnknownCommand(s))) && s@ == name,
    }
}

impl Command {
    /// Reads a request from a frame (see `parse_command_spec`).
    pub fn from_frame(frame: Frame) -> (r: Result<Command, ParseError>)
        ensures
            parsed_as(r, parse_command_spec(frame)),
    {
        let ghost f = frame;
        let mut parse = Parse::new(frame)?;
        let first = parse.next_string()?;
        let command_name = first.as_str().to_lowercase();
        let command = if str_eq(command_name.as_str(), "get") {
            Command::Get(Get::parse_frames(&mut parse)?)
        } else if str_eq(command_name.as_str(), "set") {
            Command::SetCmd(SetCmd::parse_frames(&mut parse)?)
        } else if str_eq(command_name.as_str(), "del") {
            Command::Del(Del::parse_frames(&mut parse)?)
        } else if str_eq(command_name.as_str(), "ping") {
            Command::Ping(Ping::parse_frames(&mut parse)?)
        } else if str_eq(command_name.as_str(), "exists") {
            Command::Exists(Exists::parse_frames(&mut parse)?)
        } else if str_eq(command_name.as_str(), "ttl") {
            Command::Ttl(Ttl::parse_frames(&mut parse)?)
        } else if str_eq(command_name.as_str(), "expire") {
            Command::Expire(Expire::parse_frames(&mut parse)?)
        } else {
            return Err(ParseError::Other(ProtocolError::UnknownCommand(command_name)));
        };
        parse.finish()?;
        Ok(command)
    }

    /// Serves the request at `now`: changes the store and gives the answer
    /// (see `execute_spec`).
    pub fn apply_at(self, db: &mut Db, now: u64) -> (f: Frame)
        requires
            old(db).wf(),
        ensures
            final(db).wf(),
            final(db).clock() == old(db).clock(),
            (final(db)@, f.view_frame()) == execute_spec(self@, old(db)@, now),
    {
        match self {
            Command::Del(cmd) => cmd.apply(db, now),
            Command::Exists(cmd) => cmd.apply(db, now),
            Command::Get(cmd) => cmd.apply(db, now),
            Command::Ping(cmd) => cmd.apply(db, now),
            Command::SetCmd(cmd) => cmd.apply(db, now),
            Command::Ttl(cmd) => cmd.apply(db, now),
            Command::Expire(cmd) => cmd.apply(db, now),
        }
    }

    /// Serves the request now, at the store's next clock reading.
    pub fn apply(self, db: &mut Db) -> (f: Frame)
        requires
            old(db).wf(),
        ensures
            final(db).wf(),
            final(db).clock() >= old(db).clock(),
            (final(db)@, f.view_frame()) == execute_spec(self@, old(db)@, final(db).clock()),
    {
        let now = db.now_nanos();
        self.apply_at(db, now)
    }

    /// Replays a logged request at `now`: a write is applied, anything else
    /// is skipped.
    pub fn apply_to_db(self, db: &mut Db, now: u64) -> (r: Result<(), ParseError>)
        requires
            old(db).wf(),
        ensures
            final(db).wf(),
            final(db).clock() == old(db).clock(),
            r is Ok,
            final(db)@ == replay_spec(self@, old(db)@, now),
    {
        match self {
            Command::Del(cmd) => {
                let _ = cmd.apply_to_db(db);
            },
            Command::Expire(cmd) => {
                let _ = cmd.apply_to_db(db, now);
            },
            Command::SetCmd(cmd) => {
                cmd.apply_to_db(db, now);
            },
            _ => {},
        }
        Ok(())
    }

    /// Whether the request changes the store.
    pub fn is_write(&self) -> (r: bool)
        ensures
            r == is_write_spec(self@),
    {
        match self {
            Command::SetCmd(_) | Command::Del(_) | Command::Expire(_) => true,
            _ => false,
        }
    }
}

/// A part sent as the bulk encoding of `s` reads back as `s`, as text or as
/// bytes.
proof fn lemma_text_part(f: Frame, s: Seq<char>)
    requires
        f.view_frame() == bulk_text(s),
    ensures
        string_of(f) == Ok::<Seq<char>, ParseError>(s),
        bytes_of(f) == Ok::<Seq<u8>, ParseError>(encode_utf8(s)),
{
    broadcast use encode_utf8_decode_utf8, encode_utf8_valid_utf8;
    lemma_view_bulk(f, encode_utf8(s));
}

/// Parts sent as the bulk encodings of `keys` read back as `keys`.
proof fn lemma_keys_parts(parts: Seq<Frame>, keys: Seq<Seq<char>>)
    requires
        parts.len() == keys.len(),
        forall|i: int| 0 <= i < parts.len() ==> #[trigger] parts[i].view_frame() == bulk_text(keys[i]),
    ensures
        parse_keys_spec(parts).0 == Ok::<Seq<Seq<char>>, ParseError>(keys),
        parse_keys_spec(parts).1.len() == 0,
    decreases parts.len(),
{
    if parts.len() > 0 {
        lemma_text_part(parts[0], keys[0]);
        let tail = parts.drop_first();
        assert forall|i: int| 0 <= i < tail.len() implies #[trigger] tail[i].view_frame() == bulk_text(keys.drop_first()[i]) by {
            assert(tail[i] == parts[i + 1]);
        }
        lemma_keys_parts(tail, keys.drop_first());
        assert(seq![keys[0]] + keys.drop_first() =~= keys);
    } else {
        assert(keys =~= Seq::<Seq<char>>::empty());
    }
}

/// A word of lower-case ASCII letters is its own lower-case form.
proof fn lemma_lower_word(s: Seq<char>)
    requires
        forall|i: int| 0 <= i < s.len() ==> 'a' <= #[trigger] s[i] <= 'z',
    ensures
        lowercase(s) == s,
{
    assert(is_ascii_chars(s));
    assert(s.map_values(|c: char| ascii_lower_char(c)) =~= s);
}

/// Law: a request sent as `command_frame_view` describes it reads back as the
/// same request. Every `GET`, `SET` and `DEL` does; a `PING` does when its
/// message is UTF-8 (a message that is not is refused as a string).
pub proof fn law_command_roundtrip(c: CommandView, f: Frame)
    requires
        f.view_frame() == command_frame_view(c),
        c is Get || c is SetCmd || c is Del || c is Ping,
        c matches CommandView::Ping { msg } ==> (msg matches Some(m) ==> valid_utf8(m)),
    ensures
        parse_command_spec(f) == Parsed::Command(c),
{
    broadcast use encode_utf8_decode_utf8, encode_utf8_valid_utf8;

    reveal_strlit("get");
    reveal_strlit("set");
    reveal_strlit("del");
    reveal_strlit("ping");
    reveal_strlit("exists");
    reveal_strlit("ttl");
    reveal_strlit("expire");
    reveal_strlit("px");
    reveal_strlit("PX");
    reveal_strlit("EX");
    let items = command_frame_view(c)->Array_0;
    lemma_view_array(f, items);
    let v = f->Array_0;
    let parts = v@;
    let rest = after_read(parts);
    assert(rest.len() == parts.len() - 1);
    assert(forall|i: int| 0 <= i < rest.len() ==> #[trigger] rest[i] == parts[i + 1]);
    match c {
        CommandView::Get { key } => {
            lemma_text_part(parts[0], "get"@);
            lemma_lower_word("get"@);
            lemma_text_part(parts[1], key);
            assert(after_read(rest).len() == 0);
        },
        CommandView::SetCmd { key, value, expire } => {
            lemma_text_part(parts[0], "set"@);
            lemma_lower_word("set"@);
            assert("set"@ != "get"@);
            lemma_text_part(parts[1], key);
            lemma_view_bulk(parts[2], value);
            let p3 = after_read(after_read(rest));
            match expire {
                Some(ms) => {
                    lemma_text_part(parts[3], "px"@);
                    assert(is_ascii_chars("px"@));
                    assert("px"@.map_values(|ch: char| ascii_upper_char(ch)) =~= "PX"@);
                    assert(uppercase("px"@) == "PX"@);
                    assert("PX"@[0] != "EX"@[0]);
                    assert("PX"@ != "EX"@);
                    lemma_view_bulk(parts[4], decimal(ms as nat));
                    lemma_atoi_decimal(ms, Seq::empty());
                    assert(decimal(ms as nat) + Seq::<u8>::empty() =~= decimal(ms as nat));
                    assert(int_of(parts[4]) == Ok::<u64, ParseError>(ms));
                    assert(after_read(after_read(p3)).len() == 0);
                },
                None => {
                    assert(p3.len() == 0);
                },
            }
        },
        CommandView::Del { keys } => {
            lemma_text_part(parts[0], "del"@);
            lemma_lower_word("del"@);
            assert("del"@ != "get"@);
            assert("del"@ != "set"@);
            lemma_keys_parts(rest, keys);
        },
        CommandView::Ping { msg } => {
            lemma_text_part(parts[0], "ping"@);
            lemma_lower_word("ping"@);
            assert("ping"@ != "get"@);
            assert("ping"@ != "set"@);
            assert("ping"@ != "del"@);
            match msg {
                Some(m) => {
                    lemma_view_bulk(parts[1], m);
                    decode_utf8_encode_utf8(m);
                    assert(string_of(parts[1]) == Ok::<Seq<char>, ParseError>(decode_utf8(m)));
                    assert(after_read(rest).len() == 0);
                },
                None => {
                    assert(rest.len() == 0);
                },
            }
        },
        _ => {},
    }
}

/// Law: serving `SET key value` with no expiry option stores `value` under
/// `key` with no expiry time, whatever the key held before (value or
/// expiry), leaves every other key as it was, and answers `OK`; with `PX ms`
/// (or `EX s`, read as `s * 1000` milliseconds) the new expiry time is `ms`
/// milliseconds after `now`, in place of any old one.
pub proof fn law_set_replaces_value_and_expiry(
    m: Map<Seq<char>, EntryView>,
    key: Seq<char>,
    value: Seq<u8>,
    expire: Option<u64>,
    now: u64,
    m2: Map<Seq<char>, EntryView>,
    reply: FrameView,
)
    requires
        (m2, reply) == execute_spec(CommandView::SetCmd { key, value, expire }, m, now),
    ensures
        reply == FrameView::Simple("OK"@),
        m2.contains_key(key),
        m2[key].data == value,
        expire is None ==> m2[key].expires_at is None,
        expire matches Some(ms) ==> (now + ms * 1_000_000 <= u64::MAX
            ==> m2[key].expires_at == Some((now + ms * 1_000_000) as u64)),
        forall|k: Seq<char>| k != key ==> (#[trigger] m2.contains_key(k) == m.contains_key(k)
            && (m.contains_key(k) ==> m2[k] == m[k])),
{
    if let Some(ms) = expire {
        if now + ms * 1_000_000 <= u64::MAX {
            assert(ms <= u64::MAX / 1_000_000) by (nonlinear_arith)
                requires now + ms * 1_000_000 <= u64::MAX;
        }
    }
}

/// Law: serving `EXPIRE key n` on a key that is live at `now` answers 1 and
/// gives the key the expiry time `now` plus `n` seconds, whether it had an
/// expiry time before or not, keeping its value; on a key that is not live it
/// answers 0 and the key holds nothing afterwards. No other key changes.
pub proof fn law_expire_sets_deadline(
    m: Map<Seq<char>, EntryView>,
    key: Seq<char>,
    n: u64,
    now: u64,
    m2: Map<Seq<char>, EntryView>,
    reply: FrameView,
)
    requires
        (m2, reply) == execute_spec(CommandView::Expire { key, seconds: n }, m, now),
    ensures
        live(m, key, now) is Some ==> {
            &&& reply == FrameView::Integer(1)
            &&& m2.contains_key(key)
            &&& m2[key].data == m[key].data
            &&& now + n * 1_000_000_000 <= u64::MAX ==> m2[key].expires_at == Some((now + n * 1_000_000_000) as u64)
        },
        live(m, key, now) is None ==> reply == FrameView::Integer(0) && live(m2, key, now) is None,
        forall|k: Seq<char>| k != key ==> (#[trigger] m2.contains_key(k) == m.contains_key(k)
            && (m.contains_key(k) ==> m2[k] == m[k])),
{
    if now + n * 1_000_000_000 <= u64::MAX {
        assert(n <= u64::MAX / 1_000_000_000) by (nonlinear_arith)
            requires now + n * 1_000_000_000 <= u64::MAX;
    }
}

/// Law: serving `TTL key` at `now` on a live key whose expiry time is `t`
/// answers the whole seconds from `now` to `t`, however many they are; on a
/// key with no expiry time, or not live, it answers 0. It changes nothing
/// that a read at `now` sees.
pub proof fn law_ttl_whole_seconds_left(
    m: Map<Seq<char>, EntryView>,
    key: Seq<char>,
    now: u64,
    m2: Map<Seq<char>, EntryView>,
    reply: FrameView,
)
    requires
        (m2, reply) == execute_spec(CommandView::Ttl { key }, m, now),
    ensures
        live(m, key, now) matches Some(e) ==> (e.expires_at matches Some(t)
            ==> now < t && reply == FrameView::Integer(((t - now) / 1_000_000_000) as u64)),
        live(m, key, now) matches Some(e) ==> (e.expires_at is None ==> reply == FrameView::Integer(0)),
        live(m, key, now) is None ==> reply == FrameView::Integer(0),
        forall|k: Seq<char>| #[trigger] live(m2, k, now) == live(m, k, now),
{
}

proof fn lemma_to_set_prepend(keys: Seq<Seq<char>>)
    requires
        keys.len() > 0,
    ensures
        keys.to_set() == keys.drop_first().to_set().insert(keys[0]),
{
    assert forall|k: Seq<char>| keys.to_set().contains(k) <==> #[trigger] keys.drop_first().to_set().insert(keys[0]).contains(k) by {
        if keys.contains(k) && k != keys[0] {
            let i = choose|i: int| 0 <= i < keys.len() && keys[i] == k;
            assert(keys.drop_first()[i - 1] == k);
        }
        if keys.drop_first().contains(k) {
            let i = choose|i: int| 0 <= i < keys.drop_first().len() && keys.drop_first()[i] == k;
            assert(keys[i + 1] == k);
        }
        if k == keys[0] {
            assert(keys[0] == k);
        }
    }
    assert(keys.to_set() =~= keys.drop_first().to_set().insert(keys[0]));
}

proof fn lemma_del_keys_effect(m: Map<Seq<char>, EntryView>, keys: Seq<Seq<char>>)
    ensures
        del_keys(m, keys).0 == m.remove_keys(keys.to_set()),
        del_keys(m, keys).1 == keys.to_set().intersect(m.dom()).len(),
    decreases keys.len(),
{
    broadcast use vstd::set::group_set_axioms, vstd::set_lib::group_set_properties, vstd::seq_lib::group_seq_properties;

    if keys.len() == 0 {
        assert(keys.to_set() =~= Set::<Seq<char>>::empty());
        assert(m.remove_keys(keys.to_set()) =~= m);
        assert(keys.to_set().intersect(m.dom()) =~= Set::<Seq<char>>::empty());
    } else {
        let k0 = keys[0];
        let rest = keys.drop_first();
        let m1 = m.remove(k0);
        lemma_del_keys_effect(m1, rest);
        lemma_to_set_prepend(keys);
        assert(m1.remove_keys(rest.to_set()) =~= m.remove_keys(keys.to_set()));
        let s = keys.to_set().intersect(m.dom());
        assert(rest.to_set().intersect(m1.dom()) =~= s.remove(k0));
        vstd::seq_lib::seq_to_set_is_finite(keys);
        assert(s.finite());
        vstd::set::axiom_set_remove_len(s, k0);
    }
}

/// Law: serving `DEL k1 .. kn` removes every one of the keys and nothing
/// else, and answers how many distinct keys among them were stored before
/// (expired or not).
pub proof fn law_del_removes_and_counts(
    m: Map<Seq<char>, EntryView>,
    keys: Seq<Seq<char>>,
    now: u64,
    m2: Map<Seq<char>, EntryView>,
    reply: FrameView,
)
    requires
        (m2, reply) == execute_spec(CommandView::Del { keys }, m, now),
    ensures
        forall|i: int| 0 <= i < keys.len() ==> !m2.contains_key(#[trigger] keys[i]),
        forall|k: Seq<char>| !keys.contains(k) ==> (#[trigger] m2.contains_key(k) == m.contains_key(k)
            && (m.contains_key(k) ==> m2[k] == m[k])),
        keys.to_set().intersect(m.dom()).len() <= u64::MAX ==>
            reply == FrameView::Integer(keys.to_set().intersect(m.dom()).len() as u64),
{
    lemma_del_keys_effect(m, keys);
    assert forall|i: int| 0 <= i < keys.len() implies !m2.contains_key(#[trigger] keys[i]) by {
        assert(keys.contains(keys[i]));
        assert(keys.to_set().contains(keys[i]));
    }
}

proof fn lemma_exists_keys_count(m: Map<Seq<char>, EntryView>, keys: Seq<Seq<char>>, now: u64)
    ensures
        exists_keys(m, keys, now).1 == keys.filter(|k: Seq<char>| live(m, k, now) is Some).len(),
        forall|k: Seq<char>| #[trigger] live(exists_keys(m, keys, now).0, k, now) == live(m, k, now),
    decreases keys.len(),
{
    if keys.len() > 0 {
        let k0 = keys[0];
        let rest = keys.drop_first();
        let m1 = purge(m, k0, now);
        lemma_exists_keys_count(m1, rest, now);
        let p = |k: Seq<char>| live(m, k, now) is Some;
        let p1 = |k: Seq<char>| live(m1, k, now) is Some;
        assert forall|k: Seq<char>| #[trigger] live(m1, k, now) == live(m, k, now) by {}
        assert(p1 =~= p);
        assert(keys =~= seq![k0] + rest);
        rest.lemma_filter_prepend(k0, p);
        assert(keys.filter(p).len() == (if p(k0) { 1int } else { 0 }) + rest.filter(p).len());
    }
}

/// Law: serving `EXISTS k1 .. kn` at `now` answers the number of positions
/// at which the key is live at `now`, each key being checked (a key named
/// twice counts twice), and changes nothing that a read at `now` sees.
pub proof fn law_exists_counts_live_keys(
    m: Map<Seq<char>, EntryView>,
    keys: Seq<Seq<char>>,
    now: u64,
    m2: Map<Seq<char>, EntryView>,
    reply: FrameView,
)
    requires
        (m2, reply) == execute_spec(CommandView::Exists { keys }, m, now),
    ensures
        keys.filter(|k: Seq<char>| live(m, k, now) is Some).len() <= u64::MAX ==>
            reply == FrameView::Integer(keys.filter(|k: Seq<char>| live(m, k, now) is Some).len() as u64),
        forall|k: Seq<char>| #[trigger] live(m2, k, now) == live(m, k, now),
{
    lemma_exists_keys_count(m, keys, now);
}

/// Law: serving `GET key` at `now` answers the value stored under `key` when
/// that entry is live at `now`, and null when there is none or it has
/// expired; it drops only an expired entry for `key`, so nothing that a read
/// at `now` sees changes.
pub proof fn law_get_reads_live_value(
    m: Map<Seq<char>, EntryView>,
    key: Seq<char>,
    now: u64,
    m2: Map<Seq<char>, EntryView>,
    reply: FrameView,
)
    requires
        (m2, reply) == execute_spec(CommandView::Get { key }, m, now),
    ensures
        m.contains_key(key) && !expired(m[key], now) ==> reply == FrameView::Bulk(m[key].data),
        !(m.contains_key(key) && !expired(m[key], now)) ==> reply == FrameView::Null,
        forall|k: Seq<char>| k != key ==> (#[trigger] m2.contains_key(k) == m.contains_key(k)
            && (m.contains_key(k) ==> m2[k] == m[k])),
        forall|k: Seq<char>| #[trigger] live(m2, k, now) == live(m, k, now),
{
}

/// Law: serving `PING` answers `PONG`, and `PING msg` answers `msg`; the
/// store is left as it was.
pub proof fn law_ping_echoes(
    m: Map<Seq<char>, EntryView>,
    msg: Option<Seq<u8>>,
    now: u64,
    m2: Map<Seq<char>, EntryView>,
    reply: FrameView,
)
    requires
        (m2, reply) == execute_spec(CommandView::Ping { msg }, m, now),
    ensures
        m2 == m,
        msg is None ==> reply == FrameView::Simple("PONG"@),
        msg matches Some(b) ==> reply == FrameView::Bulk(b),
{
}

} // verus!
