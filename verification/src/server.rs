//! What the server does with one request frame read from a connection: the
//! request it makes, whether it goes to the log, and the reply.

use vstd::prelude::*;
use crate::cmd::{Command, Parsed, execute_spec, is_write_spec, parse_command_spec, parsed_as};
use crate::db::Db;
use crate::frame::Frame;
use crate::parse::ParseError;

verus! {

/// The outcome of serving one request.
pub struct Served {
    /// The frame to send back.
    pub reply: Frame,
    /// Whether the request changed the store, so that its raw bytes must be
    /// appended to the log.
    pub log: bool,
}

/// A request read from a frame, and whether it must be appended to the log
/// before it is applied.
pub struct Request {
    pub command: Command,
    /// Whether the request changes the store.
    pub log: bool,
}

/// Reads the request that `frame` makes and decides whether it goes to the
/// log. A frame that is no request is refused with the error that reading it
/// gave.
pub fn read_request(frame: Frame) -> (r: Result<Request, ParseError>)
    ensures
        match parse_command_spec(frame) {
            Parsed::Command(c) => r matches Ok(a) && a.command@ == c && a.log == is_write_spec(c),
            _ => r matches Err(e) && parsed_as(Err::<Command, ParseError>(e), parse_command_spec(frame)),
        },
{
    match Command::from_frame(frame) {
        Ok(command) => {
            let log = command.is_write();
            Ok(Request { command, log })
        },
        Err(e) => Err(e),
    }
}

/// Serves the request frame `frame` at `now`. A frame that is no request is
/// refused with the error that reading it gave, and the store is left as it
/// was; the connection is then closed by the caller.
pub fn serve_at(db: &mut Db, frame: Frame, now: u64) -> (r: Result<Served, ParseError>)
    requires
        old(db).wf(),
    ensures
        final(db).wf(),
        final(db).clock() == old(db).clock(),
        match parse_command_spec(frame) {
            Parsed::Command(c) => r matches Ok(s) && s.log == is_write_spec(c) && (final(db)@, s.reply.view_frame())
                == execute_spec(c, old(db)@, now),
            _ => r matches Err(e) && parsed_as(Err::<Command, ParseError>(e), parse_command_spec(frame))
                && final(db)@ == old(db)@,
        },
{
    match read_request(frame) {
        Ok(a) => {
            let reply = a.command.apply_at(db, now);
            Ok(Served { reply, log: a.log })
        },
        Err(e) => Err(e),
    }
}

/// Serves the request frame `frame` now, by the store's clock (see
/// `serve_at`).
pub fn serve(db: &mut Db, frame: Frame) -> (r: Result<Served, ParseError>)
    requires
        old(db).wf(),
    ensures
        final(db).wf(),
        final(db).clock() >= old(db).clock(),
        match parse_command_spec(frame) {
            Parsed::Command(c) => r matches Ok(s) && s.log == is_write_spec(c)
                && (final(db)@, s.reply.view_frame()) == execute_spec(c, old(db)@, final(db).clock()),
            _ => r is Err && final(db)@ == old(db)@,
        },
{
    let now = db.now_nanos();
    serve_at(db, frame, now)
}

} // verus!
