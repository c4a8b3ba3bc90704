//! Reading the parts of a command frame one at a time.

use bytes::Bytes;
use vstd::prelude::*;
use vstd::utf8::{decode_utf8, encode_utf8, valid_utf8};
use crate::bytebuf::bytes_view;
use crate::frame::Frame;
use crate::text::{atoi_u64, parse_u64_prefix};

verus! {

/// Why a frame could not be read as the request it should be.
#[derive(Debug)]
pub enum ProtocolError {
    /// A request must be an array; this frame is not one.
    ExpectedArray(Frame),
    /// A bulk frame whose bytes are not UTF-8 where a string was expected.
    InvalidString,
    /// A frame that is neither simple nor bulk where a string was expected.
    ExpectedString(Frame),
    /// A simple or bulk frame that does not start with a number.
    InvalidNumber,
    /// A frame that cannot hold a number where one was expected.
    ExpectedInt(Frame),
    /// The request has more parts than its command takes.
    ExpectedEnd,
    /// The command name (lowered) is not one this server knows.
    UnknownCommand(String),
    /// `SET` was given an option other than `EX` or `PX`.
    UnsupportedSetOption,
}

/// The outcome of a failed read.
#[derive(Debug)]
pub enum ParseError {
    /// The frame has no more parts.
    EndOfStream,
    Other(ProtocolError),
}

/// The parts of an array frame that are still to be read.
pub struct Parse {
    parts: Vec<Frame>,
}

/// What reading a string from `f` gives.
pub open spec fn string_of(f: Frame) -> Result<Seq<char>, ParseError> {
    match f {
        Frame::Simple(s) => Ok(s@),
        Frame::Bulk(b) => if valid_utf8(bytes_view(b)) {
            Ok(decode_utf8(bytes_view(b)))
        } else {
            Err(ParseError::Other(ProtocolError::InvalidString))
        },
        _ => Err(ParseError::Other(ProtocolError::ExpectedString(f))),
    }
}

/// What reading raw bytes from `f` gives.
pub open spec fn bytes_of(f: Frame) -> Result<Seq<u8>, ParseError> {
    match f {
        Frame::Simple(s) => Ok(encode_utf8(s@)),
        Frame::Bulk(b) => Ok(bytes_view(b)),
        _ => Err(ParseError::Other(ProtocolError::ExpectedString(f))),
    }
}

/// What reading a number from `f` gives.
pub open spec fn int_of(f: Frame) -> Result<u64, ParseError> {
    match f {
        Frame::Integer(v) => Ok(v),
        Frame::Simple(s) => match atoi_u64(encode_utf8(s@)) {
            Some(v) => Ok(v),
            None => Err(ParseError::Other(ProtocolError::InvalidNumber)),
        },
        Frame::Bulk(b) => match atoi_u64(bytes_view(b)) {
            Some(v) => Ok(v),
            None => Err(ParseError::Other(ProtocolError::InvalidNumber)),
        },
        _ => Err(ParseError::Other(ProtocolError::ExpectedInt(f))),
    }
}

/// Reading from the parts `parts`: `EndOfStream` when none is left, else what
/// `read` makes of the first.
pub open spec fn read_first<T>(parts: Seq<Frame>, read: spec_fn(Frame) -> Result<T, ParseError>) -> Result<T, ParseError> {
    if parts.len() == 0 {
        Err(ParseError::EndOfStream)
    } else {
        read(parts[0])
    }
}

/// The parts left after one read: a read consumes a part whenever there is one.
pub open spec fn after_read(parts: Seq<Frame>) -> Seq<Frame> {
    if parts.len() == 0 {
        parts
    } else {
        parts.drop_first()
    }
}

/// An executable string result agrees with a specified one.
pub open spec fn string_result_is(r: Result<String, ParseError>, s: Result<Seq<char>, ParseError>) -> bool {
    match s {
        Ok(v) => r matches Ok(x) && x@ == v,
        Err(e) => r == Err::<String, ParseError>(e),
    }
}

/// An executable byte-buffer result agrees with a specified one.
pub open spec fn bytes_result_is(r: Result<Bytes, ParseError>, s: Result<Seq<u8>, ParseError>) -> bool {
    match s {
        Ok(v) => r matches Ok(x) && bytes_view(x) == v,
        Err(e) => r == Err::<Bytes, ParseError>(e),
    }
}

impl Parse {
    /// The parts not yet read, in order.
    pub closed spec fn remaining(self) -> Seq<Frame> {
        self.parts@
    }

    /// Starts reading the parts of `frame`, which must be an array.
    pub fn new(frame: Frame) -> (r: Result<Parse, ParseError>)
        ensures
            frame matches Frame::Array(v) ==> r matches Ok(p) && p.remaining() == v@,
            !(frame is Array) ==> r == Err::<Parse, ParseError>(
                ParseError::Other(ProtocolError::ExpectedArray(frame)),
            ),
    {
        match frame {
            Frame::Array(array) => Ok(Parse { parts: array }),
            frame => Err(ParseError::Other(ProtocolError::ExpectedArray(frame))),
        }
    }

    /// Takes the next part.
    pub fn next(&mut self) -> (r: Result<Frame, ParseError>)
        ensures
            old(self).remaining().len() == 0 ==> r == Err::<Frame, ParseError>(ParseError::EndOfStream),
            old(self).remaining().len() > 0 ==> r == Ok::<Frame, ParseError>(old(self).remaining()[0]),
            final(self).remaining() == after_read(old(self).remaining()),
    {
        if self.parts.len() == 0 {
            Err(ParseError::EndOfStream)
        } else {
            Ok(self.parts.remove(0))
        }
    }

    /// Takes the next part as a string: a simple frame's text, or a bulk
    /// frame's bytes decoded as UTF-8.
    pub fn next_string(&mut self) -> (r: Result<String, ParseError>)
        ensures
            string_result_is(r, read_first(old(self).remaining(), |f: Frame| string_of(f))),
            final(self).remaining() == after_read(old(self).remaining()),
    {
        match self.next() {
            Err(e) => Err(e),
            Ok(Frame::Simple(s)) => Ok(s),
            Ok(Frame::Bulk(data)) => {
                let raw: &[u8] = &*data;
                match core::str::from_utf8(raw) {
                    Ok(s) => Ok(s.to_owned()),
                    Err(_) => Err(ParseError::Other(ProtocolError::InvalidString)),
                }
            },
            Ok(frame) => Err(ParseError::Other(ProtocolError::ExpectedString(frame))),
        }
    }

    /// Takes the next part as raw bytes: a simple frame's text in UTF-8, or a
    /// bulk frame's buffer.
    pub fn next_bytes(&mut self) -> (r: Result<Bytes, ParseError>)
        ensures
            bytes_result_is(r, read_first(old(self).remaining(), |f: Frame| bytes_of(f))),
            final(self).remaining() == after_read(old(self).remaining()),
    {
        match self.next() {
            Err(e) => Err(e),
            Ok(Frame::Simple(s)) => Ok(Bytes::copy_from_slice(s.as_str().as_bytes())),
            Ok(Frame::Bulk(data)) => Ok(data),
            Ok(frame) => Err(ParseError::Other(ProtocolError::ExpectedString(frame))),
        }
    }

    /// Takes the next part as a number: an integer frame's value, or the
    /// number that a simple or bulk frame starts with.
    pub fn next_int(&mut self) -> (r: Result<u64, ParseError>)
        ensures
            r == read_first(old(self).remaining(), |f: Frame| int_of(f)),
            final(self).remaining() == after_read(old(self).remaining()),
    {
        match self.next() {
            Err(e) => Err(e),
            Ok(Frame::Integer(v)) => Ok(v),
            Ok(Frame::Simple(s)) => match parse_u64_prefix(s.as_str().as_bytes()) {
                Some(v) => Ok(v),
                None => Err(ParseError::Other(ProtocolError::InvalidNumber)),
            },
            Ok(Frame::Bulk(data)) => match parse_u64_prefix(&*data) {
                Some(v) => Ok(v),
                None => Err(ParseError::Other(ProtocolError::InvalidNumber)),
            },
            Ok(frame) => Err(ParseError::Other(ProtocolError::ExpectedInt(frame))),
        }
    }

    /// Checks that every part has been read.
    pub fn finish(&mut self) -> (r: Result<(), ParseError>)
        ensures
            old(self).remaining().len() == 0 <==> r is Ok,
            r is Err ==> r == Err::<(), ParseError>(ParseError::Other(ProtocolError::ExpectedEnd)),
            final(self).remaining() == after_read(old(self).remaining()),
    {
        if self.parts.len() == 0 {
            Ok(())
        } else {
            let _ = self.parts.remove(0);
            Err(ParseError::Other(ProtocolError::ExpectedEnd))
        }
    }
}

} // verus!
