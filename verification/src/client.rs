//! What a client makes of the server's replies.

use bytes::Bytes;
use vstd::prelude::*;
use vstd::utf8::encode_utf8;
use crate::bytebuf::bytes_view;
use crate::frame::Frame;

verus! {

/// Why a request got no usable reply.
#[derive(Debug)]
pub enum ClientError {
    /// The reply is not of a kind the request can be answered with.
    UnexpectedFrame(Frame),
    /// The server closed the connection before replying.
    ConnectionReset,
}

/// The reply to `GET`: the value (a simple reply as its UTF-8 bytes), or
/// nothing for a null reply.
pub fn get_reply(reply: Option<Frame>) -> (r: Result<Option<Bytes>, ClientError>)
    ensures
        match reply {
            Some(Frame::Simple(s)) => r matches Ok(Some(b)) && bytes_view(b) == encode_utf8(s@),
            Some(Frame::Bulk(v)) => r == Ok::<Option<Bytes>, ClientError>(Some(v)),
            Some(Frame::Null) => r == Ok::<Option<Bytes>, ClientError>(None),
            Some(f) => r == Err::<Option<Bytes>, ClientError>(ClientError::UnexpectedFrame(f)),
            None => r == Err::<Option<Bytes>, ClientError>(ClientError::ConnectionReset),
        },
{
    match reply {
        Some(Frame::Simple(s)) => Ok(Some(Bytes::copy_from_slice(s.as_str().as_bytes()))),
        Some(Frame::Bulk(value)) => Ok(Some(value)),
        Some(Frame::Null) => Ok(None),
        Some(frame) => Err(ClientError::UnexpectedFrame(frame)),
        None => Err(ClientError::ConnectionReset),
    }
}

/// The reply to `SET`: only a simple `OK` is success.
pub fn set_reply(reply: Option<Frame>) -> (r: Result<(), ClientError>)
    ensures
        match reply {
            Some(Frame::Simple(s)) => if s@ == "OK"@ {
                r is Ok
            } else {
                r == Err::<(), ClientError>(ClientError::UnexpectedFrame(Frame::Simple(s)))
            },
            Some(f) => r == Err::<(), ClientError>(ClientError::UnexpectedFrame(f)),
            None => r == Err::<(), ClientError>(ClientError::ConnectionReset),
        },
{
    match reply {
        Some(Frame::Simple(res)) => {
            if crate::text::str_eq(res.as_str(), "OK") {
                Ok(())
            } else {
                Err(ClientError::UnexpectedFrame(Frame::Simple(res)))
            }
        },
        Some(frame) => Err(ClientError::UnexpectedFrame(frame)),
        None => Err(ClientError::ConnectionReset),
    }
}

/// The reply to `PING`: the text of a simple reply as UTF-8 bytes, or a bulk
/// reply's bytes.
pub fn ping_reply(reply: Option<Frame>) -> (r: Result<Bytes, ClientError>)
    ensures
        match reply {
            Some(Frame::Simple(s)) => r matches Ok(b) && bytes_view(b) == encode_utf8(s@),
            Some(Frame::Bulk(v)) => r == Ok::<Bytes, ClientError>(v),
            Some(f) => r == Err::<Bytes, ClientError>(ClientError::UnexpectedFrame(f)),
            None => r == Err::<Bytes, ClientError>(ClientError::ConnectionReset),
        },
{
    match reply {
        Some(Frame::Simple(s)) => Ok(Bytes::copy_from_slice(s.as_str().as_bytes())),
        Some(Frame::Bulk(msg)) => Ok(msg),
        Some(frame) => Err(ClientError::UnexpectedFrame(frame)),
        None => Err(ClientError::ConnectionReset),
    }
}

/// The reply to `DEL`: the count that an integer reply holds.
pub fn del_reply(reply: Option<Frame>) -> (r: Result<u64, ClientError>)
    ensures
        match reply {
            Some(Frame::Integer(i)) => r == Ok::<u64, ClientError>(i),
            Some(f) => r == Err::<u64, ClientError>(ClientError::UnexpectedFrame(f)),
            None => r == Err::<u64, ClientError>(ClientError::ConnectionReset),
        },
{
    match reply {
        Some(Frame::Integer(i)) => Ok(i),
        Some(frame) => Err(ClientError::UnexpectedFrame(frame)),
        None => Err(ClientError::ConnectionReset),
    }
}

} // verus!
