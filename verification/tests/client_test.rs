use bytes::Bytes;
use rust_redis::client::{del_reply, get_reply, ping_reply, set_reply, ClientError};
use rust_redis::frame::Frame;

#[test]
fn get_replies() {
    assert_eq!(get_reply(Some(Frame::Bulk(Bytes::from("bar")))).unwrap(), Some(Bytes::from("bar")));
    assert_eq!(get_reply(Some(Frame::Simple("bar".into()))).unwrap(), Some(Bytes::from("bar")));
    assert_eq!(get_reply(Some(Frame::Null)).unwrap(), None);
    assert!(matches!(get_reply(Some(Frame::Integer(1))), Err(ClientError::UnexpectedFrame(Frame::Integer(1)))));
    assert!(matches!(get_reply(None), Err(ClientError::ConnectionReset)));
}

#[test]
fn set_replies() {
    assert!(set_reply(Some(Frame::Simple("OK".into()))).is_ok());
    assert!(matches!(set_reply(Some(Frame::Simple("NO".into()))), Err(ClientError::UnexpectedFrame(_))));
    assert!(matches!(set_reply(Some(Frame::Null)), Err(ClientError::UnexpectedFrame(Frame::Null))));
    assert!(matches!(set_reply(None), Err(ClientError::ConnectionReset)));
}

#[test]
fn ping_and_del_replies() {
    assert_eq!(ping_reply(Some(Frame::Simple("PONG".into()))).unwrap(), "PONG");
    assert_eq!(ping_reply(Some(Frame::Bulk(Bytes::from("hi")))).unwrap(), "hi");
    assert!(ping_reply(Some(Frame::Null)).is_err());
    assert_eq!(del_reply(Some(Frame::Integer(3))).unwrap(), 3);
    assert!(matches!(del_reply(None), Err(ClientError::ConnectionReset)));
    assert!(del_reply(Some(Frame::Simple("3".into()))).is_err());
}
