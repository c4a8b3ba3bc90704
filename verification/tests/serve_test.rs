use bytes::Bytes;
use rust_redis::cmd::{Del, Get, Ping, SetCmd};
use rust_redis::db::Db;
use rust_redis::frame::Frame;
use rust_redis::parse::{ParseError, ProtocolError};
use rust_redis::server::{read_request, serve, serve_at};
use rust_redis::wal::replay_at;

#[test]
fn served_set_then_get() {
    let mut db = Db::new();
    let set = serve_at(&mut db, SetCmd::new("foo", Bytes::from("bar"), None).into_frame(), 0).unwrap();
    assert!(set.log);
    assert!(matches!(set.reply, Frame::Simple(ref s) if s == "OK"));
    let get = serve_at(&mut db, Get::new("foo").into_frame(), 0).unwrap();
    assert!(!get.log);
    assert!(matches!(get.reply, Frame::Bulk(ref b) if b == "bar"));
}

#[test]
fn serve_get_missing_key() {
    let mut db = Db::new();
    let get = serve(&mut db, Get::new("missing").into_frame()).unwrap();
    assert!(matches!(get.reply, Frame::Null));
}

#[test]
fn served_ping() {
    let mut db = Db::new();
    let pong = serve(&mut db, Ping::new(None).into_frame()).unwrap();
    assert!(!pong.log);
    assert!(matches!(pong.reply, Frame::Simple(ref s) if s == "PONG"));
}

#[test]
fn serve_refuses_what_is_no_request() {
    let mut db = Db::new();
    serve_at(&mut db, SetCmd::new("k", Bytes::from("v"), None).into_frame(), 0).unwrap();
    let r = serve_at(&mut db, Frame::Simple("GET k".into()), 0);
    assert!(matches!(r, Err(ParseError::Other(ProtocolError::ExpectedArray(_)))));
    let r = serve_at(&mut db, Frame::Array(vec![Frame::Bulk("nope".into())]), 0);
    assert!(matches!(r, Err(ParseError::Other(ProtocolError::UnknownCommand(ref s))) if s == "nope"));
    assert_eq!(db.get_at("k", 0), Some(Bytes::from("v")));
}

#[test]
fn replaying_the_logged_writes_restores_the_session() {
    let session = vec![
        SetCmd::new("a", Bytes::from("1"), None).into_frame(),
        Get::new("a").into_frame(),
        SetCmd::new("b", Bytes::from("2"), Some(500)).into_frame(),
        Del::new(vec!["a".to_string(), "c".to_string()]).into_frame(),
        Ping::new(None).into_frame(),
        SetCmd::new("c", Bytes::from("3"), Some(5)).into_frame(),
    ];
    let mut served = Db::new();
    let mut log = Vec::new();
    for frame in session {
        let mut raw = Vec::new();
        frame.encode(&mut raw);
        let out = serve_at(&mut served, frame, 100).unwrap();
        if out.log {
            log.extend_from_slice(&raw);
        }
    }
    let mut replayed = Db::new();
    replay_at(&mut replayed, &log, 100);
    for key in ["a", "b", "c"] {
        assert_eq!(replayed.get_at(key, 100), served.get_at(key, 100));
    }
    assert_eq!(replayed.get_at("b", 100), Some(Bytes::from("2")));
    assert_eq!(replayed.get_at("a", 100), None);
}

#[test]
fn admit_reads_the_request_and_flags_writes() {
    let a = read_request(SetCmd::new("k", Bytes::from("v"), None).into_frame()).unwrap();
    assert!(a.log);
    let a = read_request(Get::new("k").into_frame()).unwrap();
    assert!(!a.log);
    assert!(matches!(read_request(Frame::Null), Err(ParseError::Other(ProtocolError::ExpectedArray(Frame::Null)))));
}
