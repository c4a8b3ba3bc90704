use bytes::Bytes;
use rust_redis::cmd::{Command, Del, Get, Ping, SetCmd};
use rust_redis::db::Db;
use rust_redis::frame::Frame;
use rust_redis::parse::{ParseError, ProtocolError};

fn bulk_array(parts: &[&str]) -> Frame {
    Frame::Array(parts.iter().map(|p| Frame::Bulk(Bytes::copy_from_slice(p.as_bytes()))).collect())
}

#[test]
fn parse_get_command() {
    let frame = Frame::Array(vec![Frame::Bulk("GET".into()), Frame::Bulk("foo".into())]);
    let cmd = Command::from_frame(frame).unwrap();
    match cmd {
        Command::Get(get) => assert_eq!(get.key(), "foo"),
        _ => panic!("expected Get command"),
    }
}

#[test]
fn parse_set_command() {
    let frame = Frame::Array(vec![
        Frame::Bulk("SET".into()),
        Frame::Bulk("key".into()),
        Frame::Bulk("value".into()),
    ]);
    let cmd = Command::from_frame(frame).unwrap();
    match cmd {
        Command::SetCmd(set) => {
            assert_eq!(set.key(), "key");
            assert_eq!(set.value(), &Bytes::from("value"));
        }
        _ => panic!("expected Set command"),
    }
}

#[test]
fn parse_unknown_command() {
    let frame = Frame::Array(vec![Frame::Bulk("not_a_command".into())]);
    assert!(Command::from_frame(frame).is_err());
}

#[test]
fn parse_unknown_command_reports_lowered_name() {
    match Command::from_frame(bulk_array(&["FLUSHALL"])) {
        Err(ParseError::Other(ProtocolError::UnknownCommand(name))) => assert_eq!(name, "flushall"),
        _ => panic!("expected an unknown command"),
    }
}

#[test]
fn parse_set_with_expiry_options() {
    match Command::from_frame(bulk_array(&["set", "k", "v", "ex", "3"])).unwrap() {
        Command::SetCmd(set) => assert_eq!(set.expire(), Some(3000)),
        _ => panic!("expected Set command"),
    }
    match Command::from_frame(bulk_array(&["Set", "k", "v", "Px", "250"])).unwrap() {
        Command::SetCmd(set) => assert_eq!(set.expire(), Some(250)),
        _ => panic!("expected Set command"),
    }
    assert!(matches!(
        Command::from_frame(bulk_array(&["set", "k", "v", "nx"])),
        Err(ParseError::Other(ProtocolError::UnsupportedSetOption))
    ));
    assert!(matches!(
        Command::from_frame(bulk_array(&["set", "k", "v", "ex"])),
        Err(ParseError::EndOfStream)
    ));
    assert!(matches!(
        Command::from_frame(bulk_array(&["set", "k", "v", "ex", "1", "extra"])),
        Err(ParseError::Other(ProtocolError::ExpectedEnd))
    ));
}

#[test]
fn parse_set_expiry_saturates() {
    match Command::from_frame(bulk_array(&["set", "k", "v", "ex", "18446744073709551615"])).unwrap() {
        Command::SetCmd(set) => assert_eq!(set.expire(), Some(u64::MAX)),
        _ => panic!("expected Set command"),
    }
}

#[test]
fn parse_missing_argument() {
    assert!(matches!(Command::from_frame(bulk_array(&["get"])), Err(ParseError::EndOfStream)));
    assert!(matches!(
        Command::from_frame(bulk_array(&["get", "a", "b"])),
        Err(ParseError::Other(ProtocolError::ExpectedEnd))
    ));
    assert!(matches!(Command::from_frame(Frame::Array(vec![])), Err(ParseError::EndOfStream)));
    assert!(Command::from_frame(Frame::Null).is_err());
}

#[test]
fn parse_other_commands() {
    assert!(matches!(Command::from_frame(bulk_array(&["PING"])).unwrap(), Command::Ping(_)));
    assert!(matches!(Command::from_frame(bulk_array(&["del"])).unwrap(), Command::Del(_)));
    assert!(matches!(Command::from_frame(bulk_array(&["exists", "a", "b"])).unwrap(), Command::Exists(_)));
    assert!(matches!(Command::from_frame(bulk_array(&["ttl", "a"])).unwrap(), Command::Ttl(_)));
    assert!(matches!(Command::from_frame(bulk_array(&["expire", "a", "10"])).unwrap(), Command::Expire(_)));
    assert!(matches!(
        Command::from_frame(bulk_array(&["expire", "a", "ten"])),
        Err(ParseError::Other(ProtocolError::InvalidNumber))
    ));
}

#[test]
fn command_frames_read_back() {
    match Command::from_frame(Get::new("foo").into_frame()).unwrap() {
        Command::Get(g) => assert_eq!(g.key(), "foo"),
        _ => panic!("expected Get command"),
    }
    match Command::from_frame(SetCmd::new("k", Bytes::from("v"), Some(1500)).into_frame()).unwrap() {
        Command::SetCmd(s) => {
            assert_eq!(s.key(), "k");
            assert_eq!(s.value(), &Bytes::from("v"));
            assert_eq!(s.expire(), Some(1500));
        }
        _ => panic!("expected Set command"),
    }
    let del = Del::new(vec!["a".to_string(), "b".to_string()]);
    let mut db = Db::new();
    db.set("a", Bytes::from("1"), None);
    match Command::from_frame(del.into_frame()).unwrap() {
        Command::Del(d) => assert_eq!(d.apply_to_db(&mut db), 1),
        _ => panic!("expected Del command"),
    }
    assert!(matches!(Command::from_frame(Ping::new(None).into_frame()).unwrap(), Command::Ping(_)));
}

#[test]
fn get_frame_shape() {
    match Get::new("foo").into_frame() {
        Frame::Array(parts) => {
            assert_eq!(parts.len(), 2);
            assert!(matches!(&parts[0], Frame::Bulk(b) if b == "get"));
            assert!(matches!(&parts[1], Frame::Bulk(b) if b == "foo"));
        }
        _ => panic!("expected an array"),
    }
}

#[test]
fn set_frame_shape_with_expiry() {
    match SetCmd::new("k", Bytes::from("v"), Some(42)).into_frame() {
        Frame::Array(parts) => {
            assert_eq!(parts.len(), 5);
            assert!(matches!(&parts[3], Frame::Bulk(b) if b == "px"));
            assert!(matches!(&parts[4], Frame::Bulk(b) if b == "42"));
        }
        _ => panic!("expected an array"),
    }
}

fn run(db: &mut Db, parts: &[&str], now: u64) -> Frame {
    Command::from_frame(bulk_array(parts)).unwrap().apply_at(db, now)
}

#[test]
fn serve_set_then_get() {
    let mut db = Db::new();
    assert!(matches!(run(&mut db, &["set", "foo", "bar"], 0), Frame::Simple(s) if s == "OK"));
    assert!(matches!(run(&mut db, &["get", "foo"], 5), Frame::Bulk(b) if b == "bar"));
    assert!(matches!(run(&mut db, &["get", "missing"], 5), Frame::Null));
}

#[test]
fn serve_ping() {
    let mut db = Db::new();
    assert!(matches!(run(&mut db, &["ping"], 0), Frame::Simple(s) if s == "PONG"));
    assert!(matches!(run(&mut db, &["ping", "hi"], 0), Frame::Bulk(b) if b == "hi"));
}

#[test]
fn serve_expiry_commands() {
    const MS: u64 = 1_000_000;
    let mut db = Db::new();
    run(&mut db, &["set", "k", "v", "px", "2500"], 1000 * MS);
    assert!(matches!(run(&mut db, &["ttl", "k"], 1000 * MS), Frame::Integer(2)));
    assert!(matches!(run(&mut db, &["exists", "k", "k", "nope"], 3500 * MS - 1), Frame::Integer(2)));
    assert!(matches!(run(&mut db, &["get", "k"], 3500 * MS), Frame::Null));
    assert!(matches!(run(&mut db, &["exists", "k"], 3500 * MS), Frame::Integer(0)));
    assert!(matches!(run(&mut db, &["expire", "k", "1"], 3500 * MS), Frame::Integer(0)));
    run(&mut db, &["set", "k", "v"], 4000 * MS);
    assert!(matches!(run(&mut db, &["ttl", "k"], 4000 * MS), Frame::Integer(0)));
    assert!(matches!(run(&mut db, &["expire", "k", "10"], 4000 * MS), Frame::Integer(1)));
    assert!(matches!(run(&mut db, &["ttl", "k"], 4001 * MS), Frame::Integer(9)));
    assert!(matches!(run(&mut db, &["del", "k", "k", "x"], 4002 * MS), Frame::Integer(1)));
    assert!(matches!(run(&mut db, &["ttl", "k"], 4003 * MS), Frame::Integer(0)));
}

#[test]
fn writes_are_flagged() {
    assert!(Command::from_frame(bulk_array(&["set", "a", "b"])).unwrap().is_write());
    assert!(Command::from_frame(bulk_array(&["del", "a"])).unwrap().is_write());
    assert!(Command::from_frame(bulk_array(&["expire", "a", "1"])).unwrap().is_write());
    assert!(!Command::from_frame(bulk_array(&["get", "a"])).unwrap().is_write());
    assert!(!Command::from_frame(bulk_array(&["ping"])).unwrap().is_write());
}

#[test]
fn replayed_reads_do_nothing() {
    let mut db = Db::new();
    db.set("a", Bytes::from("1"), Some(10));
    assert!(Command::from_frame(bulk_array(&["get", "a"])).unwrap().apply_to_db(&mut db, 50).is_ok());
    assert!(db.del("a"));
}
