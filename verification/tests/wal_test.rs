use bytes::Bytes;
use rust_redis::cmd::{Del, SetCmd};
use rust_redis::db::Db;
use rust_redis::frame::Frame;
use rust_redis::wal::{replay, replay_at};

fn log_of(frames: &[Frame]) -> Vec<u8> {
    let mut out = Vec::new();
    for f in frames {
        f.encode(&mut out);
    }
    out
}

#[test]
fn replay_applies_writes_in_order() {
    let log = log_of(&[
        SetCmd::new("a", Bytes::from("1"), None).into_frame(),
        SetCmd::new("b", Bytes::from("2"), None).into_frame(),
        Del::new(vec!["a".to_string()]).into_frame(),
        SetCmd::new("b", Bytes::from("3"), None).into_frame(),
    ]);
    let mut db = Db::new();
    replay_at(&mut db, &log, 0);
    assert_eq!(db.get_at("a", 0), None);
    assert_eq!(db.get_at("b", 0), Some(Bytes::from("3")));
}

#[test]
fn replay_skips_non_requests_and_stops_at_garbage() {
    let mut log = log_of(&[
        Frame::Integer(5),
        SetCmd::new("a", Bytes::from("1"), None).into_frame(),
    ]);
    log.extend_from_slice(b"?garbage");
    log.extend_from_slice(&log_of(&[SetCmd::new("z", Bytes::from("9"), None).into_frame()]));
    let mut db = Db::new();
    replay_at(&mut db, &log, 0);
    assert_eq!(db.get_at("a", 0), Some(Bytes::from("1")));
    assert_eq!(db.get_at("z", 0), None);
}

#[test]
fn replay_relative_expiry_counts_from_replay_time() {
    let log = log_of(&[SetCmd::new("k", Bytes::from("v"), Some(100)).into_frame()]);
    let mut db = Db::new();
    replay_at(&mut db, &log, 1_000_000_000);
    assert_eq!(db.ttl_at("k", 1_050_000_000, 1_050_000_000), Some(50_000_000));
}

#[test]
fn replay_with_clock_and_truncated_tail() {
    let mut log = log_of(&[SetCmd::new("k", Bytes::from("v"), None).into_frame()]);
    log.extend_from_slice(b"*3\r\n$3\r\nset");
    let mut db = Db::new();
    replay(&mut db, &log);
    assert_eq!(db.get("k"), Some(Bytes::from("v")));
}
