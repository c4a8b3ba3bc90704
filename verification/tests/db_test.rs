use bytes::Bytes;
use rust_redis::db::Db;

#[test]
fn db_set_and_get() {
    let mut db = Db::new();
    db.set("key", Bytes::from("value"), None);
    assert_eq!(db.get("key"), Some(Bytes::from("value")));
}

#[test]
fn db_get_missing_key() {
    let mut db = Db::new();
    assert_eq!(db.get("missing"), None);
}

#[test]
fn del_existing_key() {
    let mut db = Db::new();
    db.set("key", Bytes::from("value"), None);
    assert!(db.del("key"));
    assert_eq!(db.get("key"), None);
}

#[test]
fn del_missing_key() {
    let mut db = Db::new();
    assert!(!db.del("missing"));
}

#[test]
fn db_exists() {
    let mut db = Db::new();
    assert!(!db.key_exists("key"));
    db.set("key", Bytes::from("v"), None);
    assert!(db.key_exists("key"));
}

#[test]
fn expire_and_ttl() {
    let mut db = Db::new();
    db.set("key", Bytes::from("v"), None);
    let future = db.now_nanos() + 10_000_000_000;
    assert!(db.expire("key", future));
    let now = db.now_nanos();
    let ttl = db.ttl("key", now);
    assert!(ttl.is_some());
    assert!(ttl.unwrap() / 1_000_000_000 <= 10);
}

#[test]
fn expire_nonexistent_key() {
    let mut db = Db::new();
    let future = db.now_nanos() + 10_000_000_000;
    assert!(!db.expire("missing", future));
}

#[test]
fn expired_key_returns_none() {
    let mut db = Db::new();
    // Set expiry in the past: the store's clock started at 0.
    db.set("key", Bytes::from("v"), Some(0));
    // On access, the key should be treated as expired
    assert_eq!(db.get("key"), None);
    assert!(!db.key_exists("key"));
}

#[test]
fn overwrite_replaces_value_and_expiry() {
    let mut db = Db::new();
    db.set("k", Bytes::from("a"), Some(5));
    db.set("k", Bytes::from("b"), None);
    assert_eq!(db.get_at("k", 100), Some(Bytes::from("b")));
    assert_eq!(db.ttl_at("k", 100, 100), None);
}

#[test]
fn expiry_boundary_is_inclusive() {
    let mut db = Db::new();
    db.set("k", Bytes::from("v"), Some(100));
    assert_eq!(db.get_at("k", 99), Some(Bytes::from("v")));
    assert_eq!(db.ttl_at("k", 99, 99), Some(1));
    assert_eq!(db.get_at("k", 100), None);
    // the expired entry was dropped by the read
    assert!(!db.del("k"));
}

#[test]
fn del_counts_expired_entries_still_stored() {
    let mut db = Db::new();
    db.set("k", Bytes::from("v"), Some(1));
    assert!(db.del("k"));
}

#[test]
fn other_keys_are_untouched() {
    let mut db = Db::new();
    db.set("a", Bytes::from("1"), None);
    db.set("b", Bytes::from("2"), Some(10));
    assert!(db.del("a"));
    assert_eq!(db.get_at("b", 5), Some(Bytes::from("2")));
    assert!(db.expire_at("b", 50, 5));
    assert_eq!(db.ttl_at("b", 20, 20), Some(30));
    assert!(!db.exists_at("b", 50));
    assert!(!db.expire_at("b", 60, 55));
}

#[test]
fn ttl_judges_liveness_apart_from_where_it_measures() {
    let mut db = Db::new();
    db.set("k", Bytes::from("v"), Some(8));
    // measured from 5, but judged live at 10: expired, so nothing, and dropped
    assert_eq!(db.ttl_at("k", 10, 5), None);
    assert!(!db.del("k"));
    db.set("k", Bytes::from("v"), Some(8));
    // judged live at 4, measured from 5
    assert_eq!(db.ttl_at("k", 4, 5), Some(3));
}

#[test]
fn ttl_judges_liveness_by_the_clock() {
    let mut db = Db::new();
    db.set("gone", Bytes::from("v"), Some(0));
    // the clock has reached 0, so the entry is expired whatever time is given
    assert_eq!(db.ttl("gone", 0), None);
    assert!(!db.del("gone"));
    let before = db.now_nanos();
    db.set("k", Bytes::from("v"), Some(before + 1_000_000_000_000));
    assert_eq!(db.ttl("k", before), Some(1_000_000_000_000));
    assert!(db.now_nanos() >= before);
}

#[test]
fn the_clock_never_goes_back() {
    let mut db = Db::new();
    assert_eq!(db.advance_clock(5), 5);
    assert_eq!(db.advance_clock(3), 5);
    assert_eq!(db.advance_clock(9), 9);
    assert_eq!(db.advance_clock(u128::MAX), u64::MAX);
    assert_eq!(db.advance_clock(1), u64::MAX);
}

#[test]
fn the_clock_drives_expiry() {
    let mut db = Db::new();
    // an hour on the store's clock, in nanoseconds
    let hour: u64 = 3_600_000_000_000;
    db.set("k", Bytes::from("v"), Some(hour));
    db.advance_clock(hour as u128 - 1);
    assert_eq!(db.get("k"), Some(Bytes::from("v")));
    db.advance_clock(hour as u128);
    assert_eq!(db.get("k"), None);
}
