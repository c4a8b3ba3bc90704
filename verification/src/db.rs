//! The in-memory key/value store, with optional expiry per key.
//!
//! Time is counted in nanoseconds since the store was created.

use bytes::Bytes;
use std::time::Instant;
use vstd::prelude::*;
use crate::bytebuf::bytes_view;
use crate::clock::saturated_nanos;
use crate::text::str_eq;

verus! {

/// A stored value and, when it has one, the time at which it expires.
#[derive(Debug)]
pub struct Entry {
    data: Bytes,
    expires_at: Option<u64>,
}

/// What an entry holds.
pub struct EntryView {
    pub data: Seq<u8>,
    pub expires_at: Option<u64>,
}

impl Entry {
    pub closed spec fn view_entry(self) -> EntryView {
        EntryView { data: bytes_view(self.data), expires_at: self.expires_at }
    }

    /// The entry has expired when its expiry time has been reached.
    fn is_expired(&self, now: u64) -> (r: bool)
        ensures
            r == expired(self.view_entry(), now),
    {
        match self.expires_at {
            Some(e) => now >= e,
            None => false,
        }
    }
}

/// An entry is expired at `now` when it has an expiry time no later than `now`.
pub open spec fn expired(e: EntryView, now: u64) -> bool {
    e.expires_at matches Some(t) && now >= t
}

/// The entry that a read of `key` at `now` sees: the stored one, unless it has
/// expired.
pub open spec fn live(m: Map<Seq<char>, EntryView>, key: Seq<char>, now: u64) -> Option<EntryView> {
    if m.contains_key(key) && !expired(m[key], now) {
        Some(m[key])
    } else {
        None
    }
}

/// The store as a read of `key` at `now` leaves it: an expired entry for
/// `key` is dropped, and nothing else changes.
pub open spec fn purge(m: Map<Seq<char>, EntryView>, key: Seq<char>, now: u64) -> Map<Seq<char>, EntryView> {
    if m.contains_key(key) && expired(m[key], now) {
        m.remove(key)
    } else {
        m
    }
}

/// A read of `key` at `now`: what `get` returns and how it leaves the store.
pub open spec fn get_outcome(
    old_m: Map<Seq<char>, EntryView>,
    key: Seq<char>,
    now: u64,
    r: Option<Bytes>,
    new_m: Map<Seq<char>, EntryView>,
) -> bool {
    &&& new_m == purge(old_m, key, now)
    &&& match live(old_m, key, now) {
        Some(e) => r matches Some(b) && bytes_view(b) == e.data,
        None => r is None,
    }
}

/// An existence check of `key` at `now`.
pub open spec fn exists_outcome(
    old_m: Map<Seq<char>, EntryView>,
    key: Seq<char>,
    now: u64,
    r: bool,
    new_m: Map<Seq<char>, EntryView>,
) -> bool {
    &&& new_m == purge(old_m, key, now)
    &&& r == live(old_m, key, now) is Some
}

/// Setting the expiry time of `key` to `at`, done at `now`: only a live entry
/// gets it.
pub open spec fn expire_outcome(
    old_m: Map<Seq<char>, EntryView>,
    key: Seq<char>,
    at: u64,
    now: u64,
    r: bool,
    new_m: Map<Seq<char>, EntryView>,
) -> bool {
    match live(old_m, key, now) {
        Some(e) => r && new_m == old_m.insert(key, EntryView { data: e.data, expires_at: Some(at) }),
        None => !r && new_m == purge(old_m, key, now),
    }
}

/// The time left from `from` until the expiry time of `key`, for an entry
/// live at `at` that has an expiry time no earlier than `from`.
pub open spec fn ttl_from(m: Map<Seq<char>, EntryView>, key: Seq<char>, at: u64, from: u64) -> Option<u64> {
    match live(m, key, at) {
        Some(e) => match e.expires_at {
            Some(t) => if t >= from { Some((t - from) as u64) } else { None },
            None => None,
        },
        None => None,
    }
}

/// The time left to a live entry with an expiry time, at `now`.
pub open spec fn ttl_of(m: Map<Seq<char>, EntryView>, key: Seq<char>, now: u64) -> Option<u64> {
    ttl_from(m, key, now, now)
}

/// A key and its entry.
#[derive(Debug)]
pub struct Slot {
    key: String,
    entry: Entry,
}

/// The map that a sequence of slots with distinct keys stands for.
pub closed spec fn slots_map(s: Seq<Slot>) -> Map<Seq<char>, EntryView> {
    Map::new(
        |k: Seq<char>| exists|i: int| 0 <= i < s.len() && #[trigger] s[i].key@ == k,
        |k: Seq<char>| s[choose|i: int| 0 <= i < s.len() && #[trigger] s[i].key@ == k].entry.view_entry(),
    )
}

/// No key occurs twice.
pub closed spec fn unique_keys(s: Seq<Slot>) -> bool {
    forall|i: int, j: int| 0 <= i < s.len() && 0 <= j < s.len() && #[trigger] s[i].key@ == #[trigger] s[j].key@ ==> i == j
}

proof fn lemma_lookup(s: Seq<Slot>, i: int)
    requires
        unique_keys(s),
        0 <= i < s.len(),
    ensures
        slots_map(s).contains_key(s[i].key@),
        slots_map(s)[s[i].key@] == s[i].entry.view_entry(),
{
    let k = s[i].key@;
    assert(exists|j: int| 0 <= j < s.len() && #[trigger] s[j].key@ == k);
    let j = choose|j: int| 0 <= j < s.len() && #[trigger] s[j].key@ == k;
    assert(j == i);
}

proof fn lemma_absent(s: Seq<Slot>, k: Seq<char>)
    requires
        forall|i: int| 0 <= i < s.len() ==> #[trigger] s[i].key@ != k,
    ensures
        !slots_map(s).contains_key(k),
{
}

proof fn lemma_push(s: Seq<Slot>, slot: Slot)
    requires
        unique_keys(s),
        forall|i: int| 0 <= i < s.len() ==> #[trigger] s[i].key@ != slot.key@,
    ensures
        unique_keys(s.push(slot)),
        slots_map(s.push(slot)) == slots_map(s).insert(slot.key@, slot.entry.view_entry()),
{
    let t = s.push(slot);
    assert(forall|i: int| 0 <= i < s.len() ==> t[i] == s[i]);
    assert(unique_keys(t));
    let m = slots_map(s).insert(slot.key@, slot.entry.view_entry());
    assert forall|k: Seq<char>| #[trigger] slots_map(t).contains_key(k) == m.contains_key(k) by {
        if slots_map(t).contains_key(k) {
            let j = choose|j: int| 0 <= j < t.len() && #[trigger] t[j].key@ == k;
            if j < s.len() {
                assert(s[j].key@ == k);
            }
        }
        if slots_map(s).contains_key(k) {
            let j = choose|j: int| 0 <= j < s.len() && #[trigger] s[j].key@ == k;
            assert(t[j].key@ == k);
        }
        if k == slot.key@ {
            assert(t[s.len() as int].key@ == k);
        }
    }
    assert forall|k: Seq<char>| #[trigger] slots_map(t).contains_key(k) implies slots_map(t)[k] == m[k] by {
        let j = choose|j: int| 0 <= j < t.len() && #[trigger] t[j].key@ == k;
        lemma_lookup(t, j);
        if j < s.len() {
            lemma_lookup(s, j);
        }
    }
    assert(slots_map(t) =~= m);
}

proof fn lemma_update(s: Seq<Slot>, i: int, slot: Slot)
    requires
        unique_keys(s),
        0 <= i < s.len(),
        s[i].key@ == slot.key@,
    ensures
        unique_keys(s.update(i, slot)),
        slots_map(s.update(i, slot)) == slots_map(s).insert(slot.key@, slot.entry.view_entry()),
{
    let t = s.update(i, slot);
    assert(forall|j: int| 0 <= j < s.len() ==> #[trigger] t[j].key@ == s[j].key@);
    assert(unique_keys(t));
    let m = slots_map(s).insert(slot.key@, slot.entry.view_entry());
    assert forall|k: Seq<char>| #[trigger] slots_map(t).contains_key(k) == m.contains_key(k) by {
        if slots_map(t).contains_key(k) {
            let j = choose|j: int| 0 <= j < t.len() && #[trigger] t[j].key@ == k;
            assert(s[j].key@ == k);
        }
        if slots_map(s).contains_key(k) {
            let j = choose|j: int| 0 <= j < s.len() && #[trigger] s[j].key@ == k;
            assert(t[j].key@ == k);
        }
        if k == slot.key@ {
            assert(t[i].key@ == k);
        }
    }
    assert forall|k: Seq<char>| #[trigger] slots_map(t).contains_key(k) implies slots_map(t)[k] == m[k] by {
        let j = choose|j: int| 0 <= j < t.len() && #[trigger] t[j].key@ == k;
        lemma_lookup(t, j);
        lemma_lookup(s, j);
    }
    assert(slots_map(t) =~= m);
}

proof fn lemma_remove(s: Seq<Slot>, i: int)
    requires
        unique_keys(s),
        0 <= i < s.len(),
    ensures
        unique_keys(s.remove(i)),
        slots_map(s.remove(i)) == slots_map(s).remove(s[i].key@),
{
    let t = s.remove(i);
    let key = s[i].key@;
    assert(forall|j: int| 0 <= j < i ==> #[trigger] t[j] == s[j]);
    assert(forall|j: int| i <= j < t.len() ==> #[trigger] t[j] == s[j + 1]);
    assert forall|a: int, b: int| 0 <= a < t.len() && 0 <= b < t.len() && #[trigger] t[a].key@ == #[trigger] t[b].key@ implies a == b by {
        let a2 = if a < i { a } else { a + 1 };
        let b2 = if b < i { b } else { b + 1 };
        assert(s[a2].key@ == s[b2].key@);
    }
    let m = slots_map(s).remove(key);
    assert forall|k: Seq<char>| #[trigger] slots_map(t).contains_key(k) == m.contains_key(k) by {
        if slots_map(t).contains_key(k) {
            let j = choose|j: int| 0 <= j < t.len() && #[trigger] t[j].key@ == k;
            let j2 = if j < i { j } else { j + 1 };
            assert(s[j2].key@ == k);
            assert(j2 != i);
        }
        if m.contains_key(k) {
            let j = choose|j: int| 0 <= j < s.len() && #[trigger] s[j].key@ == k;
            assert(j != i);
            if j < i {
                assert(t[j].key@ == k);
            } else {
                assert(t[j - 1].key@ == k);
            }
        }
    }
    assert forall|k: Seq<char>| #[trigger] slots_map(t).contains_key(k) implies slots_map(t)[k] == m[k] by {
        let j = choose|j: int| 0 <= j < t.len() && #[trigger] t[j].key@ == k;
        let j2 = if j < i { j } else { j + 1 };
        lemma_lookup(t, j);
        lemma_lookup(s, j2);
    }
    assert(slots_map(t) =~= m);
}

/// The store.
#[derive(Debug)]
pub struct Db {
    slots: Vec<Slot>,
    origin: Instant,
    last: u64,
}

impl View for Db {
    type V = Map<Seq<char>, EntryView>;

    closed spec fn view(&self) -> Map<Seq<char>, EntryView> {
        slots_map(self.slots@)
    }
}

impl Db {
    /// The store's own invariant: every key occurs once.
    pub closed spec fn wf(&self) -> bool {
        unique_keys(self.slots@)
    }

    /// The latest reading of the store's clock, in nanoseconds since the
    /// store was created.
    pub closed spec fn clock(&self) -> u64 {
        self.last
    }

    /// An empty store; its clock starts now.
    pub fn new() -> (db: Db)
        ensures
            db.wf(),
            db@ == Map::<Seq<char>, EntryView>::empty(),
            db.clock() == 0,
    {
        let db = Db { slots: Vec::new(), origin: Instant::now(), last: 0 };
        assert(db@ =~= Map::<Seq<char>, EntryView>::empty());
        db
    }

    /// Moves the store's clock on to `elapsed_ns`, the nanoseconds that
    /// have passed since the store was created (counted as `u64::MAX` when
    /// they do not fit), unless the clock already reads later: a reading is
    /// never earlier than the one before it. Returns the new reading.
    pub fn advance_clock(&mut self, elapsed_ns: u128) -> (r: u64)
        ensures
            r == (if saturated_nanos(elapsed_ns) < old(self).clock() {
                old(self).clock()
            } else {
                saturated_nanos(elapsed_ns)
            }),
            final(self).clock() == r,
            final(self)@ == old(self)@,
            old(self).wf() ==> final(self).wf(),
    {
        let t: u64 = if elapsed_ns > 0xffff_ffff_ffff_ffffu128 {
            u64::MAX
        } else {
            elapsed_ns as u64
        };
        let r = if t < self.last { self.last } else { t };
        self.last = r;
        r
    }

    /// Nanoseconds since the store was created, by its clock: the time that
    /// has passed since then, as `advance_clock` takes it. A reading is never
    /// earlier than the one before it.
    pub fn now_nanos(&mut self) -> (r: u64)
        ensures
            r >= old(self).clock(),
            final(self).clock() == r,
            final(self)@ == old(self)@,
            old(self).wf() ==> final(self).wf(),
    {
        let elapsed = self.origin.elapsed().as_nanos();
        self.advance_clock(elapsed)
    }

    /// Where `key` is stored, if anywhere.
    fn find(&self, key: &str) -> (r: Option<usize>)
        ensures
            r matches Some(i) ==> i < self.slots@.len() && self.slots@[i as int].key@ == key@,
            r is None ==> forall|i: int| 0 <= i < self.slots@.len() ==> #[trigger] self.slots@[i].key@ != key@,
    {
        let mut i: usize = 0;
        while i < self.slots.len()
            invariant
                0 <= i <= self.slots@.len(),
                forall|j: int| 0 <= j < i ==> #[trigger] self.slots@[j].key@ != key@,
            decreases self.slots@.len() - i,
        {
            if str_eq(self.slots[i].key.as_str(), key) {
                return Some(i);
            }
            i = i + 1;
        }
        None
    }

    /// Stores `value` under `key`, replacing what was there, with the expiry
    /// time `expire` if given.
    pub fn set(&mut self, key: &str, value: Bytes, expire: Option<u64>)
        requires
            old(self).wf(),
        ensures
            final(self).wf(),
            final(self).clock() == old(self).clock(),
            final(self)@ == old(self)@.insert(key@, EntryView { data: bytes_view(value), expires_at: expire }),
    {
        let slot = Slot { key: key.to_owned(), entry: Entry { data: value, expires_at: expire } };
        match self.find(key) {
            Some(i) => {
                proof { lemma_update(self.slots@, i as int, slot); }
                self.slots.set(i, slot);
            },
            None => {
                proof { lemma_push(self.slots@, slot); }
                self.slots.push(slot);
            },
        }
    }

    /// The value of `key` at `now`, unless it is missing or has expired; an
    /// expired entry is dropped.
    pub fn get_at(&mut self, key: &str, now: u64) -> (r: Option<Bytes>)
        requires
            old(self).wf(),
        ensures
            final(self).wf(),
            final(self).clock() == old(self).clock(),
            get_outcome(old(self)@, key@, now, r, final(self)@),
    {
        match self.find(key) {
            Some(i) => {
                proof { lemma_lookup(self.slots@, i as int); }
                if self.slots[i].entry.is_expired(now) {
                    proof { lemma_remove(self.slots@, i as int); }
                    let _ = self.slots.remove(i);
                    None
                } else {
                    Some(self.slots[i].entry.data.clone())
                }
            },
            None => {
                proof { lemma_absent(self.slots@, key@); }
                None
            },
        }
    }

    /// Whether `key` holds a value at `now`; an expired entry is dropped.
    pub fn exists_at(&mut self, key: &str, now: u64) -> (r: bool)
        requires
            old(self).wf(),
        ensures
            final(self).wf(),
            final(self).clock() == old(self).clock(),
            exists_outcome(old(self)@, key@, now, r, final(self)@),
    {
        match self.find(key) {
            Some(i) => {
                proof { lemma_lookup(self.slots@, i as int); }
                if self.slots[i].entry.is_expired(now) {
                    proof { lemma_remove(self.slots@, i as int); }
                    let _ = self.slots.remove(i);
                    false
                } else {
                    true
                }
            },
            None => {
                proof { lemma_absent(self.slots@, key@); }
                false
            },
        }
    }

    /// Gives the value of `key`, if live at `now`, the expiry time `at`; an
    /// expired entry is dropped instead. Tells whether the key was live.
    pub fn expire_at(&mut self, key: &str, at: u64, now: u64) -> (r: bool)
        requires
            old(self).wf(),
        ensures
            final(self).wf(),
            final(self).clock() == old(self).clock(),
            expire_outcome(old(self)@, key@, at, now, r, final(self)@),
    {
        match self.find(key) {
            Some(i) => {
                proof { lemma_lookup(self.slots@, i as int); }
                if self.slots[i].entry.is_expired(now) {
                    proof { lemma_remove(self.slots@, i as int); }
                    let _ = self.slots.remove(i);
                    false
                } else {
                    let data = self.slots[i].entry.data.clone();
                    let slot = Slot { key: key.to_owned(), entry: Entry { data, expires_at: Some(at) } };
                    proof { lemma_update(self.slots@, i as int, slot); }
                    self.slots.set(i, slot);
                    true
                }
            },
            None => {
                proof { lemma_absent(self.slots@, key@); }
                false
            },
        }
    }

    /// The time left from `from` until the expiry time of `key`, judging
    /// whether the entry is live at `at`; an entry expired at `at` is dropped.
    pub fn ttl_at(&mut self, key: &str, at: u64, from: u64) -> (r: Option<u64>)
        requires
            old(self).wf(),
        ensures
            final(self).wf(),
            final(self).clock() == old(self).clock(),
            final(self)@ == purge(old(self)@, key@, at),
            r == ttl_from(old(self)@, key@, at, from),
    {
        match self.find(key) {
            Some(i) => {
                proof { lemma_lookup(self.slots@, i as int); }
                if self.slots[i].entry.is_expired(at) {
                    proof { lemma_remove(self.slots@, i as int); }
                    let _ = self.slots.remove(i);
                    None
                } else {
                    match self.slots[i].entry.expires_at {
                        Some(e) => if e >= from { Some(e - from) } else { None },
                        None => None,
                    }
                }
            },
            None => {
                proof { lemma_absent(self.slots@, key@); }
                None
            },
        }
    }

    /// The time left from `from` until the expiry time of `key`, if the
    /// entry is live now by the store's clock; an entry expired by then is
    /// dropped (see `ttl_at`).
    pub fn ttl(&mut self, key: &str, from: u64) -> (r: Option<u64>)
        requires
            old(self).wf(),
        ensures
            final(self).wf(),
            final(self).clock() >= old(self).clock(),
            final(self)@ == purge(old(self)@, key@, final(self).clock()),
            r == ttl_from(old(self)@, key@, final(self).clock(), from),
    {
        let now = self.now_nanos();
        self.ttl_at(key, now, from)
    }

    /// The value of `key` now, by the store's clock (see `get_at`).
    pub fn get(&mut self, key: &str) -> (r: Option<Bytes>)
        requires
            old(self).wf(),
        ensures
            final(self).wf(),
            final(self).clock() >= old(self).clock(),
            get_outcome(old(self)@, key@, final(self).clock(), r, final(self)@),
    {
        let now = self.now_nanos();
        self.get_at(key, now)
    }

    /// Whether `key` holds a value now, by the store's clock (see `exists_at`).
    pub fn key_exists(&mut self, key: &str) -> (r: bool)
        requires
            old(self).wf(),
        ensures
            final(self).wf(),
            final(self).clock() >= old(self).clock(),
            exists_outcome(old(self)@, key@, final(self).clock(), r, final(self)@),
    {
        let now = self.now_nanos();
        self.exists_at(key, now)
    }

    /// Sets the expiry time of `key` to `at`, judging liveness by the store's
    /// clock now (see `expire_at`).
    pub fn expire(&mut self, key: &str, at: u64) -> (r: bool)
        requires
            old(self).wf(),
        ensures
            final(self).wf(),
            final(self).clock() >= old(self).clock(),
            expire_outcome(old(self)@, key@, at, final(self).clock(), r, final(self)@),
    {
        let now = self.now_nanos();
        self.expire_at(key, at, now)
    }

    /// Removes `key`; tells whether it was there (expired or not).
    pub fn del(&mut self, key: &str) -> (r: bool)
        requires
            old(self).wf(),
        ensures
            final(self).wf(),
            final(self).clock() == old(self).clock(),
            r == old(self)@.contains_key(key@),
            final(self)@ == old(self)@.remove(key@),
    {
        match self.find(key) {
            Some(i) => {
                proof { lemma_remove(self.slots@, i as int); lemma_lookup(self.slots@, i as int); }
                let _ = self.slots.remove(i);
                true
            },
            None => {
                proof {
                    lemma_absent(self.slots@, key@);
                    assert(self@.remove(key@) =~= self@);
                }
                false
            },
        }
    }
}

/// Law: a read of a key right after it was written gives the value written,
/// unless the write's expiry time has been reached, in which case the read
/// finds nothing and drops the entry.
pub proof fn law_read_your_write(
    m: Map<Seq<char>, EntryView>,
    key: Seq<char>,
    value: Seq<u8>,
    expires_at: Option<u64>,
    now: u64,
    r: Option<Bytes>,
    m2: Map<Seq<char>, EntryView>,
)
    requires
        get_outcome(m.insert(key, EntryView { data: value, expires_at }), key, now, r, m2),
    ensures
        !expired(EntryView { data: value, expires_at }, now) ==> (r matches Some(b) && bytes_view(b) == value),
        expired(EntryView { data: value, expires_at }, now) ==> r is None && !m2.contains_key(key),
{
}

/// Law: writing, removing or reading one key changes nothing that a read of
/// any other key sees.
pub proof fn law_other_keys_unaffected(
    m: Map<Seq<char>, EntryView>,
    key: Seq<char>,
    other: Seq<char>,
    e: EntryView,
    now: u64,
    later: u64,
)
    requires
        key != other,
    ensures
        live(m.insert(key, e), other, later) == live(m, other, later),
        live(m.remove(key), other, later) == live(m, other, later),
        live(purge(m, key, now), other, later) == live(m, other, later),
{
}

/// Law: a read never changes what a read at the same time sees, for any key.
pub proof fn law_reads_keep_what_is_live(m: Map<Seq<char>, EntryView>, key: Seq<char>, other: Seq<char>, now: u64)
    ensures
        live(purge(m, key, now), other, now) == live(m, other, now),
{
}

/// Law: after a key is removed, a read of it finds nothing.
pub proof fn law_get_after_del(
    m: Map<Seq<char>, EntryView>,
    key: Seq<char>,
    now: u64,
    r: Option<Bytes>,
    m2: Map<Seq<char>, EntryView>,
)
    requires
        get_outcome(m.remove(key), key, now, r, m2),
    ensures
        r is None,
        m2 == m.remove(key),
{
}

/// Law: a key exists exactly when a read of it at the same time finds a
/// value, and both leave the store alike.
pub proof fn law_exists_iff_get(
    m: Map<Seq<char>, EntryView>,
    key: Seq<char>,
    now: u64,
    found: bool,
    m1: Map<Seq<char>, EntryView>,
    r: Option<Bytes>,
    m2: Map<Seq<char>, EntryView>,
)
    requires
        exists_outcome(m, key, now, found, m1),
        get_outcome(m, key, now, r, m2),
    ensures
        found == r is Some,
        m1 == m2,
{
}

/// Law: once a live key is given the expiry time `at`, the time it has left
/// at any earlier moment is the distance to `at`, and it still holds its
/// value.
pub proof fn law_ttl_after_expire(
    m: Map<Seq<char>, EntryView>,
    key: Seq<char>,
    at: u64,
    now: u64,
    m2: Map<Seq<char>, EntryView>,
    later: u64,
)
    requires
        expire_outcome(m, key, at, now, true, m2),
        later < at,
    ensures
        ttl_of(m2, key, later) == Some((at - later) as u64),
        live(m2, key, later) matches Some(e) && e.data == m[key].data,
{
}

/// Law: giving an expiry time to a key that is not stored fails and changes
/// nothing.
pub proof fn law_expire_missing(
    m: Map<Seq<char>, EntryView>,
    key: Seq<char>,
    at: u64,
    now: u64,
    r: bool,
    m2: Map<Seq<char>, EntryView>,
)
    requires
        !m.contains_key(key),
        expire_outcome(m, key, at, now, r, m2),
    ensures
        !r,
        m2 == m,
{
}

} // verus!
