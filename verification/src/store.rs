//! The key-value store that the server keeps: string keys, string values,
//! and for some keys a deadline after which the key is gone.
use vstd::hash_map::StringHashMap;
use vstd::prelude::*;
use std::time::Instant;

verus! {

/// std's reading of the monotonic clock, which the store holds as the
/// start of its own clock; nothing inside it is visible.
#[verifier::external_type_specification]
#[verifier::external_body]
pub struct ExInstant(Instant);

/// `Instant::now`: a reading of the monotonic clock. Nothing is claimed of
/// the instant it returns.
#[verifier::external_body]
fn clock_now() -> Instant {
    Instant::now()
}

/// `Instant::elapsed`, in whole milliseconds. Nothing is claimed of the
/// result: it depends on the time of the call.
#[verifier::external_body]
fn millis_since(start: &Instant) -> u128 {
    start.elapsed().as_millis()
}

/// The contents of a store: the value of each key, and the deadline of the
/// keys that expire, in milliseconds of the store's clock.
pub struct StoreView {
    pub values: Map<Seq<char>, Seq<char>>,
    pub deadlines: Map<Seq<char>, u128>,
}

/// The empty store.
pub open spec fn empty_store() -> StoreView {
    StoreView { values: Map::empty(), deadlines: Map::empty() }
}

/// True when `key` has a deadline and the time `now` has reached it.
pub open spec fn is_expired(store: StoreView, key: Seq<char>, now: u128) -> bool {
    store.deadlines.contains_key(key) && now >= store.deadlines[key]
}

/// The value that a read of `key` at time `now` finds: the stored one,
/// unless there is none or it has expired.
pub open spec fn lookup(store: StoreView, key: Seq<char>, now: u128) -> Option<Seq<char>> {
    if store.values.contains_key(key) && !is_expired(store, key, now) {
        Some(store.values[key])
    } else {
        None
    }
}

/// The store after a read of `key` at time `now`: an expired key is removed
/// with its deadline, anything else is kept.
pub open spec fn after_read(store: StoreView, key: Seq<char>, now: u128) -> StoreView {
    if is_expired(store, key, now) {
        StoreView { values: store.values.remove(key), deadlines: store.deadlines.remove(key) }
    } else {
        store
    }
}

/// The store after `key` is set to `value` with no deadline.
pub open spec fn after_set(store: StoreView, key: Seq<char>, value: Seq<char>) -> StoreView {
    StoreView { values: store.values.insert(key, value), deadlines: store.deadlines.remove(key) }
}

/// The deadline of a key set at time `now` to live `seconds` seconds, held
/// at the largest `u128` where the sum would not fit.
pub open spec fn deadline(now: u128, seconds: u64) -> u128 {
    if now + seconds * 1000 > u128::MAX {
        u128::MAX
    } else {
        (now + seconds * 1000) as u128
    }
}

/// The store after `key` is set to `value` at time `now`, to live `seconds`
/// seconds.
pub open spec fn after_set_with_expiry(
    store: StoreView,
    key: Seq<char>,
    value: Seq<char>,
    seconds: u64,
    now: u128,
) -> StoreView {
    StoreView {
        values: store.values.insert(key, value),
        deadlines: store.deadlines.insert(key, deadline(now, seconds)),
    }
}

/// The view of an optional string.
pub open spec fn opt_view(r: Option<String>) -> Option<Seq<char>> {
    match r {
        Some(s) => Some(s@),
        None => None,
    }
}

/// A store of string values under string keys, some of which expire.
pub struct Store {
    data: StringHashMap<String>,
    deadlines: StringHashMap<u128>,
    started: Instant,
    latest: u128,
}

impl View for Store {
    type V = StoreView;

    closed spec fn view(&self) -> StoreView {
        StoreView {
            values: self.data@.map_values(|s: String| s@),
            deadlines: self.deadlines@,
        }
    }
}

impl Store {
    /// The latest reading of the store's clock, in milliseconds: no later
    /// reading is earlier.
    pub closed spec fn clock_floor(&self) -> u128 {
        self.latest
    }

    /// An empty store, whose clock starts now.
    pub fn new() -> (r: Store)
        ensures
            r@ == empty_store(),
            r.clock_floor() == 0,
    {
        let r = Store {
            data: StringHashMap::new(),
            deadlines: StringHashMap::new(),
            started: clock_now(),
            latest: 0,
        };
        assert(r@.values =~= Map::<Seq<char>, Seq<char>>::empty());
        r
    }

    /// The milliseconds that the store's clock has run. The reading itself
    /// depends on the time of the call; it is never earlier than a reading
    /// before it, and becomes the latest reading.
    pub(crate) fn elapsed_millis(&mut self) -> (r: u128)
        ensures
            r >= old(self).clock_floor(),
            final(self).clock_floor() == r,
            final(self)@ == old(self)@,
    {
        let reading = millis_since(&self.started);
        if reading > self.latest {
            self.latest = reading;
        }
        self.latest
    }

    /// Sets `key` to `value`, with no deadline.
    pub fn set(&mut self, key: String, value: String)
        ensures
            final(self)@ == after_set(old(self)@, key@, value@),
            final(self).clock_floor() == old(self).clock_floor(),
    {
        self.deadlines.remove(key.as_str());
        self.data.insert(key, value);
        assert(final(self)@.values =~= old(self)@.values.insert(key@, value@));
    }

    /// Sets `key` to `value` at time `now`, to live `seconds` seconds.
    pub fn set_with_expiry_at(&mut self, key: String, value: String, seconds: u64, now: u128)
        ensures
            final(self)@ == after_set_with_expiry(old(self)@, key@, value@, seconds, now),
            final(self).clock_floor() == old(self).clock_floor(),
    {
        let span: u128 = (seconds as u128) * 1000;
        let limit = now.saturating_add(span);
        self.deadlines.insert(key.clone(), limit);
        self.data.insert(key, value);
        assert(final(self)@.values =~= old(self)@.values.insert(key@, value@));
    }

    /// Sets `key` to `value` now, to live `seconds` seconds.
    pub fn set_with_expiry(&mut self, key: String, value: String, seconds: u64)
        ensures
            exists|now: u128|
                now >= old(self).clock_floor() && final(self).clock_floor() == now && final(self)@
                    == after_set_with_expiry(old(self)@, key@, value@, seconds, now),
    {
        let now = self.elapsed_millis();
        self.set_with_expiry_at(key, value, seconds, now);
    }

    /// The value of `key` at time `now`: `None` where the key is absent or
    /// has expired; an expired key is removed.
    pub fn get_at(&mut self, key: String, now: u128) -> (r: Option<String>)
        ensures
            opt_view(r) == lookup(old(self)@, key@, now),
            final(self)@ == after_read(old(self)@, key@, now),
            final(self).clock_floor() == old(self).clock_floor(),
    {
        let expired = match self.deadlines.get(key.as_str()) {
            Some(limit) => now >= *limit,
            None => false,
        };
        if expired {
            self.deadlines.remove(key.as_str());
            self.data.remove(key.as_str());
            assert(final(self)@.values =~= old(self)@.values.remove(key@));
            None
        } else {
            match self.data.get(key.as_str()) {
                Some(v) => Some(v.clone()),
                None => None,
            }
        }
    }

    /// The value of `key` now: `None` where the key is absent or has
    /// expired; an expired key is removed.
    pub fn get(&mut self, key: String) -> (r: Option<String>)
        ensures
            exists|now: u128|
                now >= old(self).clock_floor() && final(self).clock_floor() == now && opt_view(r)
                    == lookup(old(self)@, key@, now) && final(self)@ == after_read(
                    old(self)@,
                    key@,
                    now,
                ),
    {
        let now = self.elapsed_millis();
        self.get_at(key, now)
    }
}

} // verus!
