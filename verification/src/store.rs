//! The local key-value store: least-recently-used eviction under pressure.

use lru::LruCache;
use vstd::prelude::*;
use vstd::slice::slice_to_vec;

use crate::hash::Key;
use crate::lru_cache::{
    has_key, key_index, lru_capacity, lru_entries, lru_get, lru_len, lru_new, lru_pop, lru_pop_lru,
    lru_put,
};
use crate::order::{lemma_filter_all, lemma_filter_one};
use crate::pressure::{
    default_pressure, PressureMonitor, PressureView, PRESSURE_FULL, PRESSURE_THRESHOLD,
};

verus! {

/// The most entries that a store holds.
pub const LOCAL_STORE_MAX_ENTRIES: usize = 100_000;

/// Whether no key occurs twice.
pub open spec fn distinct_keys(entries: Seq<(Key, Seq<u8>)>) -> bool {
    forall|i: int, j: int|
        0 <= i < j < entries.len() ==> (#[trigger] entries[i]).0 != (#[trigger] entries[j]).0
}

/// The entries without the one that has this key.
pub open spec fn without_key(entries: Seq<(Key, Seq<u8>)>, key: Key) -> Seq<(Key, Seq<u8>)> {
    if has_key(entries, key) {
        entries.remove(key_index(entries, key))
    } else {
        entries
    }
}

/// The value under this key.
pub open spec fn value_of(entries: Seq<(Key, Seq<u8>)>, key: Key) -> Option<Seq<u8>> {
    if has_key(entries, key) {
        Some(entries[key_index(entries, key)].1)
    } else {
        None
    }
}

/// The bytes of all values.
pub open spec fn total_bytes(entries: Seq<(Key, Seq<u8>)>) -> nat
    decreases entries.len(),
{
    if entries.len() == 0 {
        0
    } else {
        total_bytes(entries.drop_first()) + entries[0].1.len()
    }
}

/// The pairs of a list, the values as byte strings.
pub open spec fn pairs(list: Seq<(Key, Vec<u8>)>) -> Seq<(Key, Seq<u8>)> {
    Seq::new(list.len(), |i: int| (list[i].0, list[i].1@))
}

/// What a local store holds.
#[verifier::ext_equal]
pub struct StoreView {
    /// The entries, least recently used first.
    pub entries: Seq<(Key, Seq<u8>)>,
    /// How many entries there is room for.
    pub capacity: nat,
    /// The state of the pressure monitor.
    pub pressure: PressureView,
}

impl StoreView {
    /// No key occurs twice, there is room for the most entries that a store holds, and there are
    /// no more entries than that.
    pub open spec fn wf(self) -> bool {
        &&& distinct_keys(self.entries)
        &&& self.capacity == LOCAL_STORE_MAX_ENTRIES
        &&& self.entries.len() <= self.capacity
    }

    /// The store with its pressure computed anew.
    pub open spec fn updated(self) -> StoreView {
        StoreView { pressure: self.pressure.updated(self.entries.len()), ..self }
    }

    /// The store once a pair was put in, before any eviction under pressure. The new entry
    /// is the most recently used; a store without room drops its least recently used. The bytes
    /// of what leaves the store are no longer accounted for.
    pub open spec fn placed(self, key: Key, value: Seq<u8>) -> StoreView {
        let others = without_key(self.entries, key);
        let freed = match value_of(self.entries, key) {
            Some(v) => self.pressure.with_evict(v.len()),
            None => self.pressure,
        };
        let (kept, left) = if others.len() == self.capacity {
            (others.drop_first(), freed.with_evict(others[0].1.len()))
        } else {
            (others, freed)
        };
        (StoreView {
            entries: kept.push((key, value)),
            pressure: left.with_store(value.len()),
            ..self
        }).updated()
    }

    /// The store without its least recently used entry.
    pub open spec fn evicted(self) -> StoreView {
        (StoreView {
            entries: self.entries.drop_first(),
            pressure: self.pressure.with_evict(self.entries[0].1.len()),
            ..self
        }).updated()
    }

    /// The store once the least recently used entries were evicted until the pressure is
    /// acceptable or nothing is left.
    pub open spec fn relieved(self) -> StoreView
        decreases self.entries.len(),
    {
        if self.pressure.is_over_threshold() && self.entries.len() > 0 {
            self.evicted().relieved()
        } else {
            self
        }
    }

    /// The store once a pair was stored.
    pub open spec fn stored(self, key: Key, value: Seq<u8>) -> StoreView {
        let placed = self.placed(key, value);
        let relieved = placed.relieved();
        if relieved.entries.len() < placed.entries.len() {
            StoreView { pressure: relieved.pressure.with_spill(), ..relieved }
        } else {
            relieved
        }
    }

    /// The entries that storing a pair evicts under pressure, least recently used first.
    pub open spec fn spilled(self, key: Key, value: Seq<u8>) -> Seq<(Key, Seq<u8>)> {
        let placed = self.placed(key, value);
        placed.entries.take(placed.entries.len() - placed.relieved().entries.len())
    }

    /// The store once a value was read: its entry becomes the most recently used.
    pub open spec fn read(self, key: Key) -> StoreView {
        if has_key(self.entries, key) {
            let i = key_index(self.entries, key);
            StoreView { entries: self.entries.remove(i).push(self.entries[i]), ..self }
        } else {
            self
        }
    }

    /// The store once a request came in.
    pub open spec fn requested(self, now: u64) -> StoreView {
        (StoreView { pressure: self.pressure.with_request(now), ..self }).updated()
    }

    /// The store with other pressure limits.
    pub open spec fn with_limits(self, disk: nat, memory: nat, requests: nat) -> StoreView {
        StoreView { pressure: self.pressure.with_limits(disk, memory, requests), ..self }
    }
}

/// A key-value store with least-recently-used eviction.
pub struct LocalStore {
    cache: LruCache<Key, Vec<u8>>,
    pressure: PressureMonitor,
}

impl View for LocalStore {
    type V = StoreView;

    closed spec fn view(&self) -> StoreView {
        StoreView {
            entries: lru_entries(self.cache),
            capacity: lru_capacity(self.cache),
            pressure: self.pressure@,
        }
    }
}

impl LocalStore {
    /// The store's invariant.
    pub open spec fn wf(&self) -> bool {
        self@.wf()
    }

    /// Creates an empty store of the default capacity and limits.
    pub fn new() -> (store: Self)
        ensures
            store.wf(),
            store@.entries == Seq::<(Key, Seq<u8>)>::empty(),
            store@.capacity == LOCAL_STORE_MAX_ENTRIES,
            store@.pressure == default_pressure(),
    {
        LocalStore { cache: lru_new(LOCAL_STORE_MAX_ENTRIES), pressure: PressureMonitor::new() }
    }

    /// Replaces the pressure limits.
    pub fn override_limits(&mut self, disk_limit: usize, memory_limit: usize, request_limit: usize)
        ensures
            final(self)@ == old(self)@.with_limits(
                disk_limit as nat,
                memory_limit as nat,
                request_limit as nat,
            ),
    {
        self.pressure.set_limits(disk_limit, memory_limit, request_limit);
    }

    /// Records a request that came in at `now`.
    pub fn record_request(&mut self, now: u64)
        ensures
            final(self)@ == old(self)@.requested(now),
    {
        self.pressure.record_request(now);
        let len = lru_len(&self.cache);
        self.pressure.update_pressure(len);
    }

    /// Stores a pair, evicts entries while the pressure is too high, and returns what was
    /// evicted.
    pub fn store(&mut self, key: Key, value: &[u8]) -> (spilled: Vec<(Key, Vec<u8>)>)
        requires
            old(self).wf(),
        ensures
            final(self).wf(),
            final(self)@ == old(self)@.stored(key, value@),
            pairs(spilled@) == old(self)@.spilled(key, value@),
    {
        let ghost before = self@;
        match lru_pop(&mut self.cache, &key) {
            Some(existing) => {
                self.pressure.record_evict(existing.len());
            },
            None => {},
        }
        proof {
            lemma_without_key(before.entries, key);
        }
        if lru_len(&self.cache) == LOCAL_STORE_MAX_ENTRIES {
            match lru_pop_lru(&mut self.cache) {
                Some((_, dropped)) => {
                    self.pressure.record_evict(dropped.len());
                },
                None => {},
            }
        }
        let data = slice_to_vec(value);
        self.pressure.record_store(data.len());
        let _ = lru_put(&mut self.cache, key, data);
        let len = lru_len(&self.cache);
        self.pressure.update_pressure(len);

        let ghost placed = self@;
        assert(placed =~= before.placed(key, value@));
        proof {
            lemma_placed_wf(before, key, value@);
            lemma_relieved(placed);
            assert(placed.entries.skip(0) =~= placed.entries);
            assert(placed.entries.take(0) =~= Seq::empty());
        }
        let mut spilled: Vec<(Key, Vec<u8>)> = Vec::new();
        assert(pairs(spilled@) =~= placed.entries.take(0));
        while self.pressure.is_over_threshold()
            invariant
                placed.wf(),
                self@.capacity == placed.capacity,
                self@.relieved() == placed.relieved(),
                spilled@.len() <= placed.entries.len(),
                self@.entries == placed.entries.skip(spilled@.len() as int),
                pairs(spilled@) == placed.entries.take(spilled@.len() as int),
                spilled@.len() == 0 ==> self@ == placed,
            ensures
                self@ == placed.relieved(),
            decreases self@.entries.len(),
        {
            let ghost here = self@;
            let ghost n = spilled@.len() as int;
            match lru_pop_lru(&mut self.cache) {
                Some((evicted_key, evicted_val)) => {
                    self.pressure.record_evict(evicted_val.len());
                    let len = lru_len(&self.cache);
                    self.pressure.update_pressure(len);
                    assert(self@ =~= here.evicted());
                    spilled.push((evicted_key, evicted_val));
                    assert(placed.entries.skip(n).drop_first() =~= placed.entries.skip(n + 1));
                    assert(pairs(spilled@) =~= placed.entries.take(n + 1));
                },
                None => {
                    assert(self@ =~= here);
                    break;
                },
            }
        }
        if spilled.len() > 0 {
            self.pressure.record_spill();
        }
        spilled
    }

    /// Reads a value and makes its entry the most recently used.
    pub fn get(&mut self, key: &Key) -> (value: Option<Vec<u8>>)
        requires
            old(self).wf(),
        ensures
            final(self).wf(),
            final(self)@ == old(self)@.read(*key),
            match value {
                Some(v) => value_of(old(self)@.entries, *key) == Some(v@),
                None => value_of(old(self)@.entries, *key) is None,
            },
    {
        let ghost before = self@;
        let value = lru_get(&mut self.cache, key);
        proof {
            assert(self@ =~= before.read(*key));
            lemma_read_wf(before, *key);
        }
        value
    }

    /// The pressure as it was computed last, in billionths; none where it meant nothing.
    pub fn current_pressure(&self) -> (pressure: Option<u64>)
        ensures
            match pressure {
                Some(p) => self@.pressure.pressure == Some(p as nat),
                None => self@.pressure.pressure is None,
            },
    {
        self.pressure.current_pressure()
    }

    /// The number of entries.
    pub fn len(&self) -> (len: usize)
        ensures
            len == self@.entries.len(),
    {
        lru_len(&self.cache)
    }
}

proof fn lemma_without_key(entries: Seq<(Key, Seq<u8>)>, key: Key)
    requires
        distinct_keys(entries),
    ensures
        distinct_keys(without_key(entries, key)),
        !has_key(without_key(entries, key), key),
        has_key(entries, key) ==> without_key(entries, key).len() == entries.len() - 1,
        forall|k: Key|
            k != key ==> (#[trigger] has_key(without_key(entries, key), k) <==> has_key(entries, k)),
{
    if has_key(entries, key) {
        let p = key_index(entries, key);
        let rest = entries.remove(p);
        assert forall|j: int| 0 <= j < rest.len() implies #[trigger] rest[j] == entries[if j < p {
            j
        } else {
            j + 1
        }] by {}
        assert forall|j: int| 0 <= j < rest.len() implies (#[trigger] rest[j]).0 != key by {
            let m = if j < p { j } else { j + 1 };
            assert(rest[j] == entries[m]);
        }
        assert forall|k: Key| k != key implies (#[trigger] has_key(rest, k) <==> has_key(
            entries,
            k,
        )) by {
            if has_key(entries, k) {
                let i = choose|i: int| 0 <= i < entries.len() && #[trigger] entries[i].0 == k;
                let j = if i < p { i } else { i - 1 };
                assert(rest[j].0 == k);
            }
        }
    }
}

proof fn lemma_placed_wf(store: StoreView, key: Key, value: Seq<u8>)
    requires
        store.wf(),
    ensures
        store.placed(key, value).wf(),
{
    lemma_without_key(store.entries, key);
    let others = without_key(store.entries, key);
    let kept = if others.len() == store.capacity {
        others.drop_first()
    } else {
        others
    };
    let d = others.len() - kept.len();
    let all = store.placed(key, value).entries;
    assert forall|i: int| 0 <= i < kept.len() implies #[trigger] all[i] == others[i + d] by {}
    assert forall|i: int| 0 <= i < kept.len() implies (#[trigger] all[i]).0 != key by {
        assert(others[i + d].0 != key);
    }
}

/// Reading keeps the store's invariant, its keys and their values.
pub proof fn lemma_read_wf(store: StoreView, key: Key)
    requires
        store.wf(),
    ensures
        store.read(key).wf(),
        forall|k: Key| #[trigger]
            value_of(store.read(key).entries, k) == value_of(store.entries, k),
{
    if has_key(store.entries, key) {
        let entries = store.entries;
        let p = key_index(entries, key);
        let after = store.read(key).entries;
        let n = entries.len();
        assert forall|j: int| 0 <= j < n implies #[trigger] after[j] == entries[if j < p {
            j
        } else if j < n - 1 {
            j + 1
        } else {
            p
        }] by {}
        assert forall|k: Key| #[trigger] value_of(after, k) == value_of(entries, k) by {
            if has_key(entries, k) {
                let i = key_index(entries, k);
                let j = if i < p {
                    i
                } else if i == p {
                    n - 1
                } else {
                    i - 1
                };
                assert(after[j].0 == k);
                assert(has_key(after, k));
                lemma_value_at(after, j);
                lemma_value_at(entries, i);
            } else if has_key(after, k) {
                let j = key_index(after, k);
                let i = if j < p {
                    j
                } else if j < n - 1 {
                    j + 1
                } else {
                    p
                };
                assert(entries[i].0 == k);
            }
        }
    }
}

/// An entry's value is the value under its key.
pub proof fn lemma_value_at(entries: Seq<(Key, Seq<u8>)>, i: int)
    requires
        distinct_keys(entries),
        0 <= i < entries.len(),
    ensures
        value_of(entries, entries[i].0) == Some(entries[i].1),
{
    let key = entries[i].0;
    assert(has_key(entries, key));
    let j = key_index(entries, key);
    assert(0 <= j < entries.len() && entries[j].0 == key);
    if i < j {
        assert(entries[i].0 != entries[j].0);
    }
    if j < i {
        assert(entries[j].0 != entries[i].0);
    }
}

/// Eviction under pressure takes entries from the least recently used end, and stops only
/// once the pressure is acceptable or nothing is left.
pub proof fn lemma_relieved(store: StoreView)
    requires
        store.wf(),
    ensures
        store.relieved().wf(),
        store.relieved().capacity == store.capacity,
        store.relieved().entries.len() <= store.entries.len(),
        store.relieved().entries == store.entries.skip(
            store.entries.len() - store.relieved().entries.len(),
        ),
        !store.relieved().pressure.is_over_threshold() || store.relieved().entries.len() == 0,
        store.relieved().entries.len() == store.entries.len() ==> store.relieved() == store,
    decreases store.entries.len(),
{
    if store.pressure.is_over_threshold() && store.entries.len() > 0 {
        let next = store.evicted();
        assert(distinct_keys(next.entries)) by {
            assert forall|i: int, j: int| 0 <= i < j < next.entries.len() implies (
            #[trigger] next.entries[i]).0 != (#[trigger] next.entries[j]).0 by {
                assert(store.entries[i + 1].0 != store.entries[j + 1].0);
            }
        }
        lemma_relieved(next);
        assert(store.relieved().entries =~= store.entries.skip(
            store.entries.len() - store.relieved().entries.len(),
        ));
    } else {
        assert(store.entries.skip(0) =~= store.entries);
    }
}

/// What was stored is either read back or among the spilled entries, where it comes last.
pub proof fn lemma_stored_or_spilled(store: StoreView, key: Key, value: Seq<u8>)
    requires
        store.wf(),
    ensures
        store.stored(key, value).wf(),
        store.stored(key, value).entries.len() > 0 ==> value_of(
            store.stored(key, value).entries,
            key,
        ) == Some(value),
        store.stored(key, value).entries.len() == 0 ==> store.spilled(key, value).len() > 0
            && store.spilled(key, value).last() == (key, value),
{
    lemma_placed_wf(store, key, value);
    let placed = store.placed(key, value);
    lemma_relieved(placed);
    let after = store.stored(key, value).entries;
    assert(placed.entries.last() == (key, value));
    if after.len() > 0 {
        assert(after.last() == (key, value));
        lemma_value_at(after, after.len() - 1);
    } else {
        assert(store.spilled(key, value) =~= placed.entries);
    }
}

/// Whatever a store holds after storing a pair, and whatever is spilled for it, is that pair
/// or was stored before.
pub proof fn lemma_stored_subset(store: StoreView, key: Key, value: Seq<u8>)
    requires
        store.wf(),
    ensures
        forall|e: (Key, Seq<u8>)| #[trigger]
            store.stored(key, value).entries.contains(e) ==> e == (key, value)
                || store.entries.contains(e),
        forall|e: (Key, Seq<u8>)| #[trigger]
            store.spilled(key, value).contains(e) ==> e == (key, value) || store.entries.contains(
                e,
            ),
{
    lemma_placed_wf(store, key, value);
    let placed = store.placed(key, value).entries;
    lemma_relieved(store.placed(key, value));
    let after = store.stored(key, value).entries;
    let spilled = store.spilled(key, value);
    let others = without_key(store.entries, key);
    let dropped = if others.len() == store.capacity { 1int } else { 0int };
    assert forall|i: int| 0 <= i < placed.len() - 1 implies store.entries.contains(
        #[trigger] placed[i],
    ) by {
        let j = i + dropped;
        assert(placed[i] == others[j]);
        if has_key(store.entries, key) {
            let p = key_index(store.entries, key);
            let m = if j < p { j } else { j + 1 };
            assert(store.entries[m] == placed[i]);
        }
    }
    assert forall|e: (Key, Seq<u8>)| #[trigger] after.contains(e) implies e == (key, value)
        || store.entries.contains(e) by {
        let i = choose|i: int| 0 <= i < after.len() && after[i] == e;
        let m = i + placed.len() - after.len();
        assert(placed[m] == e);
    }
    assert forall|e: (Key, Seq<u8>)| #[trigger] spilled.contains(e) implies e == (key, value)
        || store.entries.contains(e) by {
        let i = choose|i: int| 0 <= i < spilled.len() && spilled[i] == e;
        assert(placed[i] == e);
    }
}

/// Storing under one key leaves the value under another as it was, unless that entry was
/// spilled, or was the least recently used one of a store without room.
pub proof fn lemma_store_leaves_other_keys(
    store: StoreView,
    key: Key,
    value: Seq<u8>,
    other: Key,
)
    requires
        store.wf(),
        other != key,
    ensures
        value_of(store.stored(key, value).entries, other) matches Some(v) ==> value_of(
            store.entries,
            other,
        ) == Some(v),
        value_of(store.entries, other) matches Some(v) ==> {
            ||| value_of(store.stored(key, value).entries, other) == Some(v)
            ||| store.spilled(key, value).contains((other, v))
            ||| store.entries.len() == store.capacity && !has_key(store.entries, key)
                && store.entries[0] == (other, v)
        },
{
    lemma_without_key(store.entries, key);
    lemma_placed_wf(store, key, value);
    let placed = store.placed(key, value);
    lemma_relieved(placed);
    let after = store.stored(key, value).entries;
    let spilled = store.spilled(key, value);
    let others = without_key(store.entries, key);
    let dropped = if others.len() == store.capacity { 1int } else { 0int };
    let cut = placed.entries.len() - after.len();
    let p = if has_key(store.entries, key) { key_index(store.entries, key) } else { others.len() as int };
    assert forall|j: int| 0 <= j < others.len() implies #[trigger] others[j] == store.entries[if j
        < p {
        j
    } else {
        j + 1
    }] by {}
    if has_key(store.entries, other) {
        let i = key_index(store.entries, other);
        let v = store.entries[i].1;
        let j = if i < p { i } else { i - 1 };
        assert(others[j] == store.entries[i]);
        if j >= dropped {
            let m = j - dropped;
            assert(placed.entries[m] == others[j]);
            if m < cut {
                assert(spilled[m] == (other, v));
            } else {
                assert(after[m - cut] == (other, v));
                lemma_value_at(after, m - cut);
            }
        }
    }
    if has_key(after, other) {
        let m = key_index(after, other);
        assert(after[m] == placed.entries[m + cut]);
        let j = m + cut + dropped;
        assert(others[j] == after[m]);
        let i = if j < p { j } else { j + 1 };
        assert(store.entries[i] == after[m]);
        lemma_value_at(store.entries, i);
    }
}

/// Storing leaves the store at an acceptable pressure, or empty. Where nothing is spilled
/// that is the pressure on record; where something is, full pressure is on record.
pub proof fn lemma_store_relieves_pressure(store: StoreView, key: Key, value: Seq<u8>)
    requires
        store.wf(),
    ensures
        ({
            let after = store.stored(key, value);
            let measured = after.pressure.updated(after.entries.len());
            &&& !measured.is_over_threshold() || after.entries.len() == 0
            &&& after.entries.len() > 0 ==> (measured.pressure matches Some(p) ==> 10 * p <= 8
                * PRESSURE_FULL)
            &&& store.spilled(key, value).len() > 0 ==> after.pressure.pressure == Some(
                PRESSURE_FULL as nat,
            )
            &&& if store.spilled(key, value).len() == 0 {
                after.pressure == measured
            } else {
                after.pressure == measured.with_spill()
            }
        }),
{
    lemma_placed_wf(store, key, value);
    let placed = store.placed(key, value);
    lemma_relieved(placed);
    lemma_relieved_is_measured(placed);
}

proof fn lemma_relieved_is_measured(store: StoreView)
    requires
        store.pressure == store.pressure.updated(store.entries.len()),
    ensures
        store.relieved().pressure == store.relieved().pressure.updated(
            store.relieved().entries.len(),
        ),
    decreases store.entries.len(),
{
    if store.pressure.is_over_threshold() && store.entries.len() > 0 {
        lemma_relieved_is_measured(store.evicted());
    }
}

/// The bytes on record stay the bytes of the stored values, as long as these can be counted.
pub proof fn lemma_bytes_accounted(store: StoreView, key: Key, value: Seq<u8>)
    requires
        store.wf(),
        store.pressure.bytes == total_bytes(store.entries),
        total_bytes(store.entries) + value.len() <= usize::MAX,
    ensures
        store.stored(key, value).pressure.bytes == total_bytes(store.stored(key, value).entries),
{
    lemma_placed_accounted(store, key, value);
    lemma_relieved_accounted(store.placed(key, value));
}

proof fn lemma_placed_accounted(store: StoreView, key: Key, value: Seq<u8>)
    requires
        store.wf(),
        store.pressure.bytes == total_bytes(store.entries),
        total_bytes(store.entries) + value.len() <= usize::MAX,
    ensures
        store.placed(key, value).pressure.bytes == total_bytes(store.placed(key, value).entries),
{
    lemma_without_key(store.entries, key);
    if has_key(store.entries, key) {
        lemma_total_bytes_remove(store.entries, key_index(store.entries, key));
    }
    let others = without_key(store.entries, key);
    lemma_total_bytes_push(others, (key, value));
    lemma_total_bytes_push(others.drop_first(), (key, value));
}

proof fn lemma_relieved_accounted(store: StoreView)
    requires
        store.pressure.bytes == total_bytes(store.entries),
    ensures
        store.relieved().pressure.bytes == total_bytes(store.relieved().entries),
    decreases store.entries.len(),
{
    if store.pressure.is_over_threshold() && store.entries.len() > 0 {
        lemma_relieved_accounted(store.evicted());
    }
}

proof fn lemma_total_bytes_push(entries: Seq<(Key, Seq<u8>)>, entry: (Key, Seq<u8>))
    ensures
        total_bytes(entries.push(entry)) == total_bytes(entries) + entry.1.len(),
    decreases entries.len(),
{
    if entries.len() == 0 {
        assert(entries.push(entry).drop_first() =~= Seq::empty());
        assert(total_bytes(entries.push(entry).drop_first()) == 0);
    } else {
        lemma_total_bytes_push(entries.drop_first(), entry);
        assert(entries.push(entry).drop_first() =~= entries.drop_first().push(entry));
    }
}

proof fn lemma_total_bytes_remove(entries: Seq<(Key, Seq<u8>)>, i: int)
    requires
        0 <= i < entries.len(),
    ensures
        total_bytes(entries.remove(i)) + entries[i].1.len() == total_bytes(entries),
    decreases entries.len(),
{
    if i == 0 {
        assert(entries.remove(0) =~= entries.drop_first());
    } else {
        lemma_total_bytes_remove(entries.drop_first(), i - 1);
        assert(entries.remove(i).drop_first() =~= entries.drop_first().remove(i - 1));
        assert(entries.remove(i)[0] == entries[0]);
    }
}

/// Whether an entry is under another key than this one.
pub open spec fn has_other_key(key: Key) -> spec_fn((Key, Seq<u8>)) -> bool {
    |e: (Key, Seq<u8>)| e.0 != key
}

/// The entries under other keys than this one, in their order.
pub open spec fn others_than(entries: Seq<(Key, Seq<u8>)>, key: Key) -> Seq<(Key, Seq<u8>)> {
    entries.filter(has_other_key(key))
}

proof fn lemma_others_than(entries: Seq<(Key, Seq<u8>)>, key: Key)
    requires
        distinct_keys(entries),
    ensures
        without_key(entries, key) == others_than(entries, key),
{
    let pred = has_other_key(key);
    if has_key(entries, key) {
        let p = key_index(entries, key);
        assert(0 <= p < entries.len() && entries[p].0 == key);
        assert forall|i: int| 0 <= i < entries.len() && i != p implies pred(
            #[trigger] entries[i],
        ) by {
            if i < p {
                assert(entries[i].0 != entries[p].0);
            } else {
                assert(entries[p].0 != entries[i].0);
            }
        }
        lemma_filter_one(entries, pred, p);
    } else {
        assert forall|i: int| 0 <= i < entries.len() implies pred(#[trigger] entries[i]) by {
            assert(entries[i].0 != key || has_key(entries, key));
        }
        lemma_filter_all(entries, pred);
    }
}

/// Storing makes the pair the most recently used and leaves the other entries in their order. What
/// is spilled comes from the least recently used end, and what stays follows it: together they are
/// all other entries and then the pair, without the first one where a full store had no room.
pub proof fn lemma_store_is_least_recently_used(store: StoreView, key: Key, value: Seq<u8>)
    requires
        store.wf(),
    ensures
        ({
            let others = others_than(store.entries, key);
            let spilled = store.spilled(key, value);
            let after = store.stored(key, value);
            &&& spilled + after.entries == (if others.len() == store.capacity {
                others.drop_first()
            } else {
                others
            }).push((key, value))
            &&& after.capacity == store.capacity
        }),
{
    lemma_others_than(store.entries, key);
    lemma_placed_wf(store, key, value);
    let placed = store.placed(key, value);
    lemma_relieved(placed);
    assert(store.spilled(key, value) + store.stored(key, value).entries =~= placed.entries);
}

/// Reading makes an entry the most recently used and leaves the others in their order; reading what
/// is not there changes nothing. The pressure on record stays.
pub proof fn lemma_read_makes_most_recent(store: StoreView, key: Key)
    requires
        store.wf(),
    ensures
        store.read(key).entries == match value_of(store.entries, key) {
            Some(v) => others_than(store.entries, key).push((key, v)),
            None => store.entries,
        },
        store.read(key).capacity == store.capacity,
        store.read(key).pressure == store.pressure,
{
    lemma_others_than(store.entries, key);
    if has_key(store.entries, key) {
        let p = key_index(store.entries, key);
        assert(0 <= p < store.entries.len() && store.entries[p].0 == key);
    }
}

/// The value under a key is that of the one entry with the key.
pub proof fn lemma_value_of(entries: Seq<(Key, Seq<u8>)>, key: Key, value: Seq<u8>)
    requires
        distinct_keys(entries),
    ensures
        value_of(entries, key) == Some(value) <==> entries.contains((key, value)),
        value_of(entries, key) is None <==> !has_key(entries, key),
{
    if entries.contains((key, value)) {
        let i = choose|i: int| 0 <= i < entries.len() && entries[i] == (key, value);
        lemma_value_at(entries, i);
    }
    if has_key(entries, key) {
        let p = key_index(entries, key);
        assert(0 <= p < entries.len() && entries[p].0 == key);
        if value_of(entries, key) == Some(value) {
            assert(entries[p] == (key, value));
        }
    }
}

/// No more is spilled than the pressure calls for: with the entry that was spilled last still in
/// the store, the pressure would be too high.
pub proof fn lemma_spills_no_more_than_needed(store: StoreView, key: Key, value: Seq<u8>)
    requires
        store.wf(),
        store.pressure.bytes == total_bytes(store.entries),
        total_bytes(store.entries) + value.len() <= usize::MAX,
    ensures
        ({
            let after = store.stored(key, value);
            let spilled = store.spilled(key, value);
            let more = seq![spilled.last()] + after.entries;
            let loaded = PressureView { bytes: total_bytes(more), ..after.pressure };
            spilled.len() > 0 ==> (loaded.measured(more.len()) matches Some(p) && p
                > PRESSURE_THRESHOLD)
        }),
{
    lemma_without_key(store.entries, key);
    lemma_placed_wf(store, key, value);
    let placed = store.placed(key, value);
    lemma_placed_accounted(store, key, value);
    lemma_relieved(placed);
    let spilled = store.spilled(key, value);
    if spilled.len() > 0 {
        lemma_last_spill_was_needed(placed);
        let n = placed.entries.len() - placed.relieved().entries.len();
        assert(seq![spilled.last()] + placed.relieved().entries =~= placed.entries.skip(n - 1));
    }
}

proof fn lemma_last_spill_was_needed(store: StoreView)
    requires
        store.wf(),
        store.pressure == store.pressure.updated(store.entries.len()),
        store.pressure.bytes == total_bytes(store.entries),
        store.relieved().entries.len() < store.entries.len(),
    ensures
        ({
            let after = store.relieved();
            let more = store.entries.skip(store.entries.len() - after.entries.len() - 1);
            let loaded = PressureView { bytes: total_bytes(more), ..after.pressure };
            loaded.measured(more.len()) matches Some(p) && p > PRESSURE_THRESHOLD
        }),
    decreases store.entries.len(),
{
    let next = store.evicted();
    let after = store.relieved();
    assert(distinct_keys(next.entries)) by {
        assert forall|i: int, j: int| 0 <= i < j < next.entries.len() implies (
        #[trigger] next.entries[i]).0 != (#[trigger] next.entries[j]).0 by {
            assert(store.entries[i + 1].0 != store.entries[j + 1].0);
        }
    }
    lemma_relieved(next);
    if after.entries.len() == next.entries.len() {
        assert(store.entries.skip(0) =~= store.entries);
    } else {
        lemma_last_spill_was_needed(next);
        let n = store.entries.len() - after.entries.len();
        assert(next.entries.skip(n - 2) =~= store.entries.skip(n - 1));
    }
}

/// Storing a value changes neither the requests that count nor any limit.
pub proof fn lemma_stored_keeps_requests(store: StoreView, key: Key, value: Seq<u8>)
    ensures
        ({
            let after = store.stored(key, value).pressure;
            after == (PressureView {
                bytes: after.bytes,
                pressure: after.pressure,
                ..store.pressure
            })
        }),
{
    lemma_relieved_keeps_requests(store.placed(key, value));
}

proof fn lemma_relieved_keeps_requests(store: StoreView)
    ensures
        ({
            let after = store.relieved().pressure;
            after == (PressureView {
                bytes: after.bytes,
                pressure: after.pressure,
                ..store.pressure
            })
        }),
    decreases store.entries.len(),
{
    if store.pressure.is_over_threshold() && store.entries.len() > 0 {
        lemma_relieved_keeps_requests(store.evicted());
    }
}

/// The pressure on record is that of the current loads after every request, every new entry and
/// every eviction. Other limits tell only from the next of these on.
pub proof fn lemma_pressure_is_current(
    store: StoreView,
    key: Key,
    value: Seq<u8>,
    now: u64,
    limit: nat,
)
    ensures
        ({
            let asked = store.requested(now);
            asked.pressure.pressure == asked.pressure.measured(asked.entries.len())
                && asked.entries == store.entries
        }),
        ({
            let placed = store.placed(key, value);
            placed.pressure.pressure == placed.pressure.measured(placed.entries.len())
        }),
        store.entries.len() > 0 ==> {
            let evicted = store.evicted();
            evicted.pressure.pressure == evicted.pressure.measured(evicted.entries.len())
        },
        store.with_limits(limit, limit, limit).pressure.pressure == store.pressure.pressure,
        store.with_limits(limit, limit, limit).entries == store.entries,
{
}

} // verus!
