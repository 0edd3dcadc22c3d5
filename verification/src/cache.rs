//! The cache itself: shards, recency index, memory accountant and eviction
//! engine behind `put` and `get`.
//!
//! With inline eviction, a pass runs inside the `put` that pushes the bytes
//! charged above the high watermark, so the cache is back at or below the
//! low watermark when that `put` returns, unless the entry just written is
//! alone too large. With deferred eviction, `put` only writes, as long as the
//! byte count stays clear of the machine limit, and the owner of the cache
//! calls `run_eviction` when it sees fit.

use crate::accountant::MemoryAccountant;
use crate::config::{Config, EvictionMode};
use crate::eviction::{step, Action, EvictionState, PassOutcome};
use crate::model::{
    after_put, distinct_keys, evicted, has_key, item_size, lemma_evicted_stops,
    lemma_evicted_unfold, lemma_position_unique, lemma_settled_bound, lemma_total_drop_first,
    lemma_written, lemma_written_keeps_order, lookup, next_tick, pass_after_put, position,
    refreshed, stamps_ordered, store_ok, sweep_outcome, swept, total_size, within_limits, written,
    Item,
};
use crate::recency::{lemma_moved_to_back, touched_order, RecencyIndex};
use crate::shard::{Entry, EntryView};
use crate::shard_set::ShardSet;
use vstd::prelude::*;

verus! {

/// What a successful `put` did.
#[derive(Clone, Copy, Debug, PartialEq, Eq)]
pub enum WriteOutcome {
    /// The key was not in the cache before.
    Inserted,
    /// The key was in the cache and its value was replaced.
    Updated,
}

/// Why a request was rejected. A rejected request changes nothing.
#[derive(Clone, Copy, Debug, PartialEq, Eq)]
pub enum InvalidInput {
    /// The key is longer than `Config::max_key_len`.
    KeyTooLong,
    /// The value is longer than `Config::max_value_len`.
    ValueTooLong,
}

/// The items of a cache whose recency index holds `order` and whose shards
/// hold `entries`.
spec fn items_of(order: Seq<Seq<u8>>, entries: Map<Seq<u8>, EntryView>) -> Seq<Item> {
    Seq::new(
        order.len(),
        |i: int|
            Item {
                key: order[i],
                value: entries[order[i]].value,
                stamp: entries[order[i]].last_access,
            },
    )
}

/// Dropping the least recently used key from the index and its entry from the
/// shards drops the first item.
proof fn lemma_items_drop_first(order: Seq<Seq<u8>>, entries: Map<Seq<u8>, EntryView>)
    requires
        order.no_duplicates(),
        order.len() > 0,
    ensures
        items_of(order.drop_first(), entries.remove(order[0])) == items_of(
            order,
            entries,
        ).drop_first(),
{
    let left = items_of(order.drop_first(), entries.remove(order[0]));
    let right = items_of(order, entries).drop_first();
    assert forall|i: int| 0 <= i < left.len() implies left[i] == right[i] by {
        assert(order[i + 1] != order[0]);
    }
}

/// The items carry the keys of the index, position by position.
proof fn lemma_items_keys(order: Seq<Seq<u8>>, entries: Map<Seq<u8>, EntryView>, key: Seq<u8>)
    requires
        order.no_duplicates(),
    ensures
        distinct_keys(items_of(order, entries)),
        has_key(items_of(order, entries), key) == order.contains(key),
        order.contains(key) ==> position(items_of(order, entries), key) == order.index_of(key),
{
    let items = items_of(order, entries);
    if order.contains(key) {
        let i = order.index_of(key);
        assert(items[i].key == key);
        lemma_position_unique(items, key, i);
    }
}

/// Touching a key in the index and storing its entry in the shards writes
/// the item.
proof fn lemma_items_written(
    order: Seq<Seq<u8>>,
    entries: Map<Seq<u8>, EntryView>,
    key: Seq<u8>,
    entry: EntryView,
)
    requires
        order.no_duplicates(),
        order.contains(key) || order.len() != usize::MAX,
    ensures
        items_of(touched_order(order, key, usize::MAX as nat), entries.insert(key, entry))
            == written(items_of(order, entries), key, entry.value, entry.last_access),
{
    let items = items_of(order, entries);
    let left = items_of(touched_order(order, key, usize::MAX as nat), entries.insert(key, entry));
    let right = written(items, key, entry.value, entry.last_access);
    lemma_items_keys(order, entries, key);
    if order.contains(key) {
        lemma_moved_to_back(order, key);
    }
    assert forall|j: int| 0 <= j < left.len() implies left[j] == right[j] by {}
}

/// The reason for which a request with this key and value is rejected, if
/// there is one. The key is checked first.
pub open spec fn rejection(key: Seq<u8>, value: Seq<u8>, config: Config) -> Option<InvalidInput> {
    if key.len() > config.max_key_len {
        Some(InvalidInput::KeyTooLong)
    } else if value.len() > config.max_value_len {
        Some(InvalidInput::ValueTooLong)
    } else {
        None
    }
}

/// A sharded key-value cache with a byte budget and least-recently-used
/// eviction.
pub struct ShardedCache {
    config: Config,
    shards: ShardSet,
    index: RecencyIndex,
    accountant: MemoryAccountant,
    clock: u64,
    last_eviction: PassOutcome,
}

impl View for ShardedCache {
    type V = Seq<Item>;

    /// The live items, from the least to the most recently used.
    closed spec fn view(&self) -> Seq<Item> {
        items_of(self.index@, self.shards@)
    }
}

impl ShardedCache {
    /// The configuration the cache was built with.
    pub closed spec fn spec_config(&self) -> Config {
        self.config
    }

    /// The logical clock: the stamp that the next write will carry.
    pub closed spec fn spec_clock(&self) -> u64 {
        self.clock
    }

    /// The bytes that the memory accountant has charged.
    pub closed spec fn spec_total_bytes(&self) -> u64 {
        self.accountant.spec_total()
    }

    /// How the most recent eviction pass ended.
    pub closed spec fn spec_last_eviction(&self) -> PassOutcome {
        self.last_eviction
    }

    /// The keys of the recency index, least recently used first.
    pub closed spec fn indexed_keys(&self) -> Seq<Seq<u8>> {
        self.index@
    }

    /// The entries that the shards hold, by key.
    pub closed spec fn stored_entries(&self) -> Map<Seq<u8>, EntryView> {
        self.shards@
    }

    /// The parts of the cache fit together: the shards are routed by the
    /// configured shard count, hold exactly the keys of the recency index,
    /// and charge each entry its key length plus its value length.
    pub closed spec fn coherent(&self) -> bool {
        &&& self.shards.wf()
        &&& self.index.wf()
        &&& self.shards.spec_shard_count() == self.config.shard_count
        &&& forall|key: Seq<u8>| #[trigger]
            self.shards@.contains_key(key) <==> self.index@.contains(key)
        &&& forall|key: Seq<u8>| #[trigger]
            self.shards@.contains_key(key) ==> self.shards@[key].size_bytes == key.len()
                + self.shards@[key].value.len()
    }

    /// What holds of a cache also in the middle of an eviction pass:
    /// everything that [`ShardedCache::wf`] asks for, except that the bytes
    /// charged may be above the high watermark.
    closed spec fn steady(&self) -> bool {
        &&& self.coherent()
        &&& self.config.wf()
        &&& self.accountant.spec_total() == total_size(self@)
        &&& distinct_keys(self@)
        &&& within_limits(self@, self.config)
        &&& stamps_ordered(self@, self.clock)
    }

    /// The invariant of the cache. The memory accountant is exact, no key
    /// occurs twice, every entry respects the length limits, recency order
    /// agrees with the stamps, and the bytes charged are within the high
    /// watermark unless a single entry is left.
    pub open spec fn wf(&self) -> bool {
        &&& self.coherent()
        &&& self.spec_config().wf()
        &&& self.spec_total_bytes() == total_size(self@)
        &&& store_ok(self@, self.spec_config(), self.spec_clock())
    }

    /// The recency index and the shards never disagree: the index lists the
    /// keys of the items in their order, the shards hold an entry for each of
    /// these keys and for no other, and every entry carries the value and
    /// stamp of its item and is charged its key length plus its value length.
    pub proof fn lemma_index_matches_shards(&self)
        requires
            self.wf(),
        ensures
            self.indexed_keys().no_duplicates(),
            self.indexed_keys().len() == self@.len(),
            forall|i: int|
                0 <= i < self@.len() ==> {
                    let item = #[trigger] self@[i];
                    &&& self.indexed_keys()[i] == item.key
                    &&& self.stored_entries().contains_key(item.key)
                    &&& self.stored_entries()[item.key] == (EntryView {
                        value: item.value,
                        size_bytes: item_size(item) as u64,
                        last_access: item.stamp,
                    })
                },
            forall|key: Seq<u8>| #[trigger]
                self.stored_entries().contains_key(key) <==> has_key(self@, key),
    {
        assert forall|key: Seq<u8>| #[trigger]
            self.stored_entries().contains_key(key) <==> has_key(self@, key) by {
            lemma_items_keys(self.index@, self.shards@, key);
        }
        assert forall|i: int| 0 <= i < self@.len() implies self.stored_entries().contains_key(
            (#[trigger] self@[i]).key,
        ) by {
            assert(self.index@.contains(self.index@[i]));
        }
    }

    /// Creates an empty cache, or nothing where `config` is not well formed.
    pub fn new(config: Config) -> (made: Option<ShardedCache>)
        ensures
            made is Some <==> config.wf(),
            match made {
                Some(cache) => cache.wf() && cache@ == Seq::<Item>::empty() && cache.spec_config()
                    == config && cache.spec_clock() == 0 && cache.spec_last_eviction()
                    == PassOutcome::NotNeeded,
                None => true,
            },
    {
        if !config.is_valid() {
            return None;
        }
        Some(
            ShardedCache {
                config,
                shards: ShardSet::new(config.shard_count),
                index: RecencyIndex::new(),
                accountant: MemoryAccountant::new(),
                clock: 0,
                last_eviction: PassOutcome::NotNeeded,
            },
        )
    }

    /// Stores `value` under `key` and makes the key the most recently used
    /// one. Where this leaves more bytes charged than `Config::put_limit`, an
    /// eviction pass runs before the call returns.
    ///
    /// A key or value above the configured length is rejected, and the cache
    /// stays as it was.
    pub fn put(&mut self, key: Vec<u8>, value: Vec<u8>) -> (result: Result<
        WriteOutcome,
        InvalidInput,
    >)
        requires
            old(self).wf(),
        ensures
            final(self).wf(),
            final(self).spec_config() == old(self).spec_config(),
            match rejection(key@, value@, old(self).spec_config()) {
                Some(reason) => {
                    &&& result == Err::<WriteOutcome, InvalidInput>(reason)
                    &&& final(self)@ == old(self)@
                    &&& final(self).spec_clock() == old(self).spec_clock()
                    &&& final(self).spec_last_eviction() == old(self).spec_last_eviction()
                },
                None => {
                    &&& result == Ok::<WriteOutcome, InvalidInput>(
                        if has_key(old(self)@, key@) {
                            WriteOutcome::Updated
                        } else {
                            WriteOutcome::Inserted
                        },
                    )
                    &&& final(self)@ == after_put(
                        old(self)@,
                        key@,
                        value@,
                        old(self).spec_clock(),
                        old(self).spec_config(),
                    )
                    &&& final(self).spec_clock() == next_tick(old(self).spec_clock())
                    &&& final(self).spec_last_eviction() == pass_after_put(
                        written(old(self)@, key@, value@, old(self).spec_clock()),
                        old(self).spec_last_eviction(),
                        old(self).spec_config(),
                    )
                },
            },
    {
        if key.len() > self.config.max_key_len {
            return Err(InvalidInput::KeyTooLong);
        }
        if value.len() > self.config.max_value_len {
            return Err(InvalidInput::ValueTooLong);
        }
        let ghost order = self.index@;
        let ghost entries = self.shards@;
        let ghost items = self@;
        let ghost stored = EntryView {
            value: value@,
            size_bytes: (key.len() + value.len()) as u64,
            last_access: self.clock,
        };
        proof {
            lemma_settled_bound(items, self.config);
            lemma_items_keys(order, entries, key@);
            lemma_written(items, key@, value@, self.clock);
            lemma_written_keeps_order(items, key@, value@, self.clock, self.config);
            lemma_items_written(order, entries, key@, stored);
        }
        let now: u64 = self.clock;
        if self.clock < u64::MAX {
            self.clock = self.clock + 1;
        }
        let size: u64 = key.len() as u64 + value.len() as u64;
        let index_key = key.clone();
        let previous = self.shards.insert(key, Entry { value, size_bytes: size, last_access: now });
        let (outcome, old_size) = match previous {
            Some(old_size) => (WriteOutcome::Updated, old_size),
            None => (WriteOutcome::Inserted, 0),
        };
        self.accountant.replace(size, old_size);
        self.index.touch(index_key);
        proof {
            assert(self@ == written(items, key@, value@, now));
            assert forall|k: Seq<u8>| #[trigger]
                self.shards@.contains_key(k) <==> self.index@.contains(k) by {
                if order.contains(key@) {
                    lemma_moved_to_back(order, key@);
                } else if order.contains(k) {
                    assert(self.index@[order.index_of(k)] == k);
                }
            }
        }
        let evict_now = match self.config.eviction {
            EvictionMode::Inline => true,
            EvictionMode::Deferred => self.accountant.total_bytes() > self.config.put_limit_bytes(),
        };
        if evict_now {
            let pass = self.sweep();
            self.last_eviction = pass;
        }
        Ok(outcome)
    }

    /// Returns a copy of the value stored under `key`, or `None` where the
    /// key is not in the cache.
    ///
    /// In a cache configured with `refresh_on_read`, a key that is found
    /// becomes the most recently used one; otherwise a read changes nothing.
    /// A read never changes which value any key holds. A key above the
    /// configured length is rejected.
    pub fn get(&mut self, key: &[u8]) -> (result: Result<Option<Vec<u8>>, InvalidInput>)
        requires
            old(self).wf(),
        ensures
            final(self).wf(),
            final(self).spec_config() == old(self).spec_config(),
            final(self).spec_last_eviction() == old(self).spec_last_eviction(),
            final(self).spec_total_bytes() == old(self).spec_total_bytes(),
            match result {
                Err(reason) => {
                    &&& key@.len() > old(self).spec_config().max_key_len
                    &&& reason == InvalidInput::KeyTooLong
                    &&& final(self)@ == old(self)@
                    &&& final(self).spec_clock() == old(self).spec_clock()
                },
                Ok(found) => {
                    &&& key@.len() <= old(self).spec_config().max_key_len
                    &&& match found {
                        Some(value) => lookup(old(self)@, key@) == Some(value@),
                        None => lookup(old(self)@, key@) is None,
                    }
                    &&& final(self)@ == if old(self).spec_config().refresh_on_read {
                        refreshed(old(self)@, key@, old(self).spec_clock())
                    } else {
                        old(self)@
                    }
                    &&& final(self).spec_clock() == if old(self).spec_config().refresh_on_read
                        && found is Some {
                        next_tick(old(self).spec_clock())
                    } else {
                        old(self).spec_clock()
                    }
                },
            },
            forall|other: Seq<u8>| lookup(final(self)@, other) == lookup(old(self)@, other),
    {
        if key.len() > self.config.max_key_len {
            return Err(InvalidInput::KeyTooLong);
        }
        let ghost order = self.index@;
        let ghost entries = self.shards@;
        let ghost items = self@;
        proof {
            lemma_items_keys(order, entries, key@);
        }
        let found = match self.shards.get(key) {
            Some(entry) => Some(entry.value.clone()),
            None => None,
        };
        if found.is_some() && self.config.refresh_on_read {
            let ghost stamped = EntryView { last_access: self.clock, ..entries[key@] };
            proof {
                lemma_written(items, key@, stamped.value, self.clock);
                lemma_written_keeps_order(items, key@, stamped.value, self.clock, self.config);
                lemma_items_written(order, entries, key@, stamped);
                lemma_moved_to_back(order, key@);
            }
            let now: u64 = self.clock;
            if self.clock < u64::MAX {
                self.clock = self.clock + 1;
            }
            self.shards.refresh(key, now);
            self.index.promote(key);
        }
        Ok(found)
    }

    /// Runs one eviction pass and records how it ended.
    ///
    /// A cache that defers eviction relies on this call to come back within
    /// its budget. A cache that evicts inline never has anything to remove
    /// here: `put` has run the pass already.
    pub fn run_eviction(&mut self) -> (outcome: PassOutcome)
        requires
            old(self).wf(),
        ensures
            final(self).wf(),
            final(self)@ == swept(old(self)@, old(self).spec_config()),
            outcome == sweep_outcome(old(self)@, old(self).spec_config()),
            old(self).spec_config().eviction is Inline ==> final(self)@ == old(self)@,
            final(self).spec_last_eviction() == outcome,
            final(self).spec_config() == old(self).spec_config(),
            final(self).spec_clock() == old(self).spec_clock(),
    {
        let outcome = self.sweep();
        self.last_eviction = outcome;
        outcome
    }

    /// The bytes charged for the live keys and values.
    pub fn total_bytes(&self) -> (total: u64)
        requires
            self.wf(),
        ensures
            total == self.spec_total_bytes(),
            total == total_size(self@),
    {
        self.accountant.total_bytes()
    }

    /// The number of live entries.
    pub fn len(&self) -> (count: usize)
        ensures
            count == self@.len(),
    {
        self.index.len()
    }

    /// Tells whether the cache holds no entry.
    pub fn is_empty(&self) -> (empty: bool)
        ensures
            empty == (self@.len() == 0),
    {
        self.index.len() == 0
    }

    /// Tells whether the bytes charged exceed the high watermark. In a cache
    /// that evicts inline this is so only while a single entry too large for
    /// the budget is all that the cache holds.
    pub fn is_over_budget(&self) -> (over: bool)
        requires
            self.wf(),
        ensures
            over == (total_size(self@) > self.spec_config().high_limit()),
            over && self.spec_config().eviction is Inline ==> self@.len() == 1,
    {
        self.accountant.total_bytes() > self.config.high_limit_bytes()
    }

    /// How the most recent eviction pass ended.
    pub fn last_eviction(&self) -> (outcome: PassOutcome)
        ensures
            outcome == self.spec_last_eviction(),
    {
        self.last_eviction
    }

    /// The configuration the cache was built with.
    pub fn config(&self) -> (config: Config)
        ensures
            config == self.spec_config(),
    {
        self.config
    }

    /// Removes the least recently used entry.
    fn evict_one(&mut self)
        requires
            old(self).steady(),
            old(self)@.len() > 0,
        ensures
            final(self).steady(),
            final(self)@ == old(self)@.drop_first(),
            final(self).config == old(self).config,
            final(self).clock == old(self).clock,
            final(self).last_eviction == old(self).last_eviction,
    {
        let ghost order = self.index@;
        let ghost entries = self.shards@;
        proof {
            lemma_items_drop_first(order, entries);
            lemma_total_drop_first(self@);
        }
        if let Some(key) = self.index.pop_lru() {
            if let Some(entry) = self.shards.remove(key.as_slice()) {
                self.accountant.release(entry.size_bytes);
            }
        }
        proof {
            assert forall|key: Seq<u8>| #[trigger]
                self.shards@.contains_key(key) <==> self.index@.contains(key) by {
                if order.contains(key) && key != order[0] {
                    assert(order.drop_first()[order.index_of(key) - 1] == key);
                }
            }
            assert forall|i: int| 0 <= i < self@.len() implies #[trigger] self@[i] == old(self)@[i
                + 1] by {}
        }
    }

    /// Runs one eviction pass.
    fn sweep(&mut self) -> (outcome: PassOutcome)
        requires
            old(self).steady(),
        ensures
            final(self).wf(),
            final(self)@ == swept(old(self)@, old(self).config),
            outcome == sweep_outcome(old(self)@, old(self).config),
            final(self).config == old(self).config,
            final(self).clock == old(self).clock,
            final(self).last_eviction == old(self).last_eviction,
    {
        let mut state = EvictionState::Idle;
        let ghost low = self.config.low_limit();
        loop
            invariant
                self.steady(),
                self.config == old(self).config,
                self.clock == old(self).clock,
                self.last_eviction == old(self).last_eviction,
                low == self.config.low_limit(),
                state is Idle ==> self@ == old(self)@,
                state is Evicting ==> total_size(old(self)@) > self.config.high_limit()
                    && evicted(self@, low) == evicted(old(self)@, low),
            decreases self@.len(),
        {
            let s = step(state, self.accountant.total_bytes(), self.index.len(), &self.config);
            match s.action {
                Action::Rest => {
                    return PassOutcome::NotNeeded;
                },
                Action::Done => {
                    proof {
                        lemma_evicted_stops(self@, low);
                    }
                    return PassOutcome::Reclaimed;
                },
                Action::GiveUp => {
                    proof {
                        lemma_evicted_stops(self@, low);
                    }
                    return PassOutcome::Unrecoverable;
                },
                Action::Evict => {
                    proof {
                        lemma_evicted_unfold(self@, low);
                    }
                    state = s.next;
                    self.evict_one();
                },
            }
        }
    }
}

} // verus!
