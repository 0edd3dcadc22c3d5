//! The cache as a mathematical object, and the laws that hold of it.
//!
//! A cache is a sequence of items ordered from the least to the most recently
//! used: position 0 is the next eviction victim, the last position is the
//! item touched most recently. The contracts of the cache are stated over the
//! functions of this module.

use crate::config::Config;
use crate::eviction::PassOutcome;
use vstd::prelude::*;

verus! {

/// One live entry of the cache.
pub struct Item {
    pub key: Seq<u8>,
    pub value: Seq<u8>,
    /// Logical time of the last write or refreshing read.
    pub stamp: u64,
}

/// The bytes charged for an item: key length plus value length.
pub open spec fn item_size(item: Item) -> nat {
    item.key.len() + item.value.len()
}

/// The bytes charged for all items together.
pub open spec fn total_size(items: Seq<Item>) -> nat
    decreases items.len(),
{
    if items.len() == 0 {
        0
    } else {
        total_size(items.drop_last()) + item_size(items.last())
    }
}

/// Some item carries `key`.
pub open spec fn has_key(items: Seq<Item>, key: Seq<u8>) -> bool {
    exists|i: int| 0 <= i < items.len() && (#[trigger] items[i]).key == key
}

/// A position at which `key` is found.
pub open spec fn position(items: Seq<Item>, key: Seq<u8>) -> int {
    choose|i: int| 0 <= i < items.len() && (#[trigger] items[i]).key == key
}

/// The value stored under `key`, if any.
pub open spec fn lookup(items: Seq<Item>, key: Seq<u8>) -> Option<Seq<u8>> {
    if has_key(items, key) {
        Some(items[position(items, key)].value)
    } else {
        None
    }
}

/// No key occurs twice.
pub open spec fn distinct_keys(items: Seq<Item>) -> bool {
    forall|i: int, j: int|
        0 <= i < j < items.len() ==> (#[trigger] items[i]).key != (#[trigger] items[j]).key
}

/// Stamps never decrease from the least to the most recently used item, and
/// none lies after `clock`.
pub open spec fn stamps_ordered(items: Seq<Item>, clock: u64) -> bool {
    &&& forall|i: int, j: int|
        0 <= i <= j < items.len() ==> (#[trigger] items[i]).stamp <= (#[trigger] items[j]).stamp
    &&& forall|i: int| 0 <= i < items.len() ==> (#[trigger] items[i]).stamp <= clock
}

/// Every key and value respects the configured length limits.
pub open spec fn within_limits(items: Seq<Item>, config: Config) -> bool {
    forall|i: int|
        0 <= i < items.len() ==> (#[trigger] items[i]).key.len() <= config.max_key_len
            && items[i].value.len() <= config.max_value_len
}

/// The items with the one under `key`, if any, taken out.
pub open spec fn without_key(items: Seq<Item>, key: Seq<u8>) -> Seq<Item> {
    if has_key(items, key) {
        items.remove(position(items, key))
    } else {
        items
    }
}

/// The items after `value` was written under `key` at time `now`: the key
/// becomes the most recently used one.
pub open spec fn written(items: Seq<Item>, key: Seq<u8>, value: Seq<u8>, now: u64) -> Seq<Item> {
    without_key(items, key).push(Item { key, value, stamp: now })
}

/// The items after `key` was read at time `now` by a cache that refreshes
/// recency on reads: a key that is present becomes the most recently used one
/// and keeps its value.
pub open spec fn refreshed(items: Seq<Item>, key: Seq<u8>, now: u64) -> Seq<Item> {
    if has_key(items, key) {
        written(items, key, items[position(items, key)].value, now)
    } else {
        items
    }
}

/// How many items an eviction pass with target `low_limit` removes: it
/// removes least recently used items while more than `low_limit` bytes are
/// charged and more than one item is left.
pub open spec fn evicted_count(items: Seq<Item>, low_limit: int) -> nat
    decreases items.len(),
{
    if items.len() <= 1 || total_size(items) <= low_limit {
        0
    } else {
        1 + evicted_count(items.drop_first(), low_limit)
    }
}

/// The items that an eviction pass with target `low_limit` leaves.
pub open spec fn evicted(items: Seq<Item>, low_limit: int) -> Seq<Item> {
    items.skip(evicted_count(items, low_limit) as int)
}

/// The items after an eviction pass: nothing happens unless more than
/// `config.high_limit()` bytes are charged.
pub open spec fn swept(items: Seq<Item>, config: Config) -> Seq<Item> {
    if total_size(items) > config.high_limit() {
        evicted(items, config.low_limit())
    } else {
        items
    }
}

/// How an eviction pass over `items` ends.
pub open spec fn sweep_outcome(items: Seq<Item>, config: Config) -> PassOutcome {
    if total_size(items) <= config.high_limit() {
        PassOutcome::NotNeeded
    } else if total_size(evicted(items, config.low_limit())) <= config.low_limit() {
        PassOutcome::Reclaimed
    } else {
        PassOutcome::Unrecoverable
    }
}

/// The items after a `put` of `value` under `key` at time `now`: the item
/// is written, and an eviction pass follows where more than
/// `config.put_limit()` bytes are then charged.
pub open spec fn after_put(
    items: Seq<Item>,
    key: Seq<u8>,
    value: Seq<u8>,
    now: u64,
    config: Config,
) -> Seq<Item> {
    let wrote = written(items, key, value, now);
    if total_size(wrote) > config.put_limit() {
        evicted(wrote, config.low_limit())
    } else {
        wrote
    }
}

/// What a cache records as the end of its most recent eviction pass after a
/// `put` that wrote `wrote`. A cache that evicts inline consults the engine
/// on every `put`; a cache that defers eviction keeps its record unless the
/// `put` had to evict.
pub open spec fn pass_after_put(
    wrote: Seq<Item>,
    recorded: PassOutcome,
    config: Config,
) -> PassOutcome {
    if total_size(wrote) > config.put_limit() || config.eviction is Inline {
        sweep_outcome(wrote, config)
    } else {
        recorded
    }
}

/// The clock after one tick. It stops at `u64::MAX`.
pub open spec fn next_tick(clock: u64) -> u64 {
    if clock < u64::MAX {
        (clock + 1) as u64
    } else {
        clock
    }
}

/// The store is within the limit that `put` enforces, or holds a single
/// item, which no eviction pass removes.
pub open spec fn settled(items: Seq<Item>, config: Config) -> bool {
    total_size(items) <= config.put_limit() || items.len() <= 1
}

/// What holds of the items of every cache between two operations.
pub open spec fn store_ok(items: Seq<Item>, config: Config, clock: u64) -> bool {
    &&& distinct_keys(items)
    &&& within_limits(items, config)
    &&& stamps_ordered(items, clock)
    &&& settled(items, config)
}

/// Appending an item adds its size to the total.
pub proof fn lemma_total_push(items: Seq<Item>, item: Item)
    ensures
        total_size(items.push(item)) == total_size(items) + item_size(item),
{
    assert(items.push(item).drop_last() =~= items);
}

/// Taking the item at position `i` out subtracts its size from the total.
pub proof fn lemma_total_remove(items: Seq<Item>, i: int)
    requires
        0 <= i < items.len(),
    ensures
        total_size(items.remove(i)) == total_size(items) - item_size(items[i]),
    decreases items.len(),
{
    if i < items.len() - 1 {
        lemma_total_remove(items.drop_last(), i);
        assert(items.remove(i).drop_last() =~= items.drop_last().remove(i));
    }
}

/// Dropping the least recently used item subtracts its size from the total.
pub proof fn lemma_total_drop_first(items: Seq<Item>)
    requires
        items.len() > 0,
    ensures
        total_size(items.drop_first()) == total_size(items) - item_size(items[0]),
{
    lemma_total_remove(items, 0);
}

/// Among distinct keys, a key is found at one position only.
pub proof fn lemma_position_unique(items: Seq<Item>, key: Seq<u8>, i: int)
    requires
        distinct_keys(items),
        0 <= i < items.len(),
        items[i].key == key,
    ensures
        has_key(items, key),
        position(items, key) == i,
        lookup(items, key) == Some(items[i].value),
{
}

/// Where keys are distinct, taking one key out leaves the other items in
/// their order, and the key is gone.
pub proof fn lemma_without_key(items: Seq<Item>, key: Seq<u8>)
    requires
        distinct_keys(items),
    ensures
        distinct_keys(without_key(items, key)),
        !has_key(without_key(items, key), key),
        forall|other: Seq<u8>|
            other != key ==> lookup(without_key(items, key), other) == lookup(items, other),
        forall|other: Seq<u8>|
            other != key ==> has_key(without_key(items, key), other) == has_key(items, other),
        total_size(without_key(items, key)) == total_size(items) - if has_key(items, key) {
            item_size(items[position(items, key)])
        } else {
            0
        },
{
    let rest = without_key(items, key);
    if has_key(items, key) {
        let at = position(items, key);
        lemma_total_remove(items, at);
        assert forall|j: int| 0 <= j < rest.len() implies #[trigger] rest[j] == if j < at {
            items[j]
        } else {
            items[j + 1]
        } by {}
        assert forall|other: Seq<u8>| other != key implies lookup(rest, other) == lookup(
            items,
            other,
        ) && has_key(rest, other) == has_key(items, other) by {
            if has_key(items, other) {
                let i = position(items, other);
                let j = if i < at {
                    i
                } else {
                    i - 1
                };
                assert(rest[j] == items[i]);
            }
        }
    }
}

/// What a write does to the items: the key is found with the new value,
/// every other key is found as before, and the total changes by the signed
/// difference between the new size and the size that the key had.
pub proof fn lemma_written(items: Seq<Item>, key: Seq<u8>, value: Seq<u8>, now: u64)
    requires
        distinct_keys(items),
    ensures
        distinct_keys(written(items, key, value, now)),
        written(items, key, value, now).last() == (Item { key, value, stamp: now }),
        written(items, key, value, now).len() == if has_key(items, key) {
            items.len()
        } else {
            items.len() + 1
        },
        lookup(written(items, key, value, now), key) == Some(value),
        forall|other: Seq<u8>|
            other != key ==> lookup(written(items, key, value, now), other) == lookup(
                items,
                other,
            ),
        total_size(written(items, key, value, now)) == total_size(items) + key.len() + value.len()
            - if has_key(items, key) {
            item_size(items[position(items, key)])
        } else {
            0
        },
{
    let rest = without_key(items, key);
    let item = Item { key, value, stamp: now };
    let after = written(items, key, value, now);
    lemma_without_key(items, key);
    lemma_total_push(rest, item);
    assert forall|other: Seq<u8>| other != key implies lookup(after, other) == lookup(
        items,
        other,
    ) by {
        if has_key(rest, other) {
            let j = position(rest, other);
            assert(after[j] == rest[j]);
        }
    }
}

/// A write keeps every key and value within the limits and the stamps in
/// recency order, where the new item is within the limits and carries the
/// current time.
pub proof fn lemma_written_keeps_order(
    items: Seq<Item>,
    key: Seq<u8>,
    value: Seq<u8>,
    now: u64,
    config: Config,
)
    requires
        distinct_keys(items),
        within_limits(items, config),
        stamps_ordered(items, now),
        key.len() <= config.max_key_len,
        value.len() <= config.max_value_len,
    ensures
        within_limits(written(items, key, value, now), config),
        stamps_ordered(written(items, key, value, now), next_tick(now)),
{
    let rest = without_key(items, key);
    let after = written(items, key, value, now);
    assert forall|j: int| 0 <= j < rest.len() implies #[trigger] rest[j] == if !has_key(items, key)
        || j < position(items, key) {
        items[j]
    } else {
        items[j + 1]
    } by {}
}

/// Distinct keys that are all non-empty are charged at least one byte each.
proof fn lemma_count_bound_nonempty(items: Seq<Item>)
    requires
        forall|i: int| 0 <= i < items.len() ==> (#[trigger] items[i]).key.len() > 0,
    ensures
        items.len() <= total_size(items),
    decreases items.len(),
{
    if items.len() > 0 {
        let init = items.drop_last();
        assert forall|i: int| 0 <= i < init.len() implies (#[trigger] init[i]).key.len() > 0 by {}
        lemma_count_bound_nonempty(init);
    }
}

/// A store with distinct keys holds at most one item more than it charges
/// bytes: only the empty key can be free of charge.
pub proof fn lemma_count_bound(items: Seq<Item>)
    requires
        distinct_keys(items),
    ensures
        items.len() <= total_size(items) + 1,
    decreases items.len(),
{
    if items.len() > 0 {
        let init = items.drop_last();
        assert forall|i: int, j: int| 0 <= i < j < init.len() implies (#[trigger] init[i]).key != (
        #[trigger] init[j]).key by {}
        if items.last().key.len() > 0 {
            lemma_count_bound(init);
        } else {
            assert forall|i: int| 0 <= i < init.len() implies (#[trigger] init[i]).key.len()
                > 0 by {
                if items[i].key.len() == 0 {
                    assert(items[i].key =~= items.last().key);
                }
            }
            lemma_count_bound_nonempty(init);
        }
    }
}

/// Items within the limits charge at most the largest entry size each.
pub proof fn lemma_total_bound(items: Seq<Item>, config: Config)
    requires
        within_limits(items, config),
    ensures
        total_size(items) <= items.len() * config.max_entry_size(),
    decreases items.len(),
{
    if items.len() > 0 {
        let init = items.drop_last();
        assert forall|i: int| 0 <= i < init.len() implies (#[trigger] init[i]).key.len()
            <= config.max_key_len && init[i].value.len() <= config.max_value_len by {}
        lemma_total_bound(init, config);
        assert(items.len() * config.max_entry_size() == init.len() * config.max_entry_size()
            + config.max_entry_size()) by (nonlinear_arith)
            requires
                items.len() == init.len() + 1,
        ;
    }
}

/// A settled store has room for one more entry of the largest size and for
/// one more key.
pub proof fn lemma_settled_bound(items: Seq<Item>, config: Config)
    requires
        config.wf(),
        distinct_keys(items),
        within_limits(items, config),
        settled(items, config),
    ensures
        total_size(items) + config.max_entry_size() < usize::MAX,
        items.len() < usize::MAX,
{
    lemma_total_bound(items, config);
    lemma_count_bound(items);
    let e = config.max_entry_size();
    if items.len() <= 1 {
        assert(items.len() * e <= e) by (nonlinear_arith)
            requires
                items.len() <= 1,
                e >= 0,
        ;
    }
    if e == 0 {
        assert(items.len() * e == 0) by (nonlinear_arith)
            requires
                e == 0,
        ;
    }
}

/// An eviction pass leaves at least one item of a store that is not empty.
pub proof fn lemma_evicted_count_bound(items: Seq<Item>, low_limit: int)
    ensures
        evicted_count(items, low_limit) <= items.len(),
        items.len() > 0 ==> evicted_count(items, low_limit) < items.len(),
    decreases items.len(),
{
    if items.len() > 1 && total_size(items) > low_limit {
        lemma_evicted_count_bound(items.drop_first(), low_limit);
    }
}

/// An eviction pass that removes anything continues on what is left after
/// the least recently used item.
pub proof fn lemma_evicted_unfold(items: Seq<Item>, low_limit: int)
    requires
        items.len() > 1,
        total_size(items) > low_limit,
    ensures
        evicted(items, low_limit) == evicted(items.drop_first(), low_limit),
{
    lemma_evicted_count_bound(items.drop_first(), low_limit);
}

/// An eviction pass removes nothing where the target is met or one item is left.
pub proof fn lemma_evicted_stops(items: Seq<Item>, low_limit: int)
    requires
        items.len() <= 1 || total_size(items) <= low_limit,
    ensures
        evicted(items, low_limit) == items,
{
}

/// An eviction pass never adds to the bytes charged.
pub proof fn lemma_evicted_total(items: Seq<Item>, low_limit: int)
    ensures
        total_size(evicted(items, low_limit)) <= total_size(items),
    decreases items.len(),
{
    if items.len() <= 1 || total_size(items) <= low_limit {
        lemma_evicted_stops(items, low_limit);
    } else {
        lemma_evicted_unfold(items, low_limit);
        lemma_total_drop_first(items);
        lemma_evicted_total(items.drop_first(), low_limit);
    }
}

/// An eviction pass goes on until the target is met or one item is left,
/// and no further: whatever it stopped at earlier would still be above the
/// target. What it removes are the least recently used items, and with
/// ordered stamps none of them was touched after an item that stays.
pub proof fn lemma_eviction_removes_oldest(items: Seq<Item>, low_limit: int, clock: u64)
    ensures
        evicted_count(items, low_limit) <= items.len(),
        evicted(items, low_limit) == items.skip(evicted_count(items, low_limit) as int),
        total_size(evicted(items, low_limit)) <= low_limit || evicted(items, low_limit).len() <= 1,
        forall|m: int|
            0 <= m < evicted_count(items, low_limit) ==> total_size(#[trigger] items.skip(m))
                > low_limit,
        stamps_ordered(items, clock) ==> forall|i: int, j: int|
            0 <= i < evicted_count(items, low_limit) <= j < items.len() ==> (
            #[trigger] items[i]).stamp <= (#[trigger] items[j]).stamp,
    decreases items.len(),
{
    if items.len() <= 1 || total_size(items) <= low_limit {
        lemma_evicted_stops(items, low_limit);
    } else {
        let rest = items.drop_first();
        lemma_evicted_unfold(items, low_limit);
        lemma_eviction_removes_oldest(rest, low_limit, clock);
        assert forall|m: int| 0 <= m < evicted_count(items, low_limit) implies total_size(
            #[trigger] items.skip(m),
        ) > low_limit by {
            if m == 0 {
                assert(items.skip(0) =~= items);
            } else {
                assert(items.skip(m) =~= rest.skip(m - 1));
            }
        }
    }
}

/// After an eviction pass a removed key is no longer found, and a key that
/// stays is found with the value it had.
pub proof fn lemma_eviction_lookup(items: Seq<Item>, low_limit: int, i: int)
    requires
        distinct_keys(items),
        0 <= i < items.len(),
    ensures
        lookup(evicted(items, low_limit), items[i].key) == if i < evicted_count(
            items,
            low_limit,
        ) {
            None
        } else {
            Some(items[i].value)
        },
        distinct_keys(evicted(items, low_limit)),
{
    let n = evicted_count(items, low_limit) as int;
    let left = evicted(items, low_limit);
    lemma_evicted_count_bound(items, low_limit);
    assert forall|a: int, b: int| 0 <= a < b < left.len() implies (#[trigger] left[a]).key != (
    #[trigger] left[b]).key by {}
    if i >= n {
        assert(left[i - n] == items[i]);
    }
}

/// A key that a `put` wrote is found with the value written, whatever the
/// eviction pass of that `put` removed. Every other key is found with the
/// value it had before, or not at all; no other key appears.
pub proof fn lemma_put_then_lookup(
    items: Seq<Item>,
    key: Seq<u8>,
    value: Seq<u8>,
    now: u64,
    config: Config,
    other: Seq<u8>,
)
    requires
        distinct_keys(items),
    ensures
        distinct_keys(after_put(items, key, value, now, config)),
        lookup(after_put(items, key, value, now, config), key) == Some(value),
        other != key ==> lookup(after_put(items, key, value, now, config), other) == lookup(
            items,
            other,
        ) || lookup(after_put(items, key, value, now, config), other) is None,
{
    let wrote = written(items, key, value, now);
    let low = config.low_limit();
    let left = evicted(wrote, low);
    lemma_written(items, key, value, now);
    if total_size(wrote) > config.put_limit() {
        lemma_evicted_count_bound(wrote, low);
        lemma_eviction_lookup(wrote, low, wrote.len() - 1);
        if has_key(wrote, other) {
            lemma_eviction_lookup(wrote, low, position(wrote, other));
        } else if has_key(left, other) {
            assert(left[position(left, other)] == wrote[evicted_count(wrote, low) + position(
                left,
                other,
            )]);
        }
    }
}

/// Writing a shorter value under a key lowers the bytes charged by the
/// difference of the two lengths, before eviction, and by at least that
/// much after it.
pub proof fn lemma_overwrite_with_shorter(
    items: Seq<Item>,
    key: Seq<u8>,
    longer: Seq<u8>,
    shorter: Seq<u8>,
    now: u64,
    config: Config,
)
    requires
        distinct_keys(items),
        lookup(items, key) == Some(longer),
        shorter.len() < longer.len(),
    ensures
        total_size(written(items, key, shorter, now)) == total_size(items) - (longer.len()
            - shorter.len()),
        total_size(after_put(items, key, shorter, now, config)) <= total_size(items) - (
        longer.len() - shorter.len()),
{
    lemma_written(items, key, shorter, now);
    lemma_evicted_total(written(items, key, shorter, now), config.low_limit());
}

/// Two writes under one key, the second with a shorter value: the bytes
/// charged after the second are fewer than after the first, by at least the
/// difference of the two lengths.
pub proof fn lemma_put_twice_shrinks(
    items: Seq<Item>,
    key: Seq<u8>,
    longer: Seq<u8>,
    shorter: Seq<u8>,
    first: u64,
    second: u64,
    config: Config,
)
    requires
        distinct_keys(items),
        shorter.len() < longer.len(),
    ensures
        total_size(
            after_put(
                after_put(items, key, longer, first, config),
                key,
                shorter,
                second,
                config,
            ),
        ) <= total_size(after_put(items, key, longer, first, config)) - (longer.len()
            - shorter.len()),
{
    lemma_put_then_lookup(items, key, longer, first, config, key);
    lemma_overwrite_with_shorter(
        after_put(items, key, longer, first, config),
        key,
        longer,
        shorter,
        second,
        config,
    );
}

/// An eviction pass leaves the store at or below the high watermark, and at
/// or below the low watermark where it had to evict, unless a single item is
/// left. A pass that ends as unrecoverable has removed everything but the
/// most recently used item.
pub proof fn lemma_sweep_restores_budget(items: Seq<Item>, config: Config)
    requires
        config.wf(),
    ensures
        total_size(swept(items, config)) <= config.high_limit() || swept(items, config).len() <= 1,
        total_size(items) > config.high_limit() ==> total_size(swept(items, config))
            <= config.low_limit() || swept(items, config).len() <= 1,
        sweep_outcome(items, config) is Unrecoverable ==> items.len() > 0 && swept(items, config)
            == seq![items.last()],
        settled(swept(items, config), config),
{
    let low = config.low_limit();
    if total_size(items) > config.high_limit() {
        lemma_eviction_removes_oldest(items, low, 0);
        assert(0 <= config.max_bytes as int * config.high_watermark.numerator as int)
            by (nonlinear_arith);
    }
}

/// A `put` leaves the store within the limit that `put` enforces, or with
/// the entry just written and nothing else. Where the cache evicts inline,
/// that limit is the high watermark and a `put` is a write followed by an
/// eviction pass; where the `put` had to evict, the store is then at or
/// below the low watermark, or holds the entry just written and nothing else.
pub proof fn lemma_put_restores_budget(
    items: Seq<Item>,
    key: Seq<u8>,
    value: Seq<u8>,
    now: u64,
    config: Config,
)
    requires
        config.wf(),
    ensures
        settled(after_put(items, key, value, now, config), config),
        config.eviction is Inline ==> after_put(items, key, value, now, config) == swept(
            written(items, key, value, now),
            config,
        ),
        total_size(written(items, key, value, now)) > config.put_limit() ==> total_size(
            after_put(items, key, value, now, config),
        ) <= config.low_limit() || after_put(items, key, value, now, config) == seq![
            Item { key, value, stamp: now },
        ],
{
    let wrote = written(items, key, value, now);
    lemma_sweep_restores_budget(wrote, config);
    assert(wrote.last() == Item { key, value, stamp: now });
}

/// A refreshing read changes the order and one stamp, never a value: every
/// key is found with the value it had, so a repeated read gives the same
/// result. The bytes charged stay as they are.
pub proof fn lemma_refreshed_keeps_values(
    items: Seq<Item>,
    key: Seq<u8>,
    now: u64,
    other: Seq<u8>,
)
    requires
        distinct_keys(items),
    ensures
        lookup(refreshed(items, key, now), other) == lookup(items, other),
        distinct_keys(refreshed(items, key, now)),
        total_size(refreshed(items, key, now)) == total_size(items),
        refreshed(items, key, now).len() == items.len(),
{
    if has_key(items, key) {
        lemma_written(items, key, items[position(items, key)].value, now);
    }
}

/// Nothing is found in an empty store.
pub proof fn lemma_lookup_empty(key: Seq<u8>)
    ensures
        lookup(Seq::<Item>::empty(), key) is None,
{
}

} // verus!
