//! One partition of the key space: a table from keys to entries.
//!
//! The table is a hash map from the 64-bit hash of a key to the short list of
//! slots whose keys share that hash.

use crate::router::{hash_key, hash_of};
use std::collections::HashMap;
use vstd::prelude::*;

verus! {

/// What the cache stores for one key.
#[derive(Debug)]
pub struct Entry {
    /// The stored value.
    pub value: Vec<u8>,
    /// Bytes charged for the entry: key length plus value length.
    pub size_bytes: u64,
    /// Logical time of the last write or refreshing read.
    pub last_access: u64,
}

/// The mathematical content of an [`Entry`].
pub struct EntryView {
    pub value: Seq<u8>,
    pub size_bytes: u64,
    pub last_access: u64,
}

impl View for Entry {
    type V = EntryView;

    open spec fn view(&self) -> EntryView {
        EntryView { value: self.value@, size_bytes: self.size_bytes, last_access: self.last_access }
    }
}

/// A key together with its entry.
struct Slot {
    key: Vec<u8>,
    entry: Entry,
}

/// Some slot of `bucket` carries `key`.
spec fn holds(bucket: Seq<Slot>, key: Seq<u8>) -> bool {
    exists|i: int| 0 <= i < bucket.len() && (#[trigger] bucket[i]).key@ == key
}

/// A position in `bucket` whose slot carries `key`.
spec fn slot_of(bucket: Seq<Slot>, key: Seq<u8>) -> int {
    choose|i: int| 0 <= i < bucket.len() && (#[trigger] bucket[i]).key@ == key
}

/// No two slots of `bucket` carry the same key.
spec fn distinct(bucket: Seq<Slot>) -> bool {
    forall|i: int, j: int|
        0 <= i < j < bucket.len() ==> (#[trigger] bucket[i]).key@ != (#[trigger] bucket[j]).key@
}

/// Every key in `bucket` hashes to `h`.
spec fn hashed_to(bucket: Seq<Slot>, h: u64) -> bool {
    forall|i: int| 0 <= i < bucket.len() ==> hash_of((#[trigger] bucket[i]).key@) == h
}

/// In a bucket without repeated keys, a key sits at one position only.
proof fn lemma_slot_unique(bucket: Seq<Slot>, key: Seq<u8>, i: int)
    requires
        distinct(bucket),
        0 <= i < bucket.len(),
        bucket[i].key@ == key,
    ensures
        holds(bucket, key),
        slot_of(bucket, key) == i,
{
}

/// `after` holds the slots of `before`, but for the one that carries `key`,
/// which may have been replaced, added or taken out.
spec fn same_elsewhere(before: Seq<Slot>, after: Seq<Slot>, key: Seq<u8>) -> bool {
    &&& forall|i: int|
        0 <= i < before.len() && (#[trigger] before[i]).key@ != key ==> after.contains(before[i])
    &&& forall|j: int|
        0 <= j < after.len() && (#[trigger] after[j]).key@ != key ==> before.contains(after[j])
}

/// A bucket that changed at `key` only gives the same answer as before for
/// every other key.
proof fn lemma_replaced(before: Seq<Slot>, after: Seq<Slot>, key: Seq<u8>)
    requires
        distinct(before),
        distinct(after),
        same_elsewhere(before, after, key),
    ensures
        forall|other: Seq<u8>|
            other != key ==> holds(before, other) == holds(after, other) && (holds(before, other)
                ==> before[slot_of(before, other)].entry == after[slot_of(after, other)].entry),
{
    assert forall|other: Seq<u8>| other != key implies holds(before, other) == holds(
        after,
        other,
    ) && (holds(before, other) ==> before[slot_of(before, other)].entry == after[slot_of(
        after,
        other,
    )].entry) by {
        if holds(before, other) {
            let slot = before[slot_of(before, other)];
            let j = after.index_of(slot);
            lemma_slot_unique(after, other, j);
        }
        if holds(after, other) {
            let slot = after[slot_of(after, other)];
            let i = before.index_of(slot);
            lemma_slot_unique(before, other, i);
        }
    }
}

/// Replacing the slot that carries a key by another slot with that key
/// changes the bucket at that key only.
proof fn lemma_bucket_update(before: Seq<Slot>, i: int, slot: Slot, h: u64)
    requires
        distinct(before),
        hashed_to(before, h),
        0 <= i < before.len(),
        before[i].key@ == slot.key@,
    ensures
        distinct(before.update(i, slot)),
        hashed_to(before.update(i, slot), h),
        same_elsewhere(before, before.update(i, slot), slot.key@),
        holds(before.update(i, slot), slot.key@),
        slot_of(before.update(i, slot), slot.key@) == i,
{
    let after = before.update(i, slot);
    assert forall|j: int| 0 <= j < before.len() && (#[trigger] before[j]).key@
        != slot.key@ implies after.contains(before[j]) by {
        assert(after[j] == before[j]);
    }
    assert forall|j: int| 0 <= j < after.len() && (#[trigger] after[j]).key@
        != slot.key@ implies before.contains(after[j]) by {
        assert(after[j] == before[j]);
    }
    assert forall|a: int, b: int| 0 <= a < b < after.len() implies (#[trigger] after[a]).key@ != (
    #[trigger] after[b]).key@ by {
        assert(after[a].key@ == before[a].key@);
        assert(after[b].key@ == before[b].key@);
    }
    assert forall|j: int| 0 <= j < after.len() implies hash_of((#[trigger] after[j]).key@)
        == h by {
        assert(after[j].key@ == before[j].key@);
    }
    lemma_slot_unique(after, slot.key@, i);
}

/// Appending a slot with a key that the bucket does not hold changes the
/// bucket at that key only.
proof fn lemma_bucket_push(before: Seq<Slot>, slot: Slot, h: u64)
    requires
        distinct(before),
        hashed_to(before, h),
        !holds(before, slot.key@),
        hash_of(slot.key@) == h,
    ensures
        distinct(before.push(slot)),
        hashed_to(before.push(slot), h),
        same_elsewhere(before, before.push(slot), slot.key@),
        holds(before.push(slot), slot.key@),
        slot_of(before.push(slot), slot.key@) == before.len(),
{
    let after = before.push(slot);
    assert forall|j: int| 0 <= j < before.len() && (#[trigger] before[j]).key@
        != slot.key@ implies after.contains(before[j]) by {
        assert(after[j] == before[j]);
    }
    assert forall|j: int| 0 <= j < after.len() && (#[trigger] after[j]).key@
        != slot.key@ implies before.contains(after[j]) by {
        assert(after[j] == before[j]);
    }
    assert forall|a: int, b: int| 0 <= a < b < after.len() implies (#[trigger] after[a]).key@ != (
    #[trigger] after[b]).key@ by {
        if b == before.len() {
            assert(before[a].key@ != slot.key@);
        }
    }
    lemma_slot_unique(after, slot.key@, before.len() as int);
}

/// Taking a slot out changes the bucket at the key of that slot only, and
/// the bucket no longer holds that key.
proof fn lemma_bucket_remove(before: Seq<Slot>, i: int, h: u64)
    requires
        distinct(before),
        hashed_to(before, h),
        0 <= i < before.len(),
    ensures
        distinct(before.remove(i)),
        hashed_to(before.remove(i), h),
        same_elsewhere(before, before.remove(i), before[i].key@),
        !holds(before.remove(i), before[i].key@),
{
    let after = before.remove(i);
    assert forall|j: int| 0 <= j < after.len() implies #[trigger] after[j] == if j < i {
        before[j]
    } else {
        before[j + 1]
    } by {}
    assert forall|j: int| 0 <= j < before.len() && (#[trigger] before[j]).key@
        != before[i].key@ implies after.contains(before[j]) by {
        if j < i {
            assert(after[j] == before[j]);
        } else {
            assert(after[j - 1] == before[j]);
        }
    }
}

/// Byte-wise equality of two strings.
fn same_bytes(a: &[u8], b: &[u8]) -> (same: bool)
    ensures
        same == (a@ == b@),
{
    if a.len() != b.len() {
        return false;
    }
    let mut i: usize = 0;
    while i < a.len()
        invariant
            i <= a.len(),
            a.len() == b.len(),
            forall|j: int| 0 <= j < i ==> a@[j] == b@[j],
        decreases a.len() - i,
    {
        if a[i] != b[i] {
            return false;
        }
        i += 1;
    }
    assert(a@ =~= b@);
    true
}

/// Looks for the slot of `bucket` that carries `key`.
fn find(bucket: &Vec<Slot>, key: &[u8]) -> (found: Option<usize>)
    ensures
        match found {
            Some(i) => i < bucket.len() && bucket[i as int].key@ == key@,
            None => !holds(bucket@, key@),
        },
{
    let mut i: usize = 0;
    while i < bucket.len()
        invariant
            i <= bucket.len(),
            forall|j: int| 0 <= j < i ==> (#[trigger] bucket[j]).key@ != key@,
        decreases bucket.len() - i,
    {
        if same_bytes(bucket[i].key.as_slice(), key) {
            return Some(i);
        }
        i += 1;
    }
    None
}

/// One partition of the key space.
pub struct Shard {
    id: u32,
    table: HashMap<u64, Vec<Slot>>,
}

impl View for Shard {
    type V = Map<Seq<u8>, EntryView>;

    /// The shard as a map from keys to entries.
    closed spec fn view(&self) -> Map<Seq<u8>, EntryView> {
        Map::new(
            |key: Seq<u8>|
                self.table@.contains_key(hash_of(key)) && holds(self.table@[hash_of(key)]@, key),
            |key: Seq<u8>|
                {
                    let bucket = self.table@[hash_of(key)]@;
                    bucket[slot_of(bucket, key)].entry@
                },
        )
    }
}

impl Shard {
    /// The number that identifies this shard.
    pub closed spec fn spec_id(&self) -> u32 {
        self.id
    }

    /// Every bucket holds distinct keys, all with the bucket's hash.
    pub closed spec fn wf(&self) -> bool {
        forall|h: u64| #[trigger]
            self.table@.contains_key(h) ==> distinct(self.table@[h]@) && hashed_to(
                self.table@[h]@,
                h,
            )
    }

    /// Creates an empty shard.
    pub fn new(id: u32) -> (shard: Shard)
        ensures
            shard.wf(),
            shard.spec_id() == id,
            shard@ == Map::<Seq<u8>, EntryView>::empty(),
    {
        let shard = Shard { id, table: HashMap::new() };
        shard
    }

    /// The number that identifies this shard.
    pub fn id(&self) -> (id: u32)
        ensures
            id == self.spec_id(),
    {
        self.id
    }

    /// Stores `entry` under `key`, replacing what was there, and returns the
    /// size that was charged for the replaced entry.
    pub fn insert(&mut self, key: Vec<u8>, entry: Entry) -> (previous: Option<u64>)
        requires
            old(self).wf(),
        ensures
            final(self).wf(),
            final(self).spec_id() == old(self).spec_id(),
            final(self)@ == old(self)@.insert(key@, entry@),
            previous == if old(self)@.contains_key(key@) {
                Some(old(self)@[key@].size_bytes)
            } else {
                None::<u64>
            },
    {
        let h: u64 = hash_key(key.as_slice());
        let mut bucket: Vec<Slot> = match self.table.remove(&h) {
            Some(bucket) => bucket,
            None => Vec::new(),
        };
        let ghost before = bucket@;
        let ghost slot = Slot { key, entry };
        let previous = match find(&bucket, key.as_slice()) {
            Some(i) => {
                let size: u64 = bucket[i].entry.size_bytes;
                proof {
                    lemma_slot_unique(before, key@, i as int);
                    lemma_bucket_update(before, i as int, slot, h);
                }
                bucket[i] = Slot { key, entry };
                Some(size)
            },
            None => {
                proof {
                    lemma_bucket_push(before, slot, h);
                }
                bucket.push(Slot { key, entry });
                None
            },
        };
        proof {
            lemma_replaced(before, bucket@, key@);
        }
        self.table.insert(h, bucket);
        assert(self@ =~= old(self)@.insert(key@, entry@));
        previous
    }

    /// Takes the entry stored under `key` out of the shard.
    pub fn remove(&mut self, key: &[u8]) -> (removed: Option<Entry>)
        requires
            old(self).wf(),
        ensures
            final(self).wf(),
            final(self).spec_id() == old(self).spec_id(),
            final(self)@ == old(self)@.remove(key@),
            match removed {
                Some(entry) => old(self)@.contains_key(key@) && entry@ == old(self)@[key@],
                None => !old(self)@.contains_key(key@),
            },
    {
        let h: u64 = hash_key(key);
        let removed = match self.table.remove(&h) {
            Some(mut bucket) => {
                let ghost before = bucket@;
                let removed = match find(&bucket, key) {
                    Some(i) => {
                        proof {
                            lemma_slot_unique(before, key@, i as int);
                            lemma_bucket_remove(before, i as int, h);
                        }
                        Some(bucket.remove(i).entry)
                    },
                    None => None,
                };
                proof {
                    lemma_replaced(before, bucket@, key@);
                }
                if bucket.len() > 0 {
                    self.table.insert(h, bucket);
                }
                removed
            },
            None => None,
        };
        assert(self@ =~= old(self)@.remove(key@));
        removed
    }

    /// Sets the time of last access of the entry under `key` to `now`.
    /// Returns whether the key is present.
    pub fn refresh(&mut self, key: &[u8], now: u64) -> (present: bool)
        requires
            old(self).wf(),
        ensures
            final(self).wf(),
            final(self).spec_id() == old(self).spec_id(),
            present == old(self)@.contains_key(key@),
            final(self)@ == if present {
                old(self)@.insert(key@, EntryView { last_access: now, ..old(self)@[key@] })
            } else {
                old(self)@
            },
    {
        let h: u64 = hash_key(key);
        let present = match self.table.remove(&h) {
            Some(mut bucket) => {
                let ghost before = bucket@;
                let present = match find(&bucket, key) {
                    Some(i) => {
                        bucket[i].entry.last_access = now;
                        proof {
                            lemma_slot_unique(before, key@, i as int);
                            lemma_bucket_update(before, i as int, bucket@[i as int], h);
                            assert(bucket@ =~= before.update(i as int, bucket@[i as int]));
                        }
                        true
                    },
                    None => false,
                };
                proof {
                    lemma_replaced(before, bucket@, key@);
                }
                self.table.insert(h, bucket);
                present
            },
            None => false,
        };
        assert(self@ =~= if present {
            old(self)@.insert(key@, EntryView { last_access: now, ..old(self)@[key@] })
        } else {
            old(self)@
        });
        present
    }

    /// Returns the entry stored under `key`, if there is one.
    pub fn get(&self, key: &[u8]) -> (found: Option<&Entry>)
        requires
            self.wf(),
        ensures
            match found {
                Some(entry) => self@.contains_key(key@) && entry@ == self@[key@],
                None => !self@.contains_key(key@),
            },
    {
        let h: u64 = hash_key(key);
        match self.table.get(&h) {
            Some(bucket) => {
                match find(bucket, key) {
                    Some(i) => {
                        proof {
                            lemma_slot_unique(bucket@, key@, i as int);
                        }
                        Some(&bucket[i].entry)
                    },
                    None => None,
                }
            },
            None => None,
        }
    }
}

} // verus!
