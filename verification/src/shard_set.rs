//! The whole key space: a fixed number of shards behind the router.

use crate::router::{route, shard_of};
use crate::shard::{Entry, EntryView, Shard};
use vstd::prelude::*;

verus! {

/// All shards of a cache. A key lives in the shard that the router assigns
/// to it and nowhere else.
pub struct ShardSet {
    shards: Vec<Shard>,
}

impl View for ShardSet {
    type V = Map<Seq<u8>, EntryView>;

    /// The shards taken together, as one map from keys to entries.
    closed spec fn view(&self) -> Map<Seq<u8>, EntryView> {
        Map::new(
            |key: Seq<u8>| self.shards@[shard_of(key, self.shards.len() as u32)]@.contains_key(key),
            |key: Seq<u8>| self.shards@[shard_of(key, self.shards.len() as u32)]@[key],
        )
    }
}

impl ShardSet {
    /// The number of shards.
    pub closed spec fn spec_shard_count(&self) -> u32 {
        self.shards.len() as u32
    }

    /// The content of shard `index`.
    pub closed spec fn shard_view(&self, index: int) -> Map<Seq<u8>, EntryView> {
        self.shards@[index]@
    }

    /// There is at least one shard, shard `i` carries the number `i`, and
    /// each shard holds only keys that the router assigns to it.
    pub closed spec fn wf(&self) -> bool {
        &&& 1 <= self.shards.len() <= u32::MAX
        &&& forall|i: int|
            0 <= i < self.shards.len() ==> (#[trigger] self.shards@[i]).wf()
                && self.shards@[i].spec_id() == i
        &&& forall|i: int, key: Seq<u8>|
            0 <= i < self.shards.len() && #[trigger] self.shards@[i]@.contains_key(key)
                ==> shard_of(key, self.shards.len() as u32) == i
    }

    /// A key is found in the shard that the router names for it, and in no other.
    pub proof fn lemma_one_shard_per_key(&self, key: Seq<u8>, index: int)
        requires
            self.wf(),
            0 <= index < self.spec_shard_count(),
        ensures
            self.shard_view(index).contains_key(key) <==> self@.contains_key(key) && index
                == shard_of(key, self.spec_shard_count()),
            self.shard_view(index).contains_key(key) ==> self.shard_view(index)[key] == self@[key],
    {
    }

    /// Creates `shard_count` empty shards.
    pub fn new(shard_count: u32) -> (set: ShardSet)
        requires
            shard_count >= 1,
        ensures
            set.wf(),
            set.spec_shard_count() == shard_count,
            set@ == Map::<Seq<u8>, EntryView>::empty(),
    {
        let mut shards: Vec<Shard> = Vec::new();
        let mut i: u32 = 0;
        while i < shard_count
            invariant
                i <= shard_count,
                shards.len() == i,
                forall|j: int|
                    0 <= j < i ==> (#[trigger] shards@[j]).wf() && shards@[j].spec_id() == j
                        && shards@[j]@ == Map::<Seq<u8>, EntryView>::empty(),
            decreases shard_count - i,
        {
            shards.push(Shard::new(i));
            i += 1;
        }
        ShardSet { shards }
    }

    /// The number of shards.
    pub fn shard_count(&self) -> (count: u32)
        requires
            self.wf(),
        ensures
            count == self.spec_shard_count(),
    {
        self.shards.len() as u32
    }

    /// Returns the entry stored under `key`, if there is one.
    pub fn get(&self, key: &[u8]) -> (found: Option<&Entry>)
        requires
            self.wf(),
        ensures
            match found {
                Some(entry) => self@.contains_key(key@) && entry@ == self@[key@],
                None => !self@.contains_key(key@),
            },
    {
        let index: u32 = route(key, self.shards.len() as u32);
        self.shards[index as usize].get(key)
    }

    /// Stores `entry` under `key` in the key's shard and returns the size
    /// that was charged for the entry it replaces.
    pub fn insert(&mut self, key: Vec<u8>, entry: Entry) -> (previous: Option<u64>)
        requires
            old(self).wf(),
        ensures
            final(self).wf(),
            final(self).spec_shard_count() == old(self).spec_shard_count(),
            final(self)@ == old(self)@.insert(key@, entry@),
            previous == if old(self)@.contains_key(key@) {
                Some(old(self)@[key@].size_bytes)
            } else {
                None::<u64>
            },
    {
        let index: u32 = route(key.as_slice(), self.shards.len() as u32);
        self.shards[index as usize].insert(key, entry)
    }

    /// Takes the entry stored under `key` out of the key's shard.
    pub fn remove(&mut self, key: &[u8]) -> (removed: Option<Entry>)
        requires
            old(self).wf(),
        ensures
            final(self).wf(),
            final(self).spec_shard_count() == old(self).spec_shard_count(),
            final(self)@ == old(self)@.remove(key@),
            match removed {
                Some(entry) => old(self)@.contains_key(key@) && entry@ == old(self)@[key@],
                None => !old(self)@.contains_key(key@),
            },
    {
        let index: u32 = route(key, self.shards.len() as u32);
        self.shards[index as usize].remove(key)
    }

    /// Sets the time of last access of the entry under `key` to `now`.
    /// Returns whether the key is present.
    pub fn refresh(&mut self, key: &[u8], now: u64) -> (present: bool)
        requires
            old(self).wf(),
        ensures
            final(self).wf(),
            final(self).spec_shard_count() == old(self).spec_shard_count(),
            present == old(self)@.contains_key(key@),
            final(self)@ == if present {
                old(self)@.insert(key@, EntryView { last_access: now, ..old(self)@[key@] })
            } else {
                old(self)@
            },
    {
        let index: u32 = route(key, self.shards.len() as u32);
        let present = self.shards[index as usize].refresh(key, now);
        proof {
            if present {
                assert(self@ =~= old(self)@.insert(
                    key@,
                    EntryView { last_access: now, ..old(self)@[key@] },
                ));
            }
        }
        present
    }
}

} // verus!
