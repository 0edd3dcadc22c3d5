//! The recency index: every live key, ordered from least to most recently used.
//!
//! The order is kept by an `lru::LruCache` that maps each key to `()`. The
//! declarations and wrappers at the top of this file state what this crate
//! takes on trust about `lru`; everything below them is proved from those
//! statements.

use vstd::prelude::*;

verus! {

/// `lru::LruCache`, held as an opaque value: what it contains is known only
/// through [`lru_keys`] and [`lru_limit`].
#[verifier::external_type_specification]
#[verifier::external_body]
#[verifier::reject_recursive_types(K)]
#[verifier::reject_recursive_types(V)]
#[verifier::reject_recursive_types(S)]
pub struct ExLruCache<K, V, S>(lru::LruCache<K, V, S>);

/// `lru::DefaultHasher`, the hasher that an `lru::LruCache` uses unless it is
/// given another. Nothing is stated of it.
#[verifier::external_type_specification]
#[verifier::external_body]
pub struct ExDefaultHasher(lru::DefaultHasher);

/// The keys held by an `lru::LruCache`, least recently used first.
pub uninterp spec fn lru_keys(cache: lru::LruCache<Vec<u8>, ()>) -> Seq<Seq<u8>>;

/// The number of keys that an `lru::LruCache` was made to hold at most.
pub uninterp spec fn lru_limit(cache: lru::LruCache<Vec<u8>, ()>) -> nat;

/// `keys` with `key`, which occurs in it, moved to the most recently used end.
pub open spec fn moved_to_back(keys: Seq<Seq<u8>>, key: Seq<u8>) -> Seq<Seq<u8>> {
    keys.remove(keys.index_of(key)).push(key)
}

/// `keys` after `key` was made the most recently used one, in an index that
/// holds at most `limit` keys: a key already present moves to the end; a new
/// key is appended, after the least recently used key has made room for it
/// where the index was full.
pub open spec fn touched_order(keys: Seq<Seq<u8>>, key: Seq<u8>, limit: nat) -> Seq<Seq<u8>> {
    if keys.contains(key) {
        moved_to_back(keys, key)
    } else if keys.len() == limit {
        keys.drop_first().push(key)
    } else {
        keys.push(key)
    }
}

/// Calls `lru::LruCache::unbounded`. The new cache holds no key, and its
/// limit is `NonZeroUsize::MAX`.
#[verifier::external_body]
fn lru_unbounded() -> (cache: lru::LruCache<Vec<u8>, ()>)
    ensures
        lru_keys(cache) == Seq::<Seq<u8>>::empty(),
        lru_limit(cache) == usize::MAX,
{
    lru::LruCache::unbounded()
}

/// Calls `lru::LruCache::len`, the number of keys held.
#[verifier::external_body]
fn lru_len(cache: &lru::LruCache<Vec<u8>, ()>) -> (n: usize)
    ensures
        n == lru_keys(*cache).len(),
{
    cache.len()
}

/// Calls `lru::LruCache::push`. A key already held moves to the most
/// recently used end and the key passed in comes back. A new key is appended;
/// where the cache was at its limit, the least recently used key leaves first
/// and is returned. Otherwise nothing is returned.
#[verifier::external_body]
fn lru_push(cache: &mut lru::LruCache<Vec<u8>, ()>, key: Vec<u8>) -> (back: Option<Vec<u8>>)
    ensures
        lru_limit(*final(cache)) == lru_limit(*old(cache)),
        lru_keys(*final(cache)) == touched_order(
            lru_keys(*old(cache)),
            key@,
            lru_limit(*old(cache)),
        ),
        match back {
            Some(k) => if lru_keys(*old(cache)).contains(key@) {
                k@ == key@
            } else {
                lru_keys(*old(cache)).len() == lru_limit(*old(cache)) && k@ == lru_keys(
                    *old(cache),
                )[0]
            },
            None => !lru_keys(*old(cache)).contains(key@) && lru_keys(*old(cache)).len()
                != lru_limit(*old(cache)),
        },
{
    match cache.push(key, ()) {
        Some((k, _)) => Some(k),
        None => None,
    }
}

/// Calls `lru::LruCache::promote`. A key that is held moves to the most
/// recently used end; the result tells whether it was held.
#[verifier::external_body]
fn lru_promote(cache: &mut lru::LruCache<Vec<u8>, ()>, key: &[u8]) -> (present: bool)
    ensures
        lru_limit(*final(cache)) == lru_limit(*old(cache)),
        present == lru_keys(*old(cache)).contains(key@),
        lru_keys(*final(cache)) == if present {
            moved_to_back(lru_keys(*old(cache)), key@)
        } else {
            lru_keys(*old(cache))
        },
{
    cache.promote(key)
}

/// Calls `lru::LruCache::pop_lru`. The least recently used key leaves the
/// cache and is returned; an empty cache stays as it is and returns nothing.
#[verifier::external_body]
fn lru_pop_lru(cache: &mut lru::LruCache<Vec<u8>, ()>) -> (victim: Option<Vec<u8>>)
    ensures
        lru_limit(*final(cache)) == lru_limit(*old(cache)),
        match victim {
            Some(k) => lru_keys(*old(cache)).len() > 0 && k@ == lru_keys(*old(cache))[0]
                && lru_keys(*final(cache)) == lru_keys(*old(cache)).drop_first(),
            None => lru_keys(*old(cache)).len() == 0 && lru_keys(*final(cache)) == lru_keys(
                *old(cache),
            ),
        },
{
    match cache.pop_lru() {
        Some((k, _)) => Some(k),
        None => None,
    }
}

/// Moving a key of a duplicate-free sequence to the end keeps the sequence
/// duplicate-free, keeps the other keys in their order, and keeps its length.
pub proof fn lemma_moved_to_back(keys: Seq<Seq<u8>>, key: Seq<u8>)
    requires
        keys.no_duplicates(),
        keys.contains(key),
    ensures
        moved_to_back(keys, key).no_duplicates(),
        moved_to_back(keys, key).len() == keys.len(),
        moved_to_back(keys, key).last() == key,
        forall|k: Seq<u8>| moved_to_back(keys, key).contains(k) <==> keys.contains(k),
        forall|j: int|
            0 <= j < keys.len() - 1 ==> #[trigger] moved_to_back(keys, key)[j] == if j
                < keys.index_of(key) {
                keys[j]
            } else {
                keys[j + 1]
            },
{
    let at = keys.index_of(key);
    let moved = moved_to_back(keys, key);
    assert forall|k: Seq<u8>| moved.contains(k) <==> keys.contains(k) by {
        if keys.contains(k) {
            let i = keys.index_of(k);
            if i < at {
                assert(moved[i] == k);
            } else if i == at {
                assert(moved[keys.len() - 1] == k);
            } else {
                assert(moved[i - 1] == k);
            }
        }
        if moved.contains(k) {
            let j = moved.index_of(k);
            if j < at {
                assert(keys[j] == k);
            } else if j < keys.len() - 1 {
                assert(keys[j + 1] == k);
            } else {
                assert(keys[at] == k);
            }
        }
    }
}

/// Dropping the first key of a duplicate-free sequence leaves a
/// duplicate-free sequence of keys that were there before.
proof fn lemma_first_dropped(keys: Seq<Seq<u8>>)
    requires
        keys.no_duplicates(),
        keys.len() > 0,
    ensures
        keys.drop_first().no_duplicates(),
        forall|k: Seq<u8>| keys.drop_first().contains(k) ==> keys.contains(k),
{
    let rest = keys.drop_first();
    assert forall|i: int| 0 <= i < rest.len() implies #[trigger] rest[i] == keys[i + 1] by {}
}

/// Appending a key that a duplicate-free sequence does not hold leaves it
/// duplicate-free.
proof fn lemma_appended(keys: Seq<Seq<u8>>, key: Seq<u8>)
    requires
        keys.no_duplicates(),
        !keys.contains(key),
    ensures
        keys.push(key).no_duplicates(),
{
    let more = keys.push(key);
    assert forall|i: int| 0 <= i < keys.len() implies #[trigger] more[i] == keys[i]
        && keys.contains(keys[i]) by {}
}

/// The keys of a cache, from the least to the most recently used.
pub struct RecencyIndex {
    inner: lru::LruCache<Vec<u8>, ()>,
}

impl View for RecencyIndex {
    type V = Seq<Seq<u8>>;

    /// The keys in eviction order: position 0 is the next victim.
    closed spec fn view(&self) -> Seq<Seq<u8>> {
        lru_keys(self.inner)
    }
}

impl RecencyIndex {
    /// The index holds as many keys as it is given, up to `usize::MAX`.
    pub closed spec fn unbounded(&self) -> bool {
        lru_limit(self.inner) == usize::MAX
    }

    /// No key occurs twice, and the index has no limit of its own.
    pub open spec fn wf(&self) -> bool {
        &&& self@.no_duplicates()
        &&& self@.len() <= usize::MAX
        &&& self.unbounded()
    }

    /// Creates an empty index.
    pub fn new() -> (index: RecencyIndex)
        ensures
            index.wf(),
            index@ == Seq::<Seq<u8>>::empty(),
    {
        RecencyIndex { inner: lru_unbounded() }
    }

    /// The number of keys in the index.
    pub fn len(&self) -> (n: usize)
        ensures
            n == self@.len(),
    {
        lru_len(&self.inner)
    }

    /// Makes `key` the most recently used key, adding it if it is new.
    ///
    /// Returns the key that had to leave to make room, which happens only in
    /// an index that already holds `usize::MAX` keys.
    pub fn touch(&mut self, key: Vec<u8>) -> (displaced: Option<Vec<u8>>)
        requires
            old(self).wf(),
        ensures
            final(self).wf(),
            final(self)@ == touched_order(old(self)@, key@, usize::MAX as nat),
            match displaced {
                Some(k) => !old(self)@.contains(key@) && old(self)@.len() == usize::MAX && k@
                    == old(self)@[0],
                None => old(self)@.contains(key@) || old(self)@.len() < usize::MAX,
            },
    {
        let ghost before = self@;
        let ghost wanted = key@;
        if lru_promote(&mut self.inner, key.as_slice()) {
            proof {
                lemma_moved_to_back(before, wanted);
            }
            None
        } else {
            proof {
                if before.len() == usize::MAX {
                    lemma_first_dropped(before);
                    lemma_appended(before.drop_first(), wanted);
                } else {
                    lemma_appended(before, wanted);
                }
            }
            lru_push(&mut self.inner, key)
        }
    }

    /// Makes `key` the most recently used key if it is in the index.
    /// Returns whether it is.
    pub fn promote(&mut self, key: &[u8]) -> (present: bool)
        requires
            old(self).wf(),
        ensures
            final(self).wf(),
            present == old(self)@.contains(key@),
            final(self)@ == if present {
                moved_to_back(old(self)@, key@)
            } else {
                old(self)@
            },
    {
        let ghost before = self@;
        let present = lru_promote(&mut self.inner, key);
        proof {
            if present {
                lemma_moved_to_back(before, key@);
            }
        }
        present
    }

    /// Takes the least recently used key out of the index.
    pub fn pop_lru(&mut self) -> (victim: Option<Vec<u8>>)
        requires
            old(self).wf(),
        ensures
            final(self).wf(),
            match victim {
                Some(k) => old(self)@.len() > 0 && k@ == old(self)@[0] && final(self)@ == old(
                    self,
                )@.drop_first(),
                None => old(self)@.len() == 0 && final(self)@ == old(self)@,
            },
    {
        proof {
            if self@.len() > 0 {
                lemma_first_dropped(self@);
            }
        }
        lru_pop_lru(&mut self.inner)
    }
}

} // verus!
