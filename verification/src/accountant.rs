//! The memory accountant: the number of bytes charged for live entries.

use vstd::prelude::*;

verus! {

/// The change in charged bytes when an entry of `old_size` bytes is replaced
/// by one of `new_size` bytes. It is negative when the entry shrinks.
pub open spec fn size_delta(new_size: u64, old_size: u64) -> int {
    new_size as int - old_size as int
}

/// Computes [`size_delta`] in signed arithmetic.
pub fn signed_delta(new_size: u64, old_size: u64) -> (delta: i128)
    ensures
        delta == size_delta(new_size, old_size),
{
    new_size as i128 - old_size as i128
}

/// Counts the bytes charged for live keys and values.
pub struct MemoryAccountant {
    total_bytes: u64,
}

impl MemoryAccountant {
    /// The bytes charged at present.
    pub closed spec fn spec_total(&self) -> u64 {
        self.total_bytes
    }

    /// Creates an accountant with nothing charged.
    pub fn new() -> (accountant: MemoryAccountant)
        ensures
            accountant.spec_total() == 0,
    {
        MemoryAccountant { total_bytes: 0 }
    }

    /// The bytes charged at present.
    pub fn total_bytes(&self) -> (total: u64)
        ensures
            total == self.spec_total(),
    {
        self.total_bytes
    }

    /// Charges the replacement of an entry of `old_size` bytes by one of
    /// `new_size` bytes, where `old_size` is 0 for a new entry.
    ///
    /// The total changes by the signed difference of the two sizes. Where the
    /// result would be negative or above `u64::MAX`, nothing is charged and
    /// `false` is returned.
    pub fn replace(&mut self, new_size: u64, old_size: u64) -> (charged: bool)
        ensures
            charged == (0 <= old(self).spec_total() + size_delta(new_size, old_size) <= u64::MAX),
            final(self).spec_total() == if charged {
                old(self).spec_total() + size_delta(new_size, old_size)
            } else {
                old(self).spec_total() as int
            },
    {
        let next: i128 = self.total_bytes as i128 + signed_delta(new_size, old_size);
        if 0 <= next && next <= u64::MAX as i128 {
            self.total_bytes = next as u64;
            true
        } else {
            false
        }
    }

    /// Takes back the charge for an entry of `size` bytes that left the cache.
    ///
    /// Where more would be released than is charged, nothing changes and
    /// `false` is returned.
    pub fn release(&mut self, size: u64) -> (released: bool)
        ensures
            released == (size <= old(self).spec_total()),
            final(self).spec_total() == if released {
                old(self).spec_total() - size
            } else {
                old(self).spec_total() as int
            },
    {
        self.replace(0, size)
    }
}

} // verus!
