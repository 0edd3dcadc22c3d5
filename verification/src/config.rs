//! Start-up configuration of the cache.

use vstd::prelude::*;

verus! {

/// A non-negative fraction `numerator / denominator`.
///
/// Watermarks are given as fractions of the byte budget, so that a threshold
/// such as nine tenths of the budget is exact.
#[derive(Clone, Copy, Debug, PartialEq, Eq)]
pub struct Ratio {
    pub numerator: u32,
    pub denominator: u32,
}

/// The largest whole number of bytes that does not exceed `max_bytes * ratio`.
///
/// A byte count is above `max_bytes * ratio` exactly when it is above this
/// number; see [`lemma_scaled_is_exact`].
pub open spec fn scaled(max_bytes: u64, ratio: Ratio) -> int
    recommends
        ratio.denominator > 0,
{
    (max_bytes as int * ratio.numerator as int) / (ratio.denominator as int)
}

/// Comparing a byte count with `scaled(max_bytes, ratio)` is the same as
/// comparing it with the exact product `max_bytes * numerator / denominator`.
pub proof fn lemma_scaled_is_exact(total: int, max_bytes: u64, ratio: Ratio)
    requires
        ratio.denominator > 0,
    ensures
        total > scaled(max_bytes, ratio) <==> total * ratio.denominator as int > max_bytes as int
            * ratio.numerator as int,
{
    let x = max_bytes as int * ratio.numerator as int;
    let d = ratio.denominator as int;
    vstd::arithmetic::div_mod::lemma_fundamental_div_mod(x, d);
    let q = x / d;
    if total > q {
        assert(total * d >= (q + 1) * d) by (nonlinear_arith)
            requires
                total >= q + 1,
                d > 0,
        ;
        assert((q + 1) * d == d * q + d) by (nonlinear_arith);
    } else {
        assert(total * d <= q * d) by (nonlinear_arith)
            requires
                total <= q,
                d > 0,
        ;
        assert(q * d == d * q) by (nonlinear_arith);
    }
}

/// Computes [`scaled`] without overflow.
fn scale(max_bytes: u64, ratio: Ratio) -> (limit: u128)
    requires
        ratio.denominator > 0,
    ensures
        limit == scaled(max_bytes, ratio),
{
    proof {
        assert(max_bytes as int * ratio.numerator as int <= 0xffff_ffff_ffff_ffff * 0xffff_ffff)
            by (nonlinear_arith)
            requires
                max_bytes <= 0xffff_ffff_ffff_ffff,
                ratio.numerator <= 0xffff_ffff,
        ;
    }
    (max_bytes as u128 * ratio.numerator as u128) / (ratio.denominator as u128)
}

/// When the cache evicts.
#[derive(Clone, Copy, Debug, PartialEq, Eq)]
pub enum EvictionMode {
    /// Inside the `put` that pushes the bytes charged above the high
    /// watermark: the writer pays, and the budget holds after every `put`.
    Inline,
    /// In passes that the owner of the cache starts, for instance from a
    /// periodic task. Between two passes the bytes charged may exceed the
    /// high watermark.
    Deferred,
}

/// Settings fixed when a cache is built.
#[derive(Clone, Copy, Debug, PartialEq, Eq)]
pub struct Config {
    /// Number of shards the key space is split into.
    pub shard_count: u32,
    /// Byte budget for live keys and values.
    pub max_bytes: u64,
    /// Eviction starts when the live bytes exceed this fraction of `max_bytes`.
    pub high_watermark: Ratio,
    /// Eviction stops once the live bytes are at most this fraction of `max_bytes`.
    pub low_watermark: Ratio,
    /// Longest key accepted, in bytes.
    pub max_key_len: usize,
    /// Longest value accepted, in bytes.
    pub max_value_len: usize,
    /// Whether a successful `get` marks the key as most recently used.
    pub refresh_on_read: bool,
    /// When the cache evicts.
    pub eviction: EvictionMode,
}

impl Config {
    /// Live bytes above this number start an eviction pass.
    pub open spec fn high_limit(&self) -> int {
        scaled(self.max_bytes, self.high_watermark)
    }

    /// An eviction pass stops once the live bytes are at most this number.
    pub open spec fn low_limit(&self) -> int {
        scaled(self.max_bytes, self.low_watermark)
    }

    /// The largest size, key plus value, of an entry that `put` accepts.
    pub open spec fn max_entry_size(&self) -> int {
        self.max_key_len as int + self.max_value_len as int
    }

    /// The most bytes that any cache charges between two operations: one
    /// entry of the largest size below `usize::MAX`. A `put` that would leave
    /// more evicts on the spot, whatever the eviction mode, so that neither
    /// the byte count nor the entry count can overflow.
    pub open spec fn hard_limit(&self) -> int {
        usize::MAX - self.max_entry_size() - 1
    }

    /// A `put` that leaves more bytes charged than this runs an eviction
    /// pass before it returns.
    pub open spec fn put_limit(&self) -> int {
        match self.eviction {
            EvictionMode::Inline => self.high_limit(),
            EvictionMode::Deferred => self.hard_limit(),
        }
    }

    /// A configuration is well formed when there is at least one shard, both
    /// watermarks are fractions with `low <= high <= 1` after scaling, and the
    /// budget plus two entries of the largest accepted size stays below
    /// `usize::MAX`, so that byte and entry counts never overflow.
    pub open spec fn wf(&self) -> bool {
        &&& self.shard_count >= 1
        &&& self.high_watermark.denominator > 0
        &&& self.low_watermark.denominator > 0
        &&& self.low_limit() <= self.high_limit() <= self.max_bytes
        &&& self.max_bytes as int + 2 * self.max_entry_size() < usize::MAX
    }

    /// Tells whether the configuration is well formed.
    pub fn is_valid(&self) -> (ok: bool)
        ensures
            ok == self.wf(),
    {
        if self.shard_count < 1 || self.high_watermark.denominator == 0
            || self.low_watermark.denominator == 0 {
            return false;
        }
        let high: u128 = scale(self.max_bytes, self.high_watermark);
        let low: u128 = scale(self.max_bytes, self.low_watermark);
        let entry: u128 = self.max_key_len as u128 + self.max_value_len as u128;
        low <= high && high <= self.max_bytes as u128 && self.max_bytes as u128 + 2 * entry
            < usize::MAX as u128
    }

    /// Computes [`Config::high_limit`].
    pub fn high_limit_bytes(&self) -> (limit: u64)
        requires
            self.wf(),
        ensures
            limit == self.high_limit(),
    {
        scale(self.max_bytes, self.high_watermark) as u64
    }

    /// Computes [`Config::put_limit`].
    pub fn put_limit_bytes(&self) -> (limit: u64)
        requires
            self.wf(),
        ensures
            limit == self.put_limit(),
            self.high_limit() <= limit <= self.hard_limit(),
    {
        match self.eviction {
            EvictionMode::Inline => self.high_limit_bytes(),
            EvictionMode::Deferred => usize::MAX as u64 - (self.max_key_len as u64
                + self.max_value_len as u64) - 1,
        }
    }

    /// Computes [`Config::low_limit`].
    pub fn low_limit_bytes(&self) -> (limit: u64)
        requires
            self.wf(),
        ensures
            limit == self.low_limit(),
    {
        scale(self.max_bytes, self.low_watermark) as u64
    }
}

} // verus!
