//! The eviction engine: the rule that decides, from the bytes charged and
//! the number of live entries, whether the least recently used entry must go.
//!
//! The engine is a machine with two states. It leaves `Idle` when the bytes
//! charged exceed the high watermark. While `Evicting` it asks for one victim
//! after the other, until the bytes charged are at or below the low watermark
//! or a single entry is left. The most recently used entry is therefore never
//! a victim: an entry too large for the budget stays readable after the write
//! that brought it, and the pass ends as unrecoverable.

use crate::config::Config;
use vstd::prelude::*;

verus! {

/// The state of the eviction engine.
#[derive(Clone, Copy, Debug, PartialEq, Eq)]
pub enum EvictionState {
    /// No pass is running.
    Idle,
    /// A pass is running: victims are being removed.
    Evicting,
}

/// What the engine asks of the cache in one step.
#[derive(Clone, Copy, Debug, PartialEq, Eq)]
pub enum Action {
    /// Nothing to do: the high watermark is not exceeded.
    Rest,
    /// Remove the least recently used entry, then ask again.
    Evict,
    /// The pass is over: the low watermark is reached.
    Done,
    /// The pass is over, and the low watermark cannot be reached: at most one
    /// entry is left and it is still too large.
    GiveUp,
}

/// How an eviction pass ended.
#[derive(Clone, Copy, Debug, PartialEq, Eq)]
pub enum PassOutcome {
    /// The high watermark was not exceeded; nothing was removed.
    NotNeeded,
    /// The bytes charged are at or below the low watermark.
    Reclaimed,
    /// The low watermark could not be reached.
    Unrecoverable,
}

/// One step of the engine: the next state and the action to take.
#[derive(Clone, Copy, Debug, PartialEq, Eq)]
pub struct Step {
    pub next: EvictionState,
    pub action: Action,
}

/// The step that the engine takes in `state` when `total` bytes are charged
/// for `live` entries.
pub open spec fn spec_step(state: EvictionState, total: u64, live: nat, config: Config) -> Step {
    if state is Idle && total <= config.high_limit() {
        Step { next: EvictionState::Idle, action: Action::Rest }
    } else if total <= config.low_limit() {
        Step { next: EvictionState::Idle, action: Action::Done }
    } else if live <= 1 {
        Step { next: EvictionState::Idle, action: Action::GiveUp }
    } else {
        Step { next: EvictionState::Evicting, action: Action::Evict }
    }
}

/// Decides the next step of the engine.
pub fn step(state: EvictionState, total: u64, live: usize, config: &Config) -> (s: Step)
    requires
        config.wf(),
    ensures
        s == spec_step(state, total, live as nat, *config),
{
    let idle = match state {
        EvictionState::Idle => true,
        EvictionState::Evicting => false,
    };
    if idle && total <= config.high_limit_bytes() {
        Step { next: EvictionState::Idle, action: Action::Rest }
    } else if total <= config.low_limit_bytes() {
        Step { next: EvictionState::Idle, action: Action::Done }
    } else if live <= 1 {
        Step { next: EvictionState::Idle, action: Action::GiveUp }
    } else {
        Step { next: EvictionState::Evicting, action: Action::Evict }
    }
}

} // verus!
