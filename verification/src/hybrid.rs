//! The discrete side of hybrid machines: a state that pairs a continuous
//! part with a discrete part, and the jumps that change the discrete part.
use vstd::prelude::*;

verus! {

/// A hybrid state: a continuous part and a discrete part.
#[derive(Debug, Clone)]
pub struct HybridState<C, D> {
    /// The part that evolves over time.
    pub continuous: C,
    /// The part that changes by jumps.
    pub discrete: D,
}

impl<C, D> HybridState<C, D> {
    /// A state of the two parts.
    pub fn new(continuous: C, discrete: D) -> (s: Self)
        ensures
            s.continuous == continuous,
            s.discrete == discrete,
    {
        HybridState { continuous, discrete }
    }

    /// The continuous part.
    pub fn continuous(&self) -> (c: &C)
        ensures
            *c == self.continuous,
    {
        &self.continuous
    }

    /// The discrete part.
    pub fn discrete(&self) -> (d: &D)
        ensures
            *d == self.discrete,
    {
        &self.discrete
    }
}

/// A discrete jump.
#[derive(Debug, Clone, PartialEq)]
pub enum Jump<D> {
    /// Move the discrete state to the given one.
    Transition(D),
    /// Move the discrete state and reinitialise the continuous one.
    Reset { new_discrete: D },
    /// Emit a value without changing either part.
    Emit(String),
}

/// The discrete state after a jump.
pub open spec fn after_jump<D>(current: D, j: Jump<D>) -> D {
    match j {
        Jump::Transition(d) => d,
        Jump::Reset { new_discrete } => new_discrete,
        Jump::Emit(_) => current,
    }
}

/// Applies a jump to the discrete part of a state; whether the continuous
/// part must be reinitialised is the second result.
pub fn apply_jump<C, D>(state: &mut HybridState<C, D>, j: Jump<D>) -> (reset: bool)
    ensures
        final(state).discrete == after_jump(old(state).discrete, j),
        final(state).continuous == old(state).continuous,
        reset == (j matches Jump::Transition(_) || j matches Jump::Reset { .. }),
{
    match j {
        Jump::Transition(d) => {
            state.discrete = d;
            true
        },
        Jump::Reset { new_discrete } => {
            state.discrete = new_discrete;
            true
        },
        Jump::Emit(_) => false,
    }
}

/// The time that passes at a tick of a hybrid driver: none at the first
/// tick, which only records the time; at a later one, the nanoseconds since
/// the last tick, or 0 when the clock went back.
pub fn tick_advance(initialised: bool, last_ns: u64, tick_ns: u64) -> (dt: Option<u64>)
    ensures
        dt == if !initialised {
            None
        } else {
            Some(if tick_ns >= last_ns { (tick_ns - last_ns) as u64 } else { 0u64 })
        },
{
    if !initialised {
        None
    } else {
        Some(tick_ns.saturating_sub(last_ns))
    }
}

} // verus!
