//! Time stamps with nanosecond precision.
use vstd::prelude::*;

verus! {

/// A point in time, in nanoseconds since an epoch chosen by the runtime.
#[derive(Debug, Clone, Copy, PartialEq, Eq, Structural)]
pub struct TimeTick {
    /// Nanoseconds since the epoch.
    pub ns: u64,
}

impl TimeTick {
    /// The tick at `ns` nanoseconds.
    pub fn from_nanos(ns: u64) -> (t: Self)
        ensures
            t.ns == ns,
    {
        TimeTick { ns }
    }
}

} // verus!
