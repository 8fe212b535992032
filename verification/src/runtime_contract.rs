//! Facts a runtime declares about its own physics.
use vstd::prelude::*;

verus! {

/// The delay a runtime's links introduce between a send and the matching
/// receive.
#[derive(Debug, Clone, Copy, PartialEq, Eq, Structural)]
pub enum LinkDelay {
    /// No delay: a link is a direct call (fused / inline runtimes).
    Zero,
    /// One tick: every link is a buffer (channel-based runtimes).
    OneTick,
}

} // verus!
