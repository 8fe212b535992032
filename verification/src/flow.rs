//! Flow kinds: the semantic dimension of a port, orthogonal to direction.
//!
//! The label (`Data`, `Control`, `Observe`) is a contract on what crosses a
//! port, not a property of the bits; from it follows an optional preference
//! for the physical carrier of an edge.
use vstd::prelude::*;

verus! {

/// The semantic kind of data flowing through a port.
#[derive(Debug, Clone, Copy, PartialEq, Eq, Hash, Structural)]
pub enum FlowKind {
    /// Information processed by the module, changing state content.
    Data,
    /// Instruction that changes module behaviour or configuration.
    Control,
    /// State snapshot for external consumption; never changes behaviour.
    Observe,
}

/// The carrier category that a `FlowKind` annotation prefers.
#[derive(Debug, Clone, Copy, PartialEq, Eq, Structural)]
pub enum CarrierCompatibility {
    /// No carrier constraint (Data, or the un-annotated default).
    Any,
    /// Prefer carriers that never block the producer.
    NonBlocking,
    /// Prefer carriers that drop on overflow or keep only the latest value.
    LatestWins,
}

/// The three-tier result of the `(FlowKind, LinkKind)` compatibility matrix.
#[derive(Debug, Clone, Copy, PartialEq, Eq, Structural)]
pub enum CarrierCompatResult {
    /// The carrier fully satisfies the semantic preference.
    Recommended,
    /// Suboptimal but never wrong (accepted silently).
    Permitted,
    /// The carrier contradicts the semantic contract.
    Violates,
}

/// The lower-case name of a flow kind.
pub open spec fn flow_name(f: FlowKind) -> Seq<char> {
    match f {
        FlowKind::Data => "data"@,
        FlowKind::Control => "control"@,
        FlowKind::Observe => "observe"@,
    }
}

/// The carrier preference implied by a flow kind.
pub open spec fn flow_preference(f: FlowKind) -> CarrierCompatibility {
    match f {
        FlowKind::Data => CarrierCompatibility::Any,
        FlowKind::Observe => CarrierCompatibility::NonBlocking,
        FlowKind::Control => CarrierCompatibility::LatestWins,
    }
}

impl FlowKind {
    /// The lower-case name of this flow kind (`"data"`, `"control"`, `"observe"`).
    pub fn as_str(&self) -> (s: &'static str)
        ensures
            s@ == flow_name(*self),
    {
        match self {
            FlowKind::Data => "data",
            FlowKind::Control => "control",
            FlowKind::Observe => "observe",
        }
    }

    /// The materialization preference derived from this semantic annotation:
    /// Observe must not back-pressure its source, Control is latest-wins,
    /// Data has no constraint.
    pub fn carrier_compatibility(&self) -> (c: CarrierCompatibility)
        ensures
            c == flow_preference(*self),
    {
        match self {
            FlowKind::Data => CarrierCompatibility::Any,
            FlowKind::Observe => CarrierCompatibility::NonBlocking,
            FlowKind::Control => CarrierCompatibility::LatestWins,
        }
    }
}

impl Default for FlowKind {
    /// The un-annotated default is `Data`.
    fn default() -> (f: Self)
        ensures
            f == FlowKind::Data,
    {
        FlowKind::Data
    }
}

} // verus!
