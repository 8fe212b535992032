//! Link kinds: the physical connection strategy between two ports.
//!
//! Every kind realises one of two algebras: a bounded FIFO `List<T>`
//! (`Inline`, `BoundedBuf`, `Channel`, `CasFreeRing`) or a single-slot
//! overwrite `Cell<T>` (`Latest`, `SharedState`).
use vstd::prelude::*;

verus! {

/// Behaviour when a bounded buffer is full.
#[derive(Debug, Clone, Copy, PartialEq, Eq, Structural)]
pub enum WritePolicy {
    /// Block the sender until a slot becomes available.
    Blocking,
    /// Drop the new item.
    Dropping,
    /// Overwrite the oldest item.
    Overwriting,
}

/// Behaviour when a bounded buffer is empty.
#[derive(Debug, Clone, Copy, PartialEq, Eq, Structural)]
pub enum ReadPolicy {
    /// Block the receiver until data is available.
    Blocking,
    /// Return immediately with an empty signal.
    NonBlocking,
}

/// Where a lock-free ring buffer lives in memory.
#[derive(Debug, Clone, Copy, PartialEq, Eq, Structural)]
pub enum MemoryRegion {
    /// A fixed address known at compile time.
    Static { addr: usize, size: usize },
    /// Heap-allocated by the runtime during deployment.
    Heap { size: usize },
}

/// The physical connection strategy between two ports.
#[derive(Debug, Clone, Copy, PartialEq, Eq, Structural)]
pub enum LinkKind {
    /// Direct function call; caller blocks.
    Inline,
    /// Lock-based bounded ring buffer with configurable backpressure.
    BoundedBuf { capacity: usize, write_policy: WritePolicy, read_policy: ReadPolicy },
    /// Multi-producer, single-consumer channel.
    Channel { capacity: usize, drop_when_full: bool },
    /// Single overwrite slot; `capacity` has no physical effect.
    Latest { capacity: usize },
    /// Lock-free single-producer single-consumer ring buffer.
    CasFreeRing { capacity: usize, storage: MemoryRegion },
    /// Shared state guarded by a read-write lock.
    SharedState,
}

/// The variant name of a link kind.
pub open spec fn link_kind_name(k: LinkKind) -> Seq<char> {
    match k {
        LinkKind::Inline => "Inline"@,
        LinkKind::BoundedBuf { .. } => "BoundedBuf"@,
        LinkKind::Channel { .. } => "Channel"@,
        LinkKind::Latest { .. } => "Latest"@,
        LinkKind::CasFreeRing { .. } => "CasFreeRing"@,
        LinkKind::SharedState => "SharedState"@,
    }
}

impl LinkKind {
    /// The variant name (`"Inline"`, `"BoundedBuf"`, ...).
    pub fn name(&self) -> (s: &'static str)
        ensures
            s@ == link_kind_name(*self),
    {
        match self {
            LinkKind::Inline => "Inline",
            LinkKind::BoundedBuf { .. } => "BoundedBuf",
            LinkKind::Channel { .. } => "Channel",
            LinkKind::Latest { .. } => "Latest",
            LinkKind::CasFreeRing { .. } => "CasFreeRing",
            LinkKind::SharedState => "SharedState",
        }
    }
}

/// A single connection between two `(machine, port)` endpoints.
#[derive(Debug)]
pub struct LinkSpec {
    /// Source port as `(machine_name, port_name)`.
    pub out: (String, String),
    /// Target port as `(machine_name, port_name)`.
    pub into: (String, String),
    /// Physical connection strategy.
    pub kind: LinkKind,
}

/// The mathematical value of a link: endpoint names by their characters.
pub struct LinkSpecView {
    pub out: (Seq<char>, Seq<char>),
    pub into: (Seq<char>, Seq<char>),
    pub kind: LinkKind,
}

impl View for LinkSpec {
    type V = LinkSpecView;

    open spec fn view(&self) -> LinkSpecView {
        LinkSpecView { out: (self.out.0@, self.out.1@), into: (self.into.0@, self.into.1@), kind: self.kind }
    }
}

impl LinkSpec {
    /// Create a link from two `(machine, port)` endpoints.
    pub fn new(out: (&str, &str), into: (&str, &str), kind: LinkKind) -> (l: Self)
        ensures
            l@ == (LinkSpecView { out: (out.0@, out.1@), into: (into.0@, into.1@), kind }),
    {
        LinkSpec {
            out: (out.0.to_owned(), out.1.to_owned()),
            into: (into.0.to_owned(), into.1.to_owned()),
            kind,
        }
    }
}

impl Clone for LinkSpec {
    fn clone(&self) -> (l: Self)
        ensures
            l@ == self@,
    {
        LinkSpec {
            out: (self.out.0.clone(), self.out.1.clone()),
            into: (self.into.0.clone(), self.into.1.clone()),
            kind: self.kind,
        }
    }
}

} // verus!
