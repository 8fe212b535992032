//! Physical resource declarations of a machine instance.
use vstd::prelude::*;

verus! {

/// A bounded thread pool that a machine may run on.
#[derive(Debug, Clone, Copy, PartialEq, Eq)]
pub struct ThreadPoolSpec {
    /// Upper bound on the threads the pool may occupy.
    pub max_threads: usize,
}

/// How a machine is scheduled.
#[derive(Debug, PartialEq, Eq)]
pub enum ExecutionHint {
    /// Cooperative scheduling on the shared IO runtime (no dedicated thread).
    Async,
    /// One dedicated CPU thread.
    CpuBound,
    /// `n` dedicated CPU threads.
    CpuBoundN(usize),
    /// A dedicated bounded thread pool.
    ThreadPool(ThreadPoolSpec),
    /// A separate process, launched with the given command.
    Subprocess(String),
}

/// The physical resource declaration of a machine.
#[derive(Debug)]
pub struct MachinePhysicalSpec {
    /// Scheduling class.
    pub execution: ExecutionHint,
    /// Declared heap budget of the machine's state, in bytes.
    pub state_heap_bytes: usize,
    /// Whether the state should be cache-line aligned.
    pub cache_line_align: bool,
    /// Whether the machine is declared deterministic (replay-safe).
    pub deterministic: bool,
    /// Upper bound on cleanup latency, in microseconds.
    pub max_cleanup_latency_us: u64,
    /// Declared per-message processing latency, in microseconds (0 = undeclared).
    pub per_message_latency_us: u64,
}

impl Clone for ExecutionHint {
    fn clone(&self) -> (e: Self)
        ensures
            e == *self,
    {
        match self {
            ExecutionHint::Async => ExecutionHint::Async,
            ExecutionHint::CpuBound => ExecutionHint::CpuBound,
            ExecutionHint::CpuBoundN(n) => ExecutionHint::CpuBoundN(*n),
            ExecutionHint::ThreadPool(p) => ExecutionHint::ThreadPool(*p),
            ExecutionHint::Subprocess(cmd) => ExecutionHint::Subprocess(cmd.clone()),
        }
    }
}

impl Clone for MachinePhysicalSpec {
    fn clone(&self) -> (p: Self)
        ensures
            p == *self,
    {
        MachinePhysicalSpec {
            execution: self.execution.clone(),
            state_heap_bytes: self.state_heap_bytes,
            cache_line_align: self.cache_line_align,
            deterministic: self.deterministic,
            max_cleanup_latency_us: self.max_cleanup_latency_us,
            per_message_latency_us: self.per_message_latency_us,
        }
    }
}

/// Whether a physical spec has every field at its default value.
pub open spec fn is_default_physical(p: MachinePhysicalSpec) -> bool {
    &&& p.execution is Async
    &&& p.state_heap_bytes == 4096
    &&& !p.cache_line_align
    &&& !p.deterministic
    &&& p.max_cleanup_latency_us == 10_000
    &&& p.per_message_latency_us == 0
}

impl Default for MachinePhysicalSpec {
    fn default() -> (p: Self)
        ensures
            is_default_physical(p),
    {
        MachinePhysicalSpec {
            execution: ExecutionHint::Async,
            state_heap_bytes: 4096,
            cache_line_align: false,
            deterministic: false,
            max_cleanup_latency_us: 10_000,
            per_message_latency_us: 0,
        }
    }
}

/// Dedicated CPU threads that an execution hint occupies.
pub open spec fn dedicated_threads(e: ExecutionHint) -> nat {
    match e {
        ExecutionHint::CpuBound => 1,
        ExecutionHint::CpuBoundN(n) => n as nat,
        ExecutionHint::ThreadPool(spec) => spec.max_threads as nat,
        _ => 0,
    }
}

} // verus!
