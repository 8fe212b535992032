//! What a machine's `process` step returns, and the errors of its lifecycle.
//!
//! A one-to-one machine returns a [`SingleOutput`], a fan-out machine a
//! [`MultiOutput`], a machine with two fixed output ports a
//! [`TupleOutput`]; a runtime handles all three as a [`ProcessOutput`].
use vstd::prelude::*;
use vstd::string::StringExecFns;
use crate::port::{ConfigSchema, Lifecycle, MachineContext, MachineContextView, PortSchema};
use crate::resource::MachinePhysicalSpec;
use crate::entity::EntityRestoreError;

verus! {

/// The output of a one-to-one step.
#[derive(Debug, Clone, PartialEq)]
pub enum SingleOutput<O> {
    /// One value.
    Yield(O),
    /// No value this step.
    Idle,
    /// The machine has finished.
    Done,
}

/// The output of a fan-out step.
#[derive(Debug, Clone, PartialEq)]
pub enum MultiOutput<O> {
    /// One value.
    Yield(O),
    /// Several values, delivered in order.
    YieldMulti(Vec<O>),
    /// No value this step.
    Idle,
    /// The machine has finished.
    Done,
}

/// The output of a step with exactly two output ports.
#[derive(Debug, Clone, PartialEq)]
pub enum TupleOutput<O> {
    /// One value for each port.
    Yield(O, O),
    /// No value this step.
    Idle,
    /// The machine has finished.
    Done,
}

/// The output of any step, as a runtime handles it.
#[derive(Debug, Clone, PartialEq)]
pub enum ProcessOutput<O> {
    /// One value.
    Yield(O),
    /// Several values, in order.
    YieldMulti(Vec<O>),
    /// No value this step.
    Idle,
    /// The machine has finished.
    Done,
}

/// The values and the finished flag of a step's output.
pub open spec fn outputs_of<O>(p: ProcessOutput<O>) -> (Seq<O>, bool) {
    match p {
        ProcessOutput::Yield(o) => (seq![o], false),
        ProcessOutput::YieldMulti(os) => (os@, false),
        ProcessOutput::Idle => (Seq::empty(), false),
        ProcessOutput::Done => (Seq::empty(), true),
    }
}

impl<O> ProcessOutput<O> {
    /// The values of the step, in order, and whether the machine finished.
    pub fn into_outputs(self) -> (r: (Vec<O>, bool))
        ensures
            (r.0@, r.1) == outputs_of(self),
    {
        match self {
            ProcessOutput::Yield(o) => (vec![o], false),
            ProcessOutput::YieldMulti(os) => (os, false),
            ProcessOutput::Idle => (Vec::new(), false),
            ProcessOutput::Done => (Vec::new(), true),
        }
    }
}

/// A step output that converts to the runtime's form.
pub trait MachineOutput<O>: Sized {
    /// The same output as a [`ProcessOutput`].
    fn into_process_output(self) -> ProcessOutput<O>;

    /// The values of the step, in order, and whether the machine finished.
    fn into_outputs(self) -> (Vec<O>, bool);
}

/// A one-to-one output as a runtime output.
pub open spec fn single_as_process<O>(s: SingleOutput<O>) -> ProcessOutput<O> {
    match s {
        SingleOutput::Yield(o) => ProcessOutput::Yield(o),
        SingleOutput::Idle => ProcessOutput::Idle,
        SingleOutput::Done => ProcessOutput::Done,
    }
}

impl<O> MachineOutput<O> for SingleOutput<O> {
    fn into_process_output(self) -> (p: ProcessOutput<O>)
        ensures
            p == single_as_process(self),
    {
        match self {
            SingleOutput::Yield(o) => ProcessOutput::Yield(o),
            SingleOutput::Idle => ProcessOutput::Idle,
            SingleOutput::Done => ProcessOutput::Done,
        }
    }

    fn into_outputs(self) -> (r: (Vec<O>, bool))
        ensures
            (r.0@, r.1) == outputs_of(single_as_process(self)),
    {
        match self {
            SingleOutput::Yield(o) => (vec![o], false),
            SingleOutput::Idle => (Vec::new(), false),
            SingleOutput::Done => (Vec::new(), true),
        }
    }
}

impl<O> MachineOutput<O> for MultiOutput<O> {
    fn into_process_output(self) -> (p: ProcessOutput<O>)
        ensures
            p == match self {
                MultiOutput::Yield(o) => ProcessOutput::Yield(o),
                MultiOutput::YieldMulti(os) => ProcessOutput::YieldMulti(os),
                MultiOutput::Idle => ProcessOutput::Idle,
                MultiOutput::Done => ProcessOutput::Done,
            },
    {
        match self {
            MultiOutput::Yield(o) => ProcessOutput::Yield(o),
            MultiOutput::YieldMulti(os) => ProcessOutput::YieldMulti(os),
            MultiOutput::Idle => ProcessOutput::Idle,
            MultiOutput::Done => ProcessOutput::Done,
        }
    }

    fn into_outputs(self) -> (r: (Vec<O>, bool))
        ensures
            (r.0@, r.1) == match self {
                MultiOutput::Yield(o) => (seq![o], false),
                MultiOutput::YieldMulti(os) => (os@, false),
                MultiOutput::Idle => (Seq::<O>::empty(), false),
                MultiOutput::Done => (Seq::<O>::empty(), true),
            },
    {
        match self {
            MultiOutput::Yield(o) => (vec![o], false),
            MultiOutput::YieldMulti(os) => (os, false),
            MultiOutput::Idle => (Vec::new(), false),
            MultiOutput::Done => (Vec::new(), true),
        }
    }
}

impl<O> MachineOutput<O> for TupleOutput<O> {
    fn into_process_output(self) -> (p: ProcessOutput<O>)
        ensures
            match self {
                TupleOutput::Yield(a, b) => p matches ProcessOutput::YieldMulti(v) && v@ == seq![a, b],
                TupleOutput::Idle => p matches ProcessOutput::Idle,
                TupleOutput::Done => p matches ProcessOutput::Done,
            },
    {
        match self {
            TupleOutput::Yield(a, b) => ProcessOutput::YieldMulti(vec![a, b]),
            TupleOutput::Idle => ProcessOutput::Idle,
            TupleOutput::Done => ProcessOutput::Done,
        }
    }

    fn into_outputs(self) -> (r: (Vec<O>, bool))
        ensures
            (r.0@, r.1) == match self {
                TupleOutput::Yield(a, b) => (seq![a, b], false),
                TupleOutput::Idle => (Seq::<O>::empty(), false),
                TupleOutput::Done => (Seq::<O>::empty(), true),
            },
    {
        match self {
            TupleOutput::Yield(a, b) => (vec![a, b], false),
            TupleOutput::Idle => (Vec::new(), false),
            TupleOutput::Done => (Vec::new(), true),
        }
    }
}

/// A state machine `(S, I, O, δ)`: a state, an input interface, an output
/// interface and one step, with a start-up and a clean-up around its life.
///
/// Implementors decide what `init`, `process` and `cleanup` do; the
/// defaults below say what a machine that does not override them does.
pub trait Machine: Sized {
    /// Persistent state.
    type State;
    /// The input interface: one variant per input port.
    type Input;
    /// The output interface: one variant per output port.
    type Output;
    /// What a step returns: a [`SingleOutput`], [`MultiOutput`] or
    /// [`TupleOutput`] of `Output`.
    type ProcessOutput: MachineOutput<Self::Output>;

    /// The name, as `name` gives it.
    spec fn name_spec() -> &'static str;

    /// Human-readable name.
    fn name() -> (r: &'static str)
        ensures
            r == Self::name_spec();

    /// The machine's port interface.
    fn port_schema() -> PortSchema;

    /// The machine's configuration parameters.
    fn config_schema() -> ConfigSchema;

    /// Whether start-up in a context `ctx` may give `r`.
    spec fn inits(ctx: MachineContextView, r: Result<Self::State, InitError>) -> bool;

    /// Start-up: acquire resources and build the first state.
    fn init(ctx: &MachineContext) -> (r: Result<Self::State, InitError>)
        ensures
            Self::inits(ctx@, r);

    /// Whether the machine can be driven yet.
    fn is_ready(ctx: &MachineContext) -> (r: bool)
        default_ensures
            r,
    {
        true
    }

    /// Whether one step from `state` in `ctx` on `input` may end in `next`
    /// having given `out`.
    spec fn processes(state: Self::State, ctx: MachineContextView, input: Self::Input, next: Self::State, out: Self::ProcessOutput) -> bool;

    /// One unit of work.
    fn process(state: &mut Self::State, ctx: &MachineContext, input: Self::Input) -> (out: Self::ProcessOutput)
        ensures
            Self::processes(*old(state), ctx@, input, *final(state), out);

    /// Whether cleaning `state` up in `ctx` may give `r`.
    spec fn cleans(state: Self::State, ctx: MachineContextView, r: Result<(), CleanupError>) -> bool;

    /// Clean-up before the machine goes away.
    fn cleanup(state: Self::State, ctx: &MachineContext) -> (r: Result<(), CleanupError>)
        ensures
            Self::cleans(state, ctx@, r);

    /// The physical resources the machine declares.
    fn physical_spec() -> (p: MachinePhysicalSpec)
        default_ensures
            crate::resource::is_default_physical(p),
    {
        MachinePhysicalSpec::default()
    }

    /// Whether the machine is deterministic (replay-safe).
    fn deterministic() -> (r: bool)
        default_ensures
            !r,
    {
        false
    }

    /// The state serialised for a checkpoint, where the machine supports it.
    fn checkpoint(state: &Self::State) -> (r: Option<Vec<u8>>)
        default_ensures
            r is None,
    {
        None
    }

    /// Restores the state from a checkpoint.
    fn restore(state: &mut Self::State, data: &[u8]) -> (r: Result<(), EntityRestoreError>)
        default_ensures
            r == Err::<(), EntityRestoreError>(EntityRestoreError::NotSupported),
            *final(state) == *old(state),
    {
        Err(EntityRestoreError::NotSupported)
    }
}

/// A machine whose output depends only on its state before the step, which
/// makes feedback through it well defined.
pub trait Moore: Machine {
}

/// Step outputs with a count of values fixed by their type: the ones a fused
/// pipeline can take.
pub trait FusedCompatible {
}

impl<O> FusedCompatible for SingleOutput<O> {
}

impl<O> FusedCompatible for TupleOutput<O> {
}

/// A machine whose steps yield a fixed number of values, and so may be fused
/// into a pipeline.
pub trait FusedInline: Machine where Self::ProcessOutput: FusedCompatible {
}

/// An error of a machine's start-up.
#[derive(Debug)]
pub enum InitError {
    ResourceAcquisitionFailed(String),
    ConfigurationInvalid(String),
    PortRegistrationFailed(String),
    Other(String),
}

/// The text of a start-up error.
pub open spec fn init_error_text(e: &InitError) -> Seq<char> {
    match e {
        InitError::ResourceAcquisitionFailed(s) => "resource: "@ + s@,
        InitError::ConfigurationInvalid(s) => "config: "@ + s@,
        InitError::PortRegistrationFailed(s) => "port: "@ + s@,
        InitError::Other(s) => s@,
    }
}

impl InitError {
    /// The human-readable text of the error.
    pub fn message(&self) -> (m: String)
        ensures
            m@ == init_error_text(self),
    {
        match self {
            InitError::ResourceAcquisitionFailed(s) => String::from_str("resource: ").concat(s.as_str()),
            InitError::ConfigurationInvalid(s) => String::from_str("config: ").concat(s.as_str()),
            InitError::PortRegistrationFailed(s) => String::from_str("port: ").concat(s.as_str()),
            InitError::Other(s) => s.clone(),
        }
    }
}

/// An error of a machine's clean-up.
#[derive(Debug)]
pub enum CleanupError {
    ResourceReleaseFailed(String),
    Timeout,
    Other(String),
}

/// The text of a clean-up error.
pub open spec fn cleanup_error_text(e: &CleanupError) -> Seq<char> {
    match e {
        CleanupError::ResourceReleaseFailed(s) => "resource release: "@ + s@,
        CleanupError::Timeout => "timeout"@,
        CleanupError::Other(s) => s@,
    }
}

impl CleanupError {
    /// The human-readable text of the error.
    pub fn message(&self) -> (m: String)
        ensures
            m@ == cleanup_error_text(self),
    {
        match self {
            CleanupError::ResourceReleaseFailed(s) => String::from_str("resource release: ").concat(s.as_str()),
            CleanupError::Timeout => String::from_str("timeout"),
            CleanupError::Other(s) => s.clone(),
        }
    }
}

/// A lifecycle stage of a machine: it is being set up.
#[derive(Debug, Clone, Copy, PartialEq, Eq, Structural)]
pub struct Init;

/// A lifecycle stage of a machine: it processes input.
#[derive(Debug, Clone, Copy, PartialEq, Eq, Structural)]
pub struct Running;

/// A lifecycle stage of a machine: it drains what is left.
#[derive(Debug, Clone, Copy, PartialEq, Eq, Structural)]
pub struct Stopping;

/// A lifecycle stage of a machine: it has stopped.
#[derive(Debug, Clone, Copy, PartialEq, Eq, Structural)]
pub struct Stopped;

/// The lifecycle stages a machine handle can be in.
pub trait LifecycleState {
}

impl LifecycleState for Init {
}

impl LifecycleState for Running {
}

impl LifecycleState for Stopping {
}

impl LifecycleState for Stopped {
}

/// A machine's state and context, with its lifecycle phase `S` in its type:
/// each phase offers only the operations valid in it.
pub struct MachineHandle<M: Machine, S> {
    state: M::State,
    ctx: MachineContext,
    _phase: core::marker::PhantomData<S>,
}

impl<M: Machine, S> MachineHandle<M, S> {
    /// The machine's state.
    pub closed spec fn state_spec(&self) -> M::State {
        self.state
    }

    /// The machine's context.
    pub closed spec fn context_spec(&self) -> MachineContextView {
        self.ctx@
    }
}

impl<M: Machine> MachineHandle<M, Init> {
    /// Starts the machine up in `ctx`; the handle is in phase `Init`.
    pub fn new(ctx: MachineContext) -> (r: Result<Self, InitError>)
        ensures
            match r {
                Ok(h) => h.context_spec() == ctx@ && M::inits(ctx@, Ok(h.state_spec())),
                Err(e) => M::inits(ctx@, Err(e)),
            },
    {
        match M::init(&ctx) {
            Ok(state) => Ok(MachineHandle { state, ctx, _phase: core::marker::PhantomData }),
            Err(e) => Err(e),
        }
    }

    /// Moves to phase `Running`.
    pub fn start(self) -> (r: MachineHandle<M, Running>)
        ensures
            r.state_spec() == self.state_spec(),
            r.context_spec() == (MachineContextView { lifecycle: Lifecycle::Running, ..self.context_spec() }),
    {
        let mut ctx = self.ctx;
        ctx.set_lifecycle(Lifecycle::Running);
        MachineHandle { state: self.state, ctx, _phase: core::marker::PhantomData }
    }
}

impl<M: Machine> MachineHandle<M, Running> {
    /// One unit of work.
    pub fn process(&mut self, input: M::Input) -> (r: M::ProcessOutput)
        ensures
            final(self).context_spec() == old(self).context_spec(),
            M::processes(old(self).state_spec(), old(self).context_spec(), input, final(self).state_spec(), r),
    {
        M::process(&mut self.state, &self.ctx, input)
    }

    /// Moves to phase `Stopping`.
    pub fn stop(self) -> (r: MachineHandle<M, Stopping>)
        ensures
            r.state_spec() == self.state_spec(),
            r.context_spec() == (MachineContextView { lifecycle: Lifecycle::Stopping, ..self.context_spec() }),
    {
        let mut ctx = self.ctx;
        ctx.set_lifecycle(Lifecycle::Stopping);
        MachineHandle { state: self.state, ctx, _phase: core::marker::PhantomData }
    }
}

impl<M: Machine> MachineHandle<M, Stopping> {
    /// One unit of work while draining.
    pub fn process(&mut self, input: M::Input) -> (r: M::ProcessOutput)
        ensures
            final(self).context_spec() == old(self).context_spec(),
            M::processes(old(self).state_spec(), old(self).context_spec(), input, final(self).state_spec(), r),
    {
        M::process(&mut self.state, &self.ctx, input)
    }

    /// Moves to phase `Stopped`.
    pub fn finish(self) -> (r: MachineHandle<M, Stopped>)
        ensures
            r.state_spec() == self.state_spec(),
            r.context_spec() == (MachineContextView { lifecycle: Lifecycle::Stopped, ..self.context_spec() }),
    {
        let mut ctx = self.ctx;
        ctx.set_lifecycle(Lifecycle::Stopped);
        MachineHandle { state: self.state, ctx, _phase: core::marker::PhantomData }
    }
}

impl<M: Machine> MachineHandle<M, Stopped> {
    /// Cleans the machine up; the handle is gone.
    pub fn cleanup(self) -> (r: Result<(), CleanupError>)
        ensures
            M::cleans(self.state_spec(), self.context_spec(), r),
    {
        M::cleanup(self.state, &self.ctx)
    }
}

impl<M: Machine, S: LifecycleState> MachineHandle<M, S> {
    /// The machine's state.
    pub fn state(&self) -> (r: &M::State)
        ensures
            *r == self.state_spec(),
    {
        &self.state
    }

    /// The machine's context.
    pub fn context(&self) -> (r: &MachineContext)
        ensures
            r@ == self.context_spec(),
    {
        &self.ctx
    }
}

} // verus!
