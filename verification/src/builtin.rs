//! The generic machines every flow graph can use: identity, sink, source,
//! tee, latch, collector, a machine around a pure function, and the root
//! entity.
use vstd::prelude::*;
use crate::entity::Entity;
use crate::func::Func;
use crate::machine::{CleanupError, InitError, Machine, Moore, SingleOutput};
use crate::port::{ConfigSchema, MachineContext, MachineContextView, PortDecl, PortDir, PortSchema};
use crate::flow::FlowKind;
use crate::static_exec::StraightMachine;

verus! {

/// Whether `p` is a Data port named `name` in direction `dir`.
pub open spec fn data_port(p: PortDecl, name: &'static str, dir: PortDir) -> bool {
    p.name == name && p.dir == dir && p.flow == FlowKind::Data
}

/// Whether a schema has just a Data input named `input` and a Data output
/// named `output`, in that order.
pub open spec fn in_out_schema(s: Seq<PortDecl>, input: &'static str, output: &'static str) -> bool {
    &&& s.len() == 2
    &&& data_port(s[0], input, PortDir::In)
    &&& data_port(s[1], output, PortDir::Out)
}

fn in_out_ports<I: 'static, O: 'static>(input: &'static str, output: &'static str) -> (r: PortSchema)
    ensures
        in_out_schema(r@, input, output),
{
    PortSchema::new().with(PortDecl::input::<I>(input)).with(PortDecl::output::<O>(output))
}

// ── Identity ────────────────────────────────────────────────────────────

/// The input of [`Identity`].
#[derive(Debug, Clone, PartialEq)]
pub enum IdentityInput<I> {
    Input(I),
}

/// The output of [`Identity`].
#[derive(Debug, Clone, PartialEq)]
pub enum IdentityOutput<I> {
    Output(I),
}

/// The identity morphism: passes its input through unchanged.
pub struct Identity<I>(core::marker::PhantomData<I>);

impl<I: 'static> Machine for Identity<I> {
    type State = ();
    type Input = IdentityInput<I>;
    type Output = IdentityOutput<I>;
    type ProcessOutput = SingleOutput<IdentityOutput<I>>;

    open spec fn name_spec() -> &'static str {
        "builtin.Identity"
    }

    open spec fn inits(ctx: MachineContextView, r: Result<(), InitError>) -> bool {
        r is Ok
    }

    open spec fn processes(state: (), ctx: MachineContextView, input: IdentityInput<I>, next: (), out: SingleOutput<IdentityOutput<I>>) -> bool {
        match input {
            IdentityInput::Input(v) => out == SingleOutput::Yield(IdentityOutput::Output(v)),
        }
    }

    open spec fn cleans(state: (), ctx: MachineContextView, r: Result<(), CleanupError>) -> bool {
        r is Ok
    }

    fn name() -> (r: &'static str)
        ensures
            r == "builtin.Identity",
    {
        "builtin.Identity"
    }

    fn port_schema() -> (r: PortSchema)
        ensures
            in_out_schema(r@, "input", "output"),
    {
        in_out_ports::<I, I>("input", "output")
    }

    fn config_schema() -> (r: ConfigSchema)
        ensures
            r@.len() == 0,
    {
        ConfigSchema::new()
    }

    fn init(ctx: &MachineContext) -> (r: Result<(), InitError>)
        ensures
            r is Ok,
    {
        Ok(())
    }

    fn process(state: &mut (), ctx: &MachineContext, input: IdentityInput<I>) -> (r: SingleOutput<IdentityOutput<I>>)
        ensures
            match input {
                IdentityInput::Input(v) => r == SingleOutput::Yield(IdentityOutput::Output(v)),
            },
    {
        match input {
            IdentityInput::Input(v) => SingleOutput::Yield(IdentityOutput::Output(v)),
        }
    }

    fn cleanup(state: (), ctx: &MachineContext) -> (r: Result<(), CleanupError>)
        ensures
            r is Ok,
    {
        Ok(())
    }

    fn deterministic() -> (r: bool)
        ensures
            r,
    {
        true
    }
}

// ── Sink ────────────────────────────────────────────────────────────────

/// The input of [`Sink`].
#[derive(Debug, Clone, PartialEq)]
pub enum SinkInput<I> {
    Input(I),
}

/// The output of [`Sink`]: it has none, and no value of this type is made
/// outside this module.
#[derive(Debug)]
pub struct SinkOutput {
    none: (),
}

impl PartialEq for SinkOutput {
    fn eq(&self, other: &Self) -> (r: bool) {
        true
    }
}

impl vstd::std_specs::cmp::PartialEqSpecImpl for SinkOutput {
    open spec fn obeys_eq_spec() -> bool {
        true
    }

    open spec fn eq_spec(&self, other: &Self) -> bool {
        true
    }
}

impl Clone for SinkOutput {
    fn clone(&self) -> (r: Self)
        ensures
            r == *self,
    {
        SinkOutput { none: () }
    }
}

/// Discards all input.
pub struct Sink<I>(core::marker::PhantomData<I>);

impl<I: 'static> Machine for Sink<I> {
    type State = ();
    type Input = SinkInput<I>;
    type Output = SinkOutput;
    type ProcessOutput = SingleOutput<SinkOutput>;

    open spec fn name_spec() -> &'static str {
        "builtin.Sink"
    }

    open spec fn inits(ctx: MachineContextView, r: Result<(), InitError>) -> bool {
        r is Ok
    }

    open spec fn processes(state: (), ctx: MachineContextView, input: SinkInput<I>, next: (), out: SingleOutput<SinkOutput>) -> bool {
        out is Idle
    }

    open spec fn cleans(state: (), ctx: MachineContextView, r: Result<(), CleanupError>) -> bool {
        r is Ok
    }

    fn name() -> (r: &'static str)
        ensures
            r == "builtin.Sink",
    {
        "builtin.Sink"
    }

    fn port_schema() -> (r: PortSchema)
        ensures
            r@.len() == 1,
            data_port(r@[0], "input", PortDir::In),
    {
        PortSchema::new().with(PortDecl::input::<I>("input"))
    }

    fn config_schema() -> (r: ConfigSchema)
        ensures
            r@.len() == 0,
    {
        ConfigSchema::new()
    }

    fn init(ctx: &MachineContext) -> (r: Result<(), InitError>)
        ensures
            r is Ok,
    {
        Ok(())
    }

    fn process(state: &mut (), ctx: &MachineContext, input: SinkInput<I>) -> (r: SingleOutput<SinkOutput>)
        ensures
            r is Idle,
    {
        SingleOutput::Idle
    }

    fn cleanup(state: (), ctx: &MachineContext) -> (r: Result<(), CleanupError>)
        ensures
            r is Ok,
    {
        Ok(())
    }

    fn deterministic() -> (r: bool)
        ensures
            r,
    {
        true
    }
}

impl<I: 'static> StraightMachine for Sink<I> {
    type StraightIn = I;
    type StraightOut = ();

    open spec fn straight_spec(state: (), input: I) -> ((), ()) {
        ((), ())
    }

    fn process_straight(state: &mut (), input: I) {
    }
}

// ── Source ──────────────────────────────────────────────────────────────

/// The input of [`Source`]: a tick.
#[derive(Debug, PartialEq)]
pub enum SourceInput {
    Tick(()),
}

impl Clone for SourceInput {
    fn clone(&self) -> (r: Self)
        ensures
            r == *self,
    {
        SourceInput::Tick(())
    }
}

/// The output of [`Source`].
#[derive(Debug, Clone, PartialEq)]
pub enum SourceOutput<O> {
    Output(O),
}

/// The state of a [`Source`]: the value it gives on every tick.
pub struct SourceState<O> {
    pub output: O,
}

/// Gives the same value on every tick.
pub struct Source<O>(core::marker::PhantomData<O>);

impl<O: Clone + Default + 'static> Machine for Source<O> {
    type State = SourceState<O>;
    type Input = SourceInput;
    type Output = SourceOutput<O>;
    type ProcessOutput = SingleOutput<SourceOutput<O>>;

    open spec fn name_spec() -> &'static str {
        "builtin.Source"
    }

    open spec fn inits(ctx: MachineContextView, r: Result<SourceState<O>, InitError>) -> bool {
        r is Ok
    }

    open spec fn processes(state: SourceState<O>, ctx: MachineContextView, input: SourceInput, next: SourceState<O>, out: SingleOutput<SourceOutput<O>>) -> bool {
        &&& next == state
        &&& out matches SingleOutput::Yield(SourceOutput::Output(v)) && cloned(state.output, v)
    }

    open spec fn cleans(state: SourceState<O>, ctx: MachineContextView, r: Result<(), CleanupError>) -> bool {
        r is Ok
    }

    fn name() -> (r: &'static str)
        ensures
            r == "builtin.Source",
    {
        "builtin.Source"
    }

    fn port_schema() -> (r: PortSchema)
        ensures
            in_out_schema(r@, "tick", "output"),
    {
        in_out_ports::<(), O>("tick", "output")
    }

    fn config_schema() -> (r: ConfigSchema)
        ensures
            r@.len() == 0,
    {
        ConfigSchema::new()
    }

    /// Starts with the default value of `O`.
    fn init(ctx: &MachineContext) -> (r: Result<SourceState<O>, InitError>)
        ensures
            r is Ok,
    {
        Ok(SourceState { output: O::default() })
    }

    fn process(state: &mut SourceState<O>, ctx: &MachineContext, input: SourceInput) -> (r: SingleOutput<SourceOutput<O>>)
        ensures
            *final(state) == *old(state),
            r matches SingleOutput::Yield(SourceOutput::Output(v)) && cloned(old(state).output, v),
    {
        SingleOutput::Yield(SourceOutput::Output(state.output.clone()))
    }

    fn cleanup(state: SourceState<O>, ctx: &MachineContext) -> (r: Result<(), CleanupError>)
        ensures
            r is Ok,
    {
        Ok(())
    }

    fn deterministic() -> (r: bool)
        ensures
            r,
    {
        true
    }
}

// ── Tee ─────────────────────────────────────────────────────────────────

/// Fans one input out into two copies.
pub struct Tee<I>(core::marker::PhantomData<I>);

impl<I: Clone + 'static> Machine for Tee<I> {
    type State = ();
    type Input = I;
    type Output = (I, I);
    type ProcessOutput = SingleOutput<(I, I)>;

    open spec fn name_spec() -> &'static str {
        "builtin.Tee"
    }

    open spec fn inits(ctx: MachineContextView, r: Result<(), InitError>) -> bool {
        r is Ok
    }

    open spec fn processes(state: (), ctx: MachineContextView, input: I, next: (), out: SingleOutput<(I, I)>) -> bool {
        out matches SingleOutput::Yield(p) && cloned(input, p.0) && p.1 == input
    }

    open spec fn cleans(state: (), ctx: MachineContextView, r: Result<(), CleanupError>) -> bool {
        r is Ok
    }

    fn name() -> (r: &'static str)
        ensures
            r == "builtin.Tee",
    {
        "builtin.Tee"
    }

    fn port_schema() -> (r: PortSchema)
        ensures
            in_out_schema(r@, "in", "out"),
    {
        in_out_ports::<I, (I, I)>("in", "out")
    }

    fn config_schema() -> (r: ConfigSchema)
        ensures
            r@.len() == 0,
    {
        ConfigSchema::new()
    }

    fn init(ctx: &MachineContext) -> (r: Result<(), InitError>)
        ensures
            r is Ok,
    {
        Ok(())
    }

    fn process(state: &mut (), ctx: &MachineContext, input: I) -> (r: SingleOutput<(I, I)>)
        ensures
            r matches SingleOutput::Yield(p) && cloned(input, p.0) && p.1 == input,
    {
        SingleOutput::Yield((input.clone(), input))
    }

    fn cleanup(state: (), ctx: &MachineContext) -> (r: Result<(), CleanupError>)
        ensures
            r is Ok,
    {
        Ok(())
    }

    fn deterministic() -> (r: bool)
        ensures
            r,
    {
        true
    }
}

// ── Latch ───────────────────────────────────────────────────────────────

/// The input of [`Latch`].
#[derive(Debug, Clone, PartialEq)]
pub enum LatchInput<T> {
    Input(T),
}

/// The output of [`Latch`].
#[derive(Debug, Clone, PartialEq)]
pub enum LatchOutput<T> {
    Output(T),
}

/// Holds the last value: each input is kept, and the value kept before it
/// is given out.
pub struct Latch<T>(core::marker::PhantomData<T>);

impl<T: Clone + 'static> Machine for Latch<T> {
    type State = Option<T>;
    type Input = LatchInput<T>;
    type Output = LatchOutput<T>;
    type ProcessOutput = SingleOutput<LatchOutput<T>>;

    open spec fn name_spec() -> &'static str {
        "builtin.Latch"
    }

    open spec fn inits(ctx: MachineContextView, r: Result<Option<T>, InitError>) -> bool {
        r == Ok::<Option<T>, InitError>(None)
    }

    open spec fn processes(state: Option<T>, ctx: MachineContextView, input: LatchInput<T>, next: Option<T>, out: SingleOutput<LatchOutput<T>>) -> bool {
        &&& match input {
            LatchInput::Input(v) => next == Some(v),
        }
        &&& match state {
            None => out is Idle,
            Some(prev) => out == SingleOutput::Yield(LatchOutput::Output(prev)),
        }
    }

    open spec fn cleans(state: Option<T>, ctx: MachineContextView, r: Result<(), CleanupError>) -> bool {
        r is Ok
    }

    fn name() -> (r: &'static str)
        ensures
            r == "builtin.Latch",
    {
        "builtin.Latch"
    }

    fn port_schema() -> (r: PortSchema)
        ensures
            in_out_schema(r@, "input", "output"),
    {
        in_out_ports::<T, T>("input", "output")
    }

    fn config_schema() -> (r: ConfigSchema)
        ensures
            r@.len() == 0,
    {
        ConfigSchema::new()
    }

    fn init(ctx: &MachineContext) -> (r: Result<Option<T>, InitError>)
        ensures
            r == Ok::<Option<T>, InitError>(None),
    {
        Ok(None)
    }

    fn process(state: &mut Option<T>, ctx: &MachineContext, input: LatchInput<T>) -> (r: SingleOutput<LatchOutput<T>>)
        ensures
            match input {
                LatchInput::Input(v) => *final(state) == Some(v),
            },
            match *old(state) {
                None => r is Idle,
                Some(prev) => r == SingleOutput::Yield(LatchOutput::Output(prev)),
            },
    {
        match input {
            LatchInput::Input(v) => {
                let old = state.take();
                *state = Some(v);
                match old {
                    None => SingleOutput::Idle,
                    Some(prev) => SingleOutput::Yield(LatchOutput::Output(prev)),
                }
            },
        }
    }

    fn cleanup(state: Option<T>, ctx: &MachineContext) -> (r: Result<(), CleanupError>)
        ensures
            r is Ok,
    {
        Ok(())
    }

    fn deterministic() -> (r: bool)
        ensures
            r,
    {
        true
    }
}

impl<T: Clone + 'static> Moore for Latch<T> {
}

/// A latch delays its input by one: fed `xs` in turn from its initial
/// state, it gives nothing for the first value and then, for each value,
/// the one fed before it, and keeps the last value fed.
pub proof fn lemma_latch_delays_by_one<T: Clone + 'static>(
    ctx: MachineContextView,
    xs: Seq<T>,
    states: Seq<Option<T>>,
    outs: Seq<SingleOutput<LatchOutput<T>>>,
)
    requires
        states.len() == xs.len() + 1,
        outs.len() == xs.len(),
        states[0] is None,
        forall|i: int| 0 <= i < xs.len() ==> #[trigger] <Latch<T> as Machine>::processes(states[i], ctx, LatchInput::Input(xs[i]), states[i + 1], outs[i]),
    ensures
        forall|i: int| 0 <= i < xs.len() ==> #[trigger] outs[i] == if i == 0 {
            SingleOutput::<LatchOutput<T>>::Idle
        } else {
            SingleOutput::Yield(LatchOutput::Output(xs[i - 1]))
        },
        xs.len() > 0 ==> states[xs.len() as int] == Some(xs[xs.len() - 1]),
{
    assert forall|i: int| 0 <= i < xs.len() implies #[trigger] outs[i] == if i == 0 {
        SingleOutput::<LatchOutput<T>>::Idle
    } else {
        SingleOutput::Yield(LatchOutput::Output(xs[i - 1]))
    } by {
        assert(<Latch<T> as Machine>::processes(states[i], ctx, LatchInput::Input(xs[i]), states[i + 1], outs[i]));
        if i > 0 {
            let j = i - 1;
            assert(<Latch<T> as Machine>::processes(states[j], ctx, LatchInput::Input(xs[j]), states[j + 1], outs[j]));
            assert(states[j + 1] == states[i]);
        }
    }
    if xs.len() > 0 {
        let k = xs.len() - 1;
        assert(<Latch<T> as Machine>::processes(states[k], ctx, LatchInput::Input(xs[k]), states[k + 1], outs[k]));
    }
}

// ── Collector ───────────────────────────────────────────────────────────

/// Gathers every input into its state, which it exposes for observation.
pub struct Collector<I>(core::marker::PhantomData<I>);

impl<I: 'static> Machine for Collector<I> {
    type State = Vec<I>;
    type Input = I;
    type Output = ();
    type ProcessOutput = SingleOutput<()>;

    open spec fn name_spec() -> &'static str {
        "builtin.Collector"
    }

    open spec fn inits(ctx: MachineContextView, r: Result<Vec<I>, InitError>) -> bool {
        r matches Ok(v) && v@.len() == 0
    }

    open spec fn processes(state: Vec<I>, ctx: MachineContextView, input: I, next: Vec<I>, out: SingleOutput<()>) -> bool {
        next@ == state@.push(input) && out is Idle
    }

    open spec fn cleans(state: Vec<I>, ctx: MachineContextView, r: Result<(), CleanupError>) -> bool {
        r is Ok
    }

    fn name() -> (r: &'static str)
        ensures
            r == "builtin.Collector",
    {
        "builtin.Collector"
    }

    fn port_schema() -> (r: PortSchema)
        ensures
            r@.len() == 2,
            data_port(r@[0], "in", PortDir::In),
            r@[1].name == "snapshots" && r@[1].dir == PortDir::Out && r@[1].flow == FlowKind::Observe,
    {
        PortSchema::new().with(PortDecl::input::<I>("in")).with(PortDecl::observe::<Vec<I>>("snapshots"))
    }

    fn config_schema() -> (r: ConfigSchema)
        ensures
            r@.len() == 0,
    {
        ConfigSchema::new()
    }

    fn init(ctx: &MachineContext) -> (r: Result<Vec<I>, InitError>)
        ensures
            r matches Ok(v) && v@.len() == 0,
    {
        Ok(Vec::new())
    }

    fn process(state: &mut Vec<I>, ctx: &MachineContext, input: I) -> (r: SingleOutput<()>)
        ensures
            final(state)@ == old(state)@.push(input),
            r is Idle,
    {
        state.push(input);
        SingleOutput::Idle
    }

    fn cleanup(state: Vec<I>, ctx: &MachineContext) -> (r: Result<(), CleanupError>)
        ensures
            r is Ok,
    {
        Ok(())
    }

    fn deterministic() -> (r: bool)
        ensures
            r,
    {
        true
    }
}

// ── FuncMachine ─────────────────────────────────────────────────────────

/// The input of [`FuncMachine`].
#[derive(Debug)]
pub enum FuncMachineInput<F: Func> {
    Input(F::Input),
}

/// The output of [`FuncMachine`].
#[derive(Debug)]
pub enum FuncMachineOutput<F: Func> {
    Output(F::Output),
}

impl<F: Func> Clone for FuncMachineInput<F> where F::Input: Clone {
    fn clone(&self) -> (r: Self)
        ensures
            match (*self, r) {
                (FuncMachineInput::Input(a), FuncMachineInput::Input(b)) => cloned(a, b),
            },
    {
        match self {
            FuncMachineInput::Input(v) => FuncMachineInput::Input(v.clone()),
        }
    }
}

impl<F: Func> Clone for FuncMachineOutput<F> where F::Output: Clone {
    fn clone(&self) -> (r: Self)
        ensures
            match (*self, r) {
                (FuncMachineOutput::Output(a), FuncMachineOutput::Output(b)) => cloned(a, b),
            },
    {
        match self {
            FuncMachineOutput::Output(v) => FuncMachineOutput::Output(v.clone()),
        }
    }
}

/// A pure function as a machine: each input gives the function's output.
pub struct FuncMachine<F>(core::marker::PhantomData<F>);

impl<F: Func + 'static> Machine for FuncMachine<F> where F::Input: 'static, F::Output: 'static {
    type State = ();
    type Input = FuncMachineInput<F>;
    type Output = FuncMachineOutput<F>;
    type ProcessOutput = SingleOutput<FuncMachineOutput<F>>;

    open spec fn name_spec() -> &'static str {
        F::name_spec()
    }

    open spec fn inits(ctx: MachineContextView, r: Result<(), InitError>) -> bool {
        r is Ok
    }

    open spec fn processes(state: (), ctx: MachineContextView, input: FuncMachineInput<F>, next: (), out: SingleOutput<FuncMachineOutput<F>>) -> bool {
        match input {
            FuncMachineInput::Input(v) => out matches SingleOutput::Yield(FuncMachineOutput::Output(o))
                && (!F::NONDETERMINISTIC ==> o == F::call_spec(v)),
        }
    }

    open spec fn cleans(state: (), ctx: MachineContextView, r: Result<(), CleanupError>) -> bool {
        r is Ok
    }

    /// The function's name.
    fn name() -> (r: &'static str)
        ensures
            r == F::name_spec(),
    {
        F::name()
    }

    fn port_schema() -> (r: PortSchema)
        ensures
            in_out_schema(r@, "input", "output"),
    {
        in_out_ports::<F::Input, F::Output>("input", "output")
    }

    fn config_schema() -> (r: ConfigSchema)
        ensures
            r@.len() == 0,
    {
        ConfigSchema::new()
    }

    fn init(ctx: &MachineContext) -> (r: Result<(), InitError>)
        ensures
            r is Ok,
    {
        Ok(())
    }

    fn process(state: &mut (), ctx: &MachineContext, input: FuncMachineInput<F>) -> (r: SingleOutput<FuncMachineOutput<F>>)
        ensures
            match input {
                FuncMachineInput::Input(v) => r matches SingleOutput::Yield(FuncMachineOutput::Output(o))
                    && (!F::NONDETERMINISTIC ==> o == F::call_spec(v)),
            },
    {
        match input {
            FuncMachineInput::Input(v) => SingleOutput::Yield(FuncMachineOutput::Output(F::call(v))),
        }
    }

    fn cleanup(state: (), ctx: &MachineContext) -> (r: Result<(), CleanupError>)
        ensures
            r is Ok,
    {
        Ok(())
    }

    /// Deterministic exactly when the function is.
    fn deterministic() -> bool {
        !F::nondeterministic()
    }
}

// ── EntityRoot ──────────────────────────────────────────────────────────

/// The root entity of a system: no state, no ports.
pub struct EntityRoot;

impl Entity for EntityRoot {
    type State = ();

    fn name() -> (r: &'static str)
        ensures
            r == "root",
    {
        "root"
    }
}

} // verus!
