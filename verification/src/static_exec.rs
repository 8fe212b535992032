//! Straight-line execution of statically composed machines.
//!
//! A [`StraightMachine`] steps on raw payloads. [`Chain`] puts a machine in
//! front of a flow, [`Diamond`] forks a machine's output into two flows and
//! joins them into a third, [`Composite`] names a flow; all of them are
//! [`FlowThrough`] flows, and [`StaticChain::run_all`] streams a batch of
//! inputs through one. Each part declares what it does (`straight_spec`,
//! `links`, `splits`, `merges`); a flow's `flows` relation says what one of
//! its steps does in terms of its parts' declarations.
use vstd::prelude::*;
use vstd::string::StringExecFns;
use vstd::std_specs::convert::IntoSpec;
use crate::strings::{decimal, decimal_string};
use crate::machine::{Machine, CleanupError, InitError, init_error_text, cleanup_error_text};
use crate::port::{Lifecycle, MachineContext, MachineContextView};

verus! {

/// Why a static run failed.
#[derive(Debug)]
pub enum StaticExecError {
    /// A machine's start-up failed.
    InitFailed { machine: &'static str, reason: String },
    /// A machine's clean-up failed.
    CleanupFailed { machine: &'static str, reason: String },
    /// A machine finished before its inputs ran out.
    MachineDone { machine: &'static str, processed: usize },
}

/// The text of a static-run error.
pub open spec fn static_exec_error_text(e: &StaticExecError) -> Seq<char> {
    match e {
        StaticExecError::InitFailed { machine, reason } => "init failed for '"@ + machine@ + "': "@ + reason@,
        StaticExecError::CleanupFailed { machine, reason } => "cleanup failed for '"@ + machine@ + "': "@ + reason@,
        StaticExecError::MachineDone { machine, processed } => "machine '"@ + machine@ + "' returned Done after processing "@
            + decimal(*processed as nat) + " inputs"@,
    }
}

impl StaticExecError {
    /// The human-readable text of the error.
    pub fn message(&self) -> (m: String)
        ensures
            m@ == static_exec_error_text(self),
    {
        match self {
            StaticExecError::InitFailed { machine, reason } => String::from_str("init failed for '").concat(machine).concat(
                "': ",
            ).concat(reason.as_str()),
            StaticExecError::CleanupFailed { machine, reason } => String::from_str("cleanup failed for '").concat(machine).concat(
                "': ",
            ).concat(reason.as_str()),
            StaticExecError::MachineDone { machine, processed } => {
                let p = decimal_string(*processed as u64);
                String::from_str("machine '").concat(machine).concat("' returned Done after processing ").concat(p.as_str()).concat(
                    " inputs",
                )
            },
        }
    }
}

/// A machine that steps on raw payloads: one input payload gives one output
/// payload, with no port labels.
pub trait StraightMachine: Machine {
    /// The payload of the single input port.
    type StraightIn;
    /// The payload of the single output port.
    type StraightOut;

    /// What a step does: the next state and the output payload.
    spec fn straight_spec(state: Self::State, input: Self::StraightIn) -> (Self::State, Self::StraightOut);

    /// One step on a raw payload.
    fn process_straight(state: &mut Self::State, input: Self::StraightIn) -> (out: Self::StraightOut)
        ensures
            (*final(state), out) == Self::straight_spec(*old(state), input);
}

/// Turns the output payload of `S` into the input payload of `D`.
pub trait StraightLink<S: StraightMachine, D: StraightMachine> {
    /// Whether `input` is what `out` is turned into.
    spec fn links(out: S::StraightOut, input: D::StraightIn) -> bool;

    /// The converted payload.
    fn convert(out: S::StraightOut) -> (input: D::StraightIn)
        ensures
            Self::links(out, input);
}

/// The link that converts with `Into`; the identity where the payload
/// types agree.
pub struct StraightId;

impl<S: StraightMachine, D: StraightMachine> StraightLink<S, D> for StraightId where S::StraightOut: Into<D::StraightIn> {
    open spec fn links(out: S::StraightOut, input: D::StraightIn) -> bool {
        <S::StraightOut as IntoSpec<D::StraightIn>>::obeys_into_spec() ==> input == out.into_spec()
    }

    fn convert(out: S::StraightOut) -> (input: D::StraightIn) {
        out.into()
    }
}

/// Splits one payload into two, for the two arms of a diamond.
pub trait StraightSplit<T> {
    type Left;
    type Right;

    /// Whether `(left, right)` is what `input` is split into.
    spec fn splits(input: T, left: Self::Left, right: Self::Right) -> bool;

    /// The two payloads.
    fn split(input: T) -> (r: (Self::Left, Self::Right))
        ensures
            Self::splits(input, r.0, r.1);
}

/// Splits a payload into two copies.
pub struct StraightClone;

impl<T: Clone> StraightSplit<T> for StraightClone {
    type Left = T;
    type Right = T;

    open spec fn splits(input: T, left: T, right: T) -> bool {
        cloned(input, left) && cloned(input, right)
    }

    fn split(input: T) -> (r: (T, T)) {
        (input.clone(), input.clone())
    }
}

/// Merges the payloads of the two arms of a diamond.
pub trait StraightMerge<A, B> {
    type Output;

    /// Whether `out` is what `a` and `b` merge into.
    spec fn merges(a: A, b: B, out: Self::Output) -> bool;

    /// The merged payload.
    fn merge(a: A, b: B) -> (out: Self::Output)
        ensures
            Self::merges(a, b, out);
}

/// A single-input, single-output flow of machines that streams payloads one
/// by one, holding the states of all its machines.
pub trait FlowThrough: Sized {
    /// The machine at the head of the flow.
    type Head: StraightMachine;
    /// The payload the flow gives for each input.
    type Out;
    /// The states of all machines of the flow.
    type States;

    /// Whether one step from `states` on `input` may end in `next` with
    /// output `out`.
    spec fn flows(
        states: Self::States,
        input: <Self::Head as StraightMachine>::StraightIn,
        next: Self::States,
        out: Self::Out,
    ) -> bool;

    /// Whether starting the flow up may give `r`.
    spec fn starts(r: Result<Self::States, StaticExecError>) -> bool;

    /// Whether cleaning `states` up may give `r`.
    spec fn ends(states: Self::States, r: Result<(), StaticExecError>) -> bool;

    /// Starts every machine of the flow up.
    fn new_states() -> (r: Result<Self::States, StaticExecError>)
        ensures
            Self::starts(r),
            r matches Err(e) ==> e is InitFailed;

    /// One input through the whole flow.
    fn process_one(states: &mut Self::States, input: <Self::Head as StraightMachine>::StraightIn) -> (out: Self::Out)
        ensures
            Self::flows(*old(states), input, *final(states), out);

    /// Cleans every machine of the flow up.
    fn cleanup(states: Self::States) -> (r: Result<(), StaticExecError>)
        ensures
            Self::ends(states, r),
            r matches Err(e) ==> e is CleanupFailed;
}

/// Whether the flow `F`, started in `states` on `inputs` one after the
/// other, may end in `next` having given `outs`.
pub open spec fn flows_all<F: FlowThrough>(
    states: F::States,
    inputs: Seq<<F::Head as StraightMachine>::StraightIn>,
    next: F::States,
    outs: Seq<F::Out>,
) -> bool
    decreases inputs.len(),
{
    if inputs.len() == 0 {
        outs.len() == 0 && next == states
    } else {
        &&& outs.len() == inputs.len()
        &&& exists|mid: F::States|
            #[trigger] F::flows(mid, inputs.last(), next, outs.last())
                && flows_all::<F>(states, inputs.drop_last(), mid, outs.drop_last())
    }
}

/// Whether `outs` is what the flow `F` may give on `inputs` from some start
/// states.
pub open spec fn flow_outputs<F: FlowThrough>(inputs: Seq<<F::Head as StraightMachine>::StraightIn>, outs: Seq<F::Out>) -> bool {
    exists|s: F::States, t: F::States| flows_all::<F>(s, inputs, t, outs)
}

/// Streams `inputs` through the flow `F` from `states`, one by one.
pub fn run_flow<F: FlowThrough>(
    states: &mut F::States,
    inputs: Vec<<F::Head as StraightMachine>::StraightIn>,
) -> (outs: Vec<F::Out>)
    ensures
        flows_all::<F>(*old(states), inputs@, *final(states), outs@),
{
    let ghost start = *states;
    let ghost all = inputs@;
    let mut outs: Vec<F::Out> = Vec::new();
    for input in it: inputs
        invariant
            it.seq() == all,
            flows_all::<F>(start, all.take(it.index()), *states, outs@),
    {
        let ghost before = *states;
        let ghost outs_before = outs@;
        let ghost i = it.index();
        let out = F::process_one(states, input);
        outs.push(out);
        proof {
            let taken = all.take(i + 1);
            assert(taken.drop_last() == all.take(i));
            assert(taken.last() == input);
            assert(outs@.drop_last() == outs_before);
            assert(F::flows(before, taken.last(), *states, outs@.last()));
        }
    }
    proof {
        assert(all.take(all.len() as int) == all);
    }
    outs
}

/// Whether a batch run of the flow `F` over `inputs` may succeed with
/// `outs`: the flow starts in some states, streams the inputs through from
/// them, and its clean-up succeeds from the states it ends in.
pub open spec fn batch_ok<F: FlowThrough>(inputs: Seq<<F::Head as StraightMachine>::StraightIn>, outs: Seq<F::Out>) -> bool {
    exists|s: F::States, t: F::States|
        #![trigger flows_all::<F>(s, inputs, t, outs)]
        F::starts(Ok(s)) && flows_all::<F>(s, inputs, t, outs) && ends_cleanly::<F>(t)
}

/// Whether cleaning the flow `F` up from `states` may succeed.
pub open spec fn ends_cleanly<F: FlowThrough>(states: F::States) -> bool {
    exists|c: Result<(), StaticExecError>| c is Ok && #[trigger] F::ends(states, c)
}

/// Whether a batch run of the flow `F` over `inputs` may fail with `e`:
/// its start-up fails with `e`, or it starts, streams the inputs through,
/// and its clean-up fails with `e`.
pub open spec fn batch_err<F: FlowThrough>(inputs: Seq<<F::Head as StraightMachine>::StraightIn>, e: StaticExecError) -> bool {
    ||| F::starts(Err(e))
    ||| exists|s: F::States, t: F::States, o: Seq<F::Out>|
        #![trigger flows_all::<F>(s, inputs, t, o)]
        F::starts(Ok(s)) && flows_all::<F>(s, inputs, t, o) && F::ends(t, Err(e))
}

/// Starts the flow `F` up, streams `inputs` through it one by one, and
/// cleans it up.
pub fn run_batch<F: FlowThrough>(inputs: Vec<<F::Head as StraightMachine>::StraightIn>) -> (r: Result<Vec<F::Out>, StaticExecError>)
    ensures
        r matches Ok(outs) ==> batch_ok::<F>(inputs@, outs@) && flow_outputs::<F>(inputs@, outs@),
        r matches Err(e) ==> batch_err::<F>(inputs@, e),
        r matches Err(e) ==> e is InitFailed || e is CleanupFailed,
{
    let ghost all = inputs@;
    let rs = F::new_states();
    let ghost grs = rs;
    let mut states = match rs {
        Ok(s) => s,
        Err(e) => {
            assert(F::starts(grs));
            return Err(e);
        },
    };
    let ghost first = states;
    assert(F::starts(Ok(first)));
    let outputs = run_flow::<F>(&mut states, inputs);
    let ghost last = states;
    let rc = F::cleanup(states);
    let ghost grc = rc;
    assert(F::ends(last, grc));
    assert(flows_all::<F>(first, all, last, outputs@));
    match rc {
        Ok(()) => {},
        Err(e) => {
            assert(F::ends(last, Err(e)));
            return Err(e);
        },
    }
    assert(grc is Ok && F::ends(last, grc));
    assert(ends_cleanly::<F>(last));
    assert(batch_ok::<F>(all, outputs@));
    assert(flow_outputs::<F>(all, outputs@));
    Ok(outputs)
}

/// A flow run as a whole batch.
pub trait StaticChain: FlowThrough {
    /// Starts the flow up, streams `inputs` through it one by one, and cleans
    /// it up.
    fn run_all(inputs: Vec<<Self::Head as StraightMachine>::StraightIn>) -> (r: Result<Vec<Self::Out>, StaticExecError>)
        ensures
            r matches Ok(outs) ==> batch_ok::<Self>(inputs@, outs@) && flow_outputs::<Self>(inputs@, outs@),
            r matches Err(e) ==> batch_err::<Self>(inputs@, e),
            r matches Err(e) ==> e is InitFailed || e is CleanupFailed,
    {
        run_batch::<Self>(inputs)
    }
}

/// The context a machine of a static run is started and cleaned up in: a
/// fresh one with the machine's name.
pub open spec fn fresh_context(name: &'static str) -> MachineContextView {
    MachineContextView { name: name@, lifecycle: Lifecycle::Init, signal: None, time_ns: 0 }
}

/// Whether `r` reports the start-up result `res` of machine `M`: the state
/// as it is, or the failure with the machine's name and the error's text.
pub open spec fn init_reported<M: Machine>(res: Result<M::State, InitError>, r: Result<M::State, StaticExecError>) -> bool {
    match res {
        Ok(s) => r == Ok::<M::State, StaticExecError>(s),
        Err(e) => r matches Err(StaticExecError::InitFailed { machine, reason }) && machine == M::name_spec() && reason@
            == init_error_text(&e),
    }
}

/// Whether `r` reports the clean-up result `res` of machine `M`.
pub open spec fn cleanup_reported<M: Machine>(res: Result<(), CleanupError>, r: Result<(), StaticExecError>) -> bool {
    match res {
        Ok(()) => r is Ok,
        Err(e) => r matches Err(StaticExecError::CleanupFailed { machine, reason }) && machine == M::name_spec() && reason@
            == cleanup_error_text(&e),
    }
}

/// Whether starting machine `M` up in a fresh context may be reported as
/// `r`.
pub open spec fn machine_starts<M: Machine>(r: Result<M::State, StaticExecError>) -> bool {
    exists|res: Result<M::State, InitError>| #[trigger] M::inits(fresh_context(M::name_spec()), res) && init_reported::<M>(res, r)
}

/// Whether cleaning machine `M` up from `state` in a fresh context may be
/// reported as `r`.
pub open spec fn machine_ends<M: Machine>(state: M::State, r: Result<(), StaticExecError>) -> bool {
    exists|res: Result<(), CleanupError>| #[trigger] M::cleans(state, fresh_context(M::name_spec()), res) && cleanup_reported::<M>(res, r)
}

fn init_machine<M: Machine>() -> (r: Result<M::State, StaticExecError>)
    ensures
        machine_starts::<M>(r),
        r matches Err(e) ==> e is InitFailed,
{
    let name = M::name();
    let ctx = MachineContext::new(name);
    let res = M::init(&ctx);
    let ghost gres = res;
    let r = match res {
        Ok(s) => Ok(s),
        Err(e) => Err(StaticExecError::InitFailed { machine: name, reason: e.message() }),
    };
    assert(ctx@ == fresh_context(M::name_spec()));
    assert(M::inits(fresh_context(M::name_spec()), gres) && init_reported::<M>(gres, r));
    r
}

fn cleanup_machine<M: Machine>(state: M::State) -> (r: Result<(), StaticExecError>)
    ensures
        machine_ends::<M>(state, r),
        r matches Err(e) ==> e is CleanupFailed,
{
    let ghost st = state;
    let name = M::name();
    let ctx = MachineContext::new(name);
    let res = M::cleanup(state, &ctx);
    let ghost gres = res;
    let r = match res {
        Ok(()) => Ok(()),
        Err(e) => Err(StaticExecError::CleanupFailed { machine: name, reason: e.message() }),
    };
    assert(ctx@ == fresh_context(M::name_spec()));
    assert(M::cleans(st, fresh_context(M::name_spec()), gres) && cleanup_reported::<M>(gres, r));
    r
}

impl<M: StraightMachine> FlowThrough for M {
    type Head = M;
    type Out = M::StraightOut;
    type States = M::State;

    open spec fn flows(states: M::State, input: M::StraightIn, next: M::State, out: M::StraightOut) -> bool {
        (next, out) == M::straight_spec(states, input)
    }

    open spec fn starts(r: Result<M::State, StaticExecError>) -> bool {
        machine_starts::<M>(r)
    }

    open spec fn ends(states: M::State, r: Result<(), StaticExecError>) -> bool {
        machine_ends::<M>(states, r)
    }

    fn new_states() -> (r: Result<M::State, StaticExecError>) {
        init_machine::<M>()
    }

    fn process_one(states: &mut M::State, input: M::StraightIn) -> (out: M::StraightOut) {
        M::process_straight(states, input)
    }

    fn cleanup(states: M::State) -> (r: Result<(), StaticExecError>) {
        cleanup_machine::<M>(states)
    }
}

impl<M: StraightMachine> StaticChain for M {
}


/// A machine `Head` in front of a flow `Tail`, joined by the link `L`; as a
/// type, the chain `Head → Tail` of any depth.
pub struct Chain<Head, Tail, L> {
    _marker: core::marker::PhantomData<(Head, Tail, L)>,
}

impl<Head, Tail, L> Chain<Head, Tail, L> {
    /// The chain as a value (it holds nothing).
    pub fn new() -> Self {
        Chain { _marker: core::marker::PhantomData }
    }
}

impl<Head, Tail, L> Default for Chain<Head, Tail, L> {
    fn default() -> (c: Self)
        ensures
            true,
    {
        Self::new()
    }
}

/// One step of `Head` then `Tail` joined by `L`: the head steps, its output
/// is linked into some input of the tail, and the tail steps on it.
pub open spec fn chain_flows<Head: StraightMachine, Tail: StaticChain, L: StraightLink<Head, Tail::Head>>(
    states: (Head::State, Tail::States),
    input: Head::StraightIn,
    next: (Head::State, Tail::States),
    out: Tail::Out,
) -> bool {
    &&& next.0 == Head::straight_spec(states.0, input).0
    &&& exists|tin: <Tail::Head as StraightMachine>::StraightIn|
        L::links(Head::straight_spec(states.0, input).1, tin) && #[trigger] Tail::flows(states.1, tin, next.1, out)
}

/// Whether starting `Head` and then `Tail` up may give `r`: `Head`'s
/// failure, or else `Tail`'s, or both states.
pub open spec fn chain_starts<Head: Machine, Tail: FlowThrough>(r: Result<(Head::State, Tail::States), StaticExecError>) -> bool {
    exists|rh: Result<Head::State, StaticExecError>|
        #[trigger] machine_starts::<Head>(rh) && match rh {
            Err(e) => r == Err::<(Head::State, Tail::States), StaticExecError>(e),
            Ok(hs) => chain_tail_starts::<Head, Tail>(hs, r),
        }
}

/// Whether starting `Tail` up, after `Head` started in `hs`, may give `r`.
pub open spec fn chain_tail_starts<Head: Machine, Tail: FlowThrough>(hs: Head::State, r: Result<(Head::State, Tail::States), StaticExecError>) -> bool {
    exists|rt: Result<Tail::States, StaticExecError>|
        #[trigger] Tail::starts(rt) && match rt {
            Err(e) => r == Err::<(Head::State, Tail::States), StaticExecError>(e),
            Ok(ts) => r == Ok::<(Head::State, Tail::States), StaticExecError>((hs, ts)),
        }
}

/// Whether cleaning `Head` and then `Tail` up may give `r`: `Head`'s
/// failure, or else what `Tail` gives.
pub open spec fn chain_ends<Head: Machine, Tail: FlowThrough>(states: (Head::State, Tail::States), r: Result<(), StaticExecError>) -> bool {
    exists|rh: Result<(), StaticExecError>|
        #[trigger] machine_ends::<Head>(states.0, rh) && match rh {
            Err(e) => r == Err::<(), StaticExecError>(e),
            Ok(()) => Tail::ends(states.1, r),
        }
}

impl<Head, Tail, L> FlowThrough for Chain<Head, Tail, L> where
    Head: StraightMachine,
    Tail: StaticChain,
    L: StraightLink<Head, Tail::Head>,
 {
    type Head = Head;
    type Out = Tail::Out;
    type States = (Head::State, Tail::States);

    open spec fn flows(
        states: (Head::State, Tail::States),
        input: Head::StraightIn,
        next: (Head::State, Tail::States),
        out: Tail::Out,
    ) -> bool {
        chain_flows::<Head, Tail, L>(states, input, next, out)
    }

    open spec fn starts(r: Result<(Head::State, Tail::States), StaticExecError>) -> bool {
        chain_starts::<Head, Tail>(r)
    }

    open spec fn ends(states: (Head::State, Tail::States), r: Result<(), StaticExecError>) -> bool {
        chain_ends::<Head, Tail>(states, r)
    }

    fn new_states() -> (r: Result<(Head::State, Tail::States), StaticExecError>) {
        let rh = init_machine::<Head>();
        let ghost grh = rh;
        let head = match rh {
            Ok(s) => s,
            Err(e) => {
                assert(machine_starts::<Head>(grh));
                return Err(e);
            },
        };
        let rt = Tail::new_states();
        let ghost grt = rt;
        let r = match rt {
            Ok(s) => Ok((head, s)),
            Err(e) => Err(e),
        };
        assert(Tail::starts(grt));
        assert(chain_tail_starts::<Head, Tail>(head, r));
        assert(machine_starts::<Head>(grh));
        r
    }

    fn process_one(states: &mut (Head::State, Tail::States), input: Head::StraightIn) -> (out: Tail::Out) {
        let ghost before = *states;
        let hout = Head::process_straight(&mut states.0, input);
        let tin = L::convert(hout);
        let out = Tail::process_one(&mut states.1, tin);
        assert(Tail::flows(before.1, tin, states.1, out));
        assert(chain_flows::<Head, Tail, L>(before, input, *states, out));
        out
    }

    fn cleanup(states: (Head::State, Tail::States)) -> (r: Result<(), StaticExecError>) {
        let (head, tail) = states;
        let rh = cleanup_machine::<Head>(head);
        let ghost grh = rh;
        match rh {
            Ok(()) => {},
            Err(e) => {
                assert(machine_ends::<Head>(states.0, grh));
                return Err(e);
            },
        }
        let r = Tail::cleanup(tail);
        assert(machine_ends::<Head>(states.0, grh));
        r
    }
}

impl<Head, Tail, L> StaticChain for Chain<Head, Tail, L> where
    Head: StraightMachine,
    Tail: StaticChain,
    L: StraightLink<Head, Tail::Head>,
 {
}


/// A fork and join: `A` steps, its output is split into two copies that run
/// through the flows `Left` and `Right`, and what they give is merged into
/// the input of the flow `Down`.
pub struct Diamond<A, Left, Right, Down, S, LB, LC, M> {
    _marker: core::marker::PhantomData<(A, Left, Right, Down, S, LB, LC, M)>,
}

impl<A, Left, Right, Down, S, LB, LC, M> Diamond<A, Left, Right, Down, S, LB, LC, M> {
    /// The diamond as a value (it holds nothing).
    pub fn new() -> Self {
        Diamond { _marker: core::marker::PhantomData }
    }
}

impl<A, Left, Right, Down, S, LB, LC, M> Default for Diamond<A, Left, Right, Down, S, LB, LC, M> {
    fn default() -> (d: Self)
        ensures
            true,
    {
        Self::new()
    }
}

/// The part of a diamond's step after `A` gave `aout`: it splits into `l`
/// and `r`, linked into inputs of `Left` and `Right`; their outputs merge
/// into an input of `Down`, which gives the output.
pub open spec fn diamond_rest<A, Left, Right, Down, S, LB, LC, M>(
    aout: A::StraightOut,
    states: (A::State, Left::States, Right::States, Down::States),
    next: (A::State, Left::States, Right::States, Down::States),
    out: Down::Out,
) -> bool where
    A: StraightMachine,
    Left: StaticChain,
    Right: StaticChain,
    Down: StaticChain,
    S: StraightSplit<A::StraightOut, Left = A::StraightOut, Right = A::StraightOut>,
    LB: StraightLink<A, Left::Head>,
    LC: StraightLink<A, Right::Head>,
    M: StraightMerge<Left::Out, Right::Out, Output = <Down::Head as StraightMachine>::StraightIn>,
 {
    exists|
        l: A::StraightOut,
        r: A::StraightOut,
        li: <Left::Head as StraightMachine>::StraightIn,
        lo: Left::Out,
        ri: <Right::Head as StraightMachine>::StraightIn,
        ro: Right::Out,
        m: <Down::Head as StraightMachine>::StraightIn,
    |
        #![trigger S::splits(aout, l, r), Left::flows(states.1, li, next.1, lo), Right::flows(states.2, ri, next.2, ro), Down::flows(states.3, m, next.3, out)]
        {
            &&& S::splits(aout, l, r)
            &&& LB::links(l, li)
            &&& Left::flows(states.1, li, next.1, lo)
            &&& LC::links(r, ri)
            &&& Right::flows(states.2, ri, next.2, ro)
            &&& M::merges(lo, ro, m)
            &&& Down::flows(states.3, m, next.3, out)
        }
}

/// One step of a diamond: `A` steps, then the rest of the diamond runs on
/// what it gave.
pub open spec fn diamond_flows<A, Left, Right, Down, S, LB, LC, M>(
    states: (A::State, Left::States, Right::States, Down::States),
    input: A::StraightIn,
    next: (A::State, Left::States, Right::States, Down::States),
    out: Down::Out,
) -> bool where
    A: StraightMachine,
    Left: StaticChain,
    Right: StaticChain,
    Down: StaticChain,
    S: StraightSplit<A::StraightOut, Left = A::StraightOut, Right = A::StraightOut>,
    LB: StraightLink<A, Left::Head>,
    LC: StraightLink<A, Right::Head>,
    M: StraightMerge<Left::Out, Right::Out, Output = <Down::Head as StraightMachine>::StraightIn>,
 {
    let (anext, aout) = A::straight_spec(states.0, input);
    &&& next.0 == anext
    &&& diamond_rest::<A, Left, Right, Down, S, LB, LC, M>(aout, states, next, out)
}

/// Whether starting `A`, `Left`, `Right` and `Down` up in turn may give
/// `r`: the first failure, or all four states.
pub open spec fn diamond_starts<A: Machine, Left: FlowThrough, Right: FlowThrough, Down: FlowThrough>(r: Result<(A::State, Left::States, Right::States, Down::States), StaticExecError>) -> bool {
    exists|ra: Result<A::State, StaticExecError>|
        #[trigger] machine_starts::<A>(ra) && match ra {
            Err(e) => r == Err::<(A::State, Left::States, Right::States, Down::States), StaticExecError>(e),
            Ok(a) => diamond_left_starts::<A, Left, Right, Down>(a, r),
        }
}

/// The rest of a diamond's start-up once `A` started in `a`.
pub open spec fn diamond_left_starts<A: Machine, Left: FlowThrough, Right: FlowThrough, Down: FlowThrough>(a: A::State, r: Result<(A::State, Left::States, Right::States, Down::States), StaticExecError>) -> bool {
    exists|rl: Result<Left::States, StaticExecError>|
        #[trigger] Left::starts(rl) && match rl {
            Err(e) => r == Err::<(A::State, Left::States, Right::States, Down::States), StaticExecError>(e),
            Ok(l) => diamond_right_starts::<A, Left, Right, Down>(a, l, r),
        }
}

/// The rest of a diamond's start-up once `Left` started in `l`.
pub open spec fn diamond_right_starts<A: Machine, Left: FlowThrough, Right: FlowThrough, Down: FlowThrough>(a: A::State, l: Left::States, r: Result<(A::State, Left::States, Right::States, Down::States), StaticExecError>) -> bool {
    exists|rr: Result<Right::States, StaticExecError>|
        #[trigger] Right::starts(rr) && match rr {
            Err(e) => r == Err::<(A::State, Left::States, Right::States, Down::States), StaticExecError>(e),
            Ok(x) => diamond_down_starts::<A, Left, Right, Down>(a, l, x, r),
        }
}

/// The rest of a diamond's start-up once `Right` started in `x`.
pub open spec fn diamond_down_starts<A: Machine, Left: FlowThrough, Right: FlowThrough, Down: FlowThrough>(a: A::State, l: Left::States, x: Right::States, r: Result<(A::State, Left::States, Right::States, Down::States), StaticExecError>) -> bool {
    exists|rd: Result<Down::States, StaticExecError>|
        #[trigger] Down::starts(rd) && match rd {
            Err(e) => r == Err::<(A::State, Left::States, Right::States, Down::States), StaticExecError>(e),
            Ok(d) => r == Ok::<(A::State, Left::States, Right::States, Down::States), StaticExecError>((a, l, x, d)),
        }
}

/// Whether cleaning `A`, `Left`, `Right` and `Down` up in turn may give `r`:
/// the first failure, or else what `Down` gives.
pub open spec fn diamond_ends<A: Machine, Left: FlowThrough, Right: FlowThrough, Down: FlowThrough>(states: (A::State, Left::States, Right::States, Down::States), r: Result<(), StaticExecError>) -> bool {
    exists|ra: Result<(), StaticExecError>|
        #[trigger] machine_ends::<A>(states.0, ra) && match ra {
            Err(e) => r == Err::<(), StaticExecError>(e),
            Ok(()) => diamond_left_ends::<A, Left, Right, Down>(states, r),
        }
}

/// The rest of a diamond's clean-up once `A` was cleaned up.
pub open spec fn diamond_left_ends<A: Machine, Left: FlowThrough, Right: FlowThrough, Down: FlowThrough>(states: (A::State, Left::States, Right::States, Down::States), r: Result<(), StaticExecError>) -> bool {
    exists|rl: Result<(), StaticExecError>|
        #[trigger] Left::ends(states.1, rl) && match rl {
            Err(e) => r == Err::<(), StaticExecError>(e),
            Ok(()) => diamond_right_ends::<A, Left, Right, Down>(states, r),
        }
}

/// The rest of a diamond's clean-up once `Left` was cleaned up.
pub open spec fn diamond_right_ends<A: Machine, Left: FlowThrough, Right: FlowThrough, Down: FlowThrough>(states: (A::State, Left::States, Right::States, Down::States), r: Result<(), StaticExecError>) -> bool {
    exists|rr: Result<(), StaticExecError>|
        #[trigger] Right::ends(states.2, rr) && match rr {
            Err(e) => r == Err::<(), StaticExecError>(e),
            Ok(()) => Down::ends(states.3, r),
        }
}

impl<A, Left, Right, Down, S, LB, LC, M> FlowThrough for Diamond<A, Left, Right, Down, S, LB, LC, M> where
    A: StraightMachine,
    Left: StaticChain,
    Right: StaticChain,
    Down: StaticChain,
    S: StraightSplit<A::StraightOut, Left = A::StraightOut, Right = A::StraightOut>,
    LB: StraightLink<A, Left::Head>,
    LC: StraightLink<A, Right::Head>,
    M: StraightMerge<Left::Out, Right::Out, Output = <Down::Head as StraightMachine>::StraightIn>,
 {
    type Head = A;
    type Out = Down::Out;
    type States = (A::State, Left::States, Right::States, Down::States);

    open spec fn flows(
        states: (A::State, Left::States, Right::States, Down::States),
        input: A::StraightIn,
        next: (A::State, Left::States, Right::States, Down::States),
        out: Down::Out,
    ) -> bool {
        diamond_flows::<A, Left, Right, Down, S, LB, LC, M>(states, input, next, out)
    }

    open spec fn starts(r: Result<(A::State, Left::States, Right::States, Down::States), StaticExecError>) -> bool {
        diamond_starts::<A, Left, Right, Down>(r)
    }

    open spec fn ends(states: (A::State, Left::States, Right::States, Down::States), r: Result<(), StaticExecError>) -> bool {
        diamond_ends::<A, Left, Right, Down>(states, r)
    }

    fn new_states() -> (r: Result<(A::State, Left::States, Right::States, Down::States), StaticExecError>) {
        let ra = init_machine::<A>();
        let ghost gra = ra;
        let a = match ra {
            Ok(s) => s,
            Err(e) => {
                assert(machine_starts::<A>(gra));
                return Err(e);
            },
        };
        let rl = Left::new_states();
        let ghost grl = rl;
        let left = match rl {
            Ok(s) => s,
            Err(e) => {
                assert(Left::starts(grl));
                assert(machine_starts::<A>(gra));
                return Err(e);
            },
        };
        let rr = Right::new_states();
        let ghost grr = rr;
        let right = match rr {
            Ok(s) => s,
            Err(e) => {
                assert(Right::starts(grr));
                assert(Left::starts(grl));
                assert(machine_starts::<A>(gra));
                return Err(e);
            },
        };
        let rd = Down::new_states();
        let ghost grd = rd;
        let r = match rd {
            Ok(s) => Ok((a, left, right, s)),
            Err(e) => Err(e),
        };
        assert(Down::starts(grd));
        assert(diamond_down_starts::<A, Left, Right, Down>(a, left, right, r));
        assert(Right::starts(grr));
        assert(Left::starts(grl));
        assert(machine_starts::<A>(gra));
        r
    }

    fn process_one(states: &mut (A::State, Left::States, Right::States, Down::States), input: A::StraightIn) -> (out: Down::Out) {
        let ghost before = *states;
        let aout = A::process_straight(&mut states.0, input);
        let ghost aout_g = aout;
        let (l, r) = S::split(aout);
        let ghost (gl, gr) = (l, r);
        let li = LB::convert(l);
        let lo = Left::process_one(&mut states.1, li);
        let ri = LC::convert(r);
        let ro = Right::process_one(&mut states.2, ri);
        let m = M::merge(lo, ro);
        let out = Down::process_one(&mut states.3, m);
        assert(S::splits(aout_g, gl, gr));
        assert(LB::links(gl, li));
        assert(Left::flows(before.1, li, states.1, lo));
        assert(LC::links(gr, ri));
        assert(Right::flows(before.2, ri, states.2, ro));
        assert(M::merges(lo, ro, m));
        assert(Down::flows(before.3, m, states.3, out));
        assert(diamond_rest::<A, Left, Right, Down, S, LB, LC, M>(aout_g, before, *states, out));
        out
    }

    fn cleanup(states: (A::State, Left::States, Right::States, Down::States)) -> (r: Result<(), StaticExecError>) {
        let (a, left, right, down) = states;
        let ra = cleanup_machine::<A>(a);
        let ghost gra = ra;
        match ra {
            Ok(()) => {},
            Err(e) => {
                assert(machine_ends::<A>(states.0, gra));
                return Err(e);
            },
        }
        let rl = Left::cleanup(left);
        let ghost grl = rl;
        match rl {
            Ok(()) => {},
            Err(e) => {
                assert(Left::ends(states.1, grl));
                assert(machine_ends::<A>(states.0, gra));
                return Err(e);
            },
        }
        let rr = Right::cleanup(right);
        let ghost grr = rr;
        match rr {
            Ok(()) => {},
            Err(e) => {
                assert(Right::ends(states.2, grr));
                assert(Left::ends(states.1, grl));
                assert(machine_ends::<A>(states.0, gra));
                return Err(e);
            },
        }
        let r = Down::cleanup(down);
        assert(Right::ends(states.2, grr));
        assert(Left::ends(states.1, grl));
        assert(machine_ends::<A>(states.0, gra));
        r
    }
}

impl<A, Left, Right, Down, S, LB, LC, M> StaticChain for Diamond<A, Left, Right, Down, S, LB, LC, M> where
    A: StraightMachine,
    Left: StaticChain,
    Right: StaticChain,
    Down: StaticChain,
    S: StraightSplit<A::StraightOut, Left = A::StraightOut, Right = A::StraightOut>,
    LB: StraightLink<A, Left::Head>,
    LC: StraightLink<A, Right::Head>,
    M: StraightMerge<Left::Out, Right::Out, Output = <Down::Head as StraightMachine>::StraightIn>,
 {
}

/// A named flow: it runs exactly as the flow it wraps.
pub struct Composite<Inner>(core::marker::PhantomData<Inner>);

impl<Inner: FlowThrough> FlowThrough for Composite<Inner> {
    type Head = Inner::Head;
    type Out = Inner::Out;
    type States = Inner::States;

    open spec fn flows(
        states: Inner::States,
        input: <Inner::Head as StraightMachine>::StraightIn,
        next: Inner::States,
        out: Inner::Out,
    ) -> bool {
        Inner::flows(states, input, next, out)
    }

    open spec fn starts(r: Result<Inner::States, StaticExecError>) -> bool {
        Inner::starts(r)
    }

    open spec fn ends(states: Inner::States, r: Result<(), StaticExecError>) -> bool {
        Inner::ends(states, r)
    }

    fn new_states() -> (r: Result<Inner::States, StaticExecError>) {
        Inner::new_states()
    }

    fn process_one(states: &mut Inner::States, input: <Inner::Head as StraightMachine>::StraightIn) -> (out: Inner::Out) {
        Inner::process_one(states, input)
    }

    fn cleanup(states: Inner::States) -> (r: Result<(), StaticExecError>) {
        Inner::cleanup(states)
    }
}

impl<Inner: StaticChain> StaticChain for Composite<Inner> {
}

/// Runs two independent flows, each over its own inputs: first `A` over
/// `a_inputs`, then `B` over `b_inputs`.
pub fn run_parallel<A: FlowThrough, B: FlowThrough>(
    a_inputs: Vec<<A::Head as StraightMachine>::StraightIn>,
    b_inputs: Vec<<B::Head as StraightMachine>::StraightIn>,
) -> (r: Result<(Vec<A::Out>, Vec<B::Out>), StaticExecError>)
    ensures
        r matches Ok(outs) ==> batch_ok::<A>(a_inputs@, outs.0@) && batch_ok::<B>(b_inputs@, outs.1@),
        r matches Ok(outs) ==> flow_outputs::<A>(a_inputs@, outs.0@) && flow_outputs::<B>(b_inputs@, outs.1@),
        r matches Err(e) ==> batch_err::<A>(a_inputs@, e) || (exists|ao: Seq<A::Out>| #[trigger] batch_ok::<A>(a_inputs@, ao))
            && batch_err::<B>(b_inputs@, e),
        r matches Err(e) ==> e is InitFailed || e is CleanupFailed,
{
    let a_out = match run_batch::<A>(a_inputs) {
        Ok(o) => o,
        Err(e) => return Err(e),
    };
    let b_out = match run_batch::<B>(b_inputs) {
        Ok(o) => o,
        Err(e) => return Err(e),
    };
    Ok((a_out, b_out))
}


/// A flow gives one output per input.
pub proof fn lemma_flow_output_per_input<F: FlowThrough>(
    states: F::States,
    inputs: Seq<<F::Head as StraightMachine>::StraightIn>,
    next: F::States,
    outs: Seq<F::Out>,
)
    requires
        flows_all::<F>(states, inputs, next, outs),
    ensures
        outs.len() == inputs.len(),
{
}

/// A composite runs exactly as the flow it wraps: over any inputs, the runs
/// of `Composite<Inner>` are the runs of `Inner`.
pub proof fn lemma_composite_transparent<Inner: FlowThrough>(
    states: Inner::States,
    inputs: Seq<<Inner::Head as StraightMachine>::StraightIn>,
    next: Inner::States,
    outs: Seq<Inner::Out>,
)
    ensures
        flows_all::<Composite<Inner>>(states, inputs, next, outs) == flows_all::<Inner>(states, inputs, next, outs),
    decreases inputs.len(),
{
    if inputs.len() > 0 {
        assert forall|mid: Inner::States|
            flows_all::<Composite<Inner>>(states, inputs.drop_last(), mid, outs.drop_last())
                == flows_all::<Inner>(states, inputs.drop_last(), mid, outs.drop_last()) by {
            lemma_composite_transparent::<Inner>(states, inputs.drop_last(), mid, outs.drop_last());
        }
        if flows_all::<Inner>(states, inputs, next, outs) {
            let mid = choose|mid: Inner::States|
                #[trigger] Inner::flows(mid, inputs.last(), next, outs.last())
                    && flows_all::<Inner>(states, inputs.drop_last(), mid, outs.drop_last());
            assert(<Composite<Inner> as FlowThrough>::flows(mid, inputs.last(), next, outs.last()));
            assert(flows_all::<Composite<Inner>>(states, inputs.drop_last(), mid, outs.drop_last()));
            assert(flows_all::<Composite<Inner>>(states, inputs, next, outs));
        }
        if flows_all::<Composite<Inner>>(states, inputs, next, outs) {
            let mid = choose|mid: Inner::States|
                #[trigger] <Composite<Inner> as FlowThrough>::flows(mid, inputs.last(), next, outs.last())
                    && flows_all::<Composite<Inner>>(states, inputs.drop_last(), mid, outs.drop_last());
            assert(Inner::flows(mid, inputs.last(), next, outs.last()));
            assert(flows_all::<Inner>(states, inputs.drop_last(), mid, outs.drop_last()));
            assert(flows_all::<Inner>(states, inputs, next, outs));
        }
    }
}

} // verus!
