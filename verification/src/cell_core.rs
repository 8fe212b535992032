//! Cells composed at the type level: a cell has a typed input, output and
//! state, and one step; combinators wire cells into chains, fan-outs,
//! fan-ins, loops, choices and repetitions whose wiring the type checker
//! verifies.
//!
//! Each cell declares what its step does as `step_spec`; the combinators'
//! contracts say what they compute in terms of their parts' declarations.
use vstd::prelude::*;
use vstd::std_specs::convert::IntoSpec;

verus! {

/// A unit of computation with typed input, output and state.
pub trait PortCell: Sized {
    type In;
    type Out;
    type State: Default;

    /// What a step does: the next state and the output.
    spec fn step_spec(state: Self::State, input: Self::In) -> (Self::State, Self::Out);

    /// One step.
    fn step(state: &mut Self::State, input: Self::In) -> (out: Self::Out)
        ensures
            (*final(state), out) == Self::step_spec(*old(state), input);
}

/// A link from cell `A` into cell `B`, whose input is `A`'s output.
pub struct Link<A, B>(core::marker::PhantomData<(A, B)>);

impl<A, B> Link<A, B> where A: PortCell, B: PortCell<In = A::Out> {
    /// Steps `A` on `input`, then `B` on what `A` gave.
    pub fn fire(astate: &mut A::State, bstate: &mut B::State, input: A::In) -> (out: B::Out)
        ensures
            ({
                let (sa, mid) = A::step_spec(*old(astate), input);
                let (sb, o) = B::step_spec(*old(bstate), mid);
                *final(astate) == sa && *final(bstate) == sb && out == o
            }),
    {
        let mid = A::step(astate, input);
        B::step(bstate, mid)
    }
}

/// Two cells in sequence, as one cell.
pub struct CellChain<A, B>(core::marker::PhantomData<(A, B)>);

/// Two cells in sequence, as one cell.
pub type Chain<A, B> = CellChain<A, B>;

impl<A, B> PortCell for CellChain<A, B> where A: PortCell, B: PortCell<In = A::Out> {
    type In = A::In;
    type Out = B::Out;
    type State = (A::State, B::State);

    open spec fn step_spec(state: (A::State, B::State), input: A::In) -> ((A::State, B::State), B::Out) {
        let (sa, mid) = A::step_spec(state.0, input);
        let (sb, out) = B::step_spec(state.1, mid);
        ((sa, sb), out)
    }

    fn step(state: &mut (A::State, B::State), input: A::In) -> (out: B::Out) {
        let mid = A::step(&mut state.0, input);
        B::step(&mut state.1, mid)
    }
}

/// One source cell feeding two receivers, each with its own copy.
pub struct Broadcast<SRC, R1, R2> {
    _src: core::marker::PhantomData<SRC>,
    _r1: core::marker::PhantomData<R1>,
    _r2: core::marker::PhantomData<R2>,
}

impl<SRC, R1, R2> Broadcast<SRC, R1, R2> where
    SRC: PortCell,
    SRC::Out: Clone,
    R1: PortCell<In = SRC::Out>,
    R2: PortCell<In = SRC::Out>,
 {
    /// Steps the source, then the first receiver on a copy of its output
    /// and the second on the output itself.
    pub fn fire(ssrc: &mut SRC::State, sr1: &mut R1::State, sr2: &mut R2::State, input: SRC::In) -> (r: (R1::Out, R2::Out))
        ensures
            ({
                let (s, mid) = SRC::step_spec(*old(ssrc), input);
                let (s2, o2) = R2::step_spec(*old(sr2), mid);
                &&& *final(ssrc) == s
                &&& *final(sr2) == s2
                &&& r.1 == o2
                &&& exists|c: SRC::Out| cloned(mid, c) && (*final(sr1), r.0) == R1::step_spec(*old(sr1), c)
            }),
    {
        let mid = SRC::step(ssrc, input);
        let ghost m = mid;
        let ghost s1 = *sr1;
        let copy = mid.clone();
        let ghost c = copy;
        let o1 = R1::step(sr1, copy);
        let o2 = R2::step(sr2, mid);
        proof {
            assert(cloned(m, c) && (*sr1, o1) == R1::step_spec(s1, c));
        }
        (o1, o2)
    }
}

/// Two sources feeding one receiver, one after the other.
pub struct Merge<S1, S2, DST> {
    _s1: core::marker::PhantomData<S1>,
    _s2: core::marker::PhantomData<S2>,
    _dst: core::marker::PhantomData<DST>,
}

impl<S1, S2, DST> Merge<S1, S2, DST> where
    S1: PortCell,
    S2: PortCell,
    DST: PortCell<In = S1::Out>,
    S2::Out: Into<DST::In>,
 {
    /// Steps the first source and the receiver on its output, then the
    /// second source and the receiver on its converted output; returns the
    /// receiver's second output.
    pub fn join(ss1: &mut S1::State, ss2: &mut S2::State, sdst: &mut DST::State, in1: S1::In, in2: S2::In) -> (out: DST::Out)
        ensures
            ({
                let (s1, o1) = S1::step_spec(*old(ss1), in1);
                let (d1, _) = DST::step_spec(*old(sdst), o1);
                let (s2, o2) = S2::step_spec(*old(ss2), in2);
                &&& *final(ss1) == s1
                &&& *final(ss2) == s2
                &&& exists|x: DST::In| (<S2::Out as IntoSpec<DST::In>>::obeys_into_spec() ==> x == o2.into_spec())
                    && (*final(sdst), out) == DST::step_spec(d1, x)
            }),
    {
        let o1 = S1::step(ss1, in1);
        DST::step(sdst, o1);
        let ghost d1 = *sdst;
        let o2s = S2::step(ss2, in2);
        let ghost o2g = o2s;
        let o2: DST::In = o2s.into();
        let ghost x = o2;
        let out = DST::step(sdst, o2);
        proof {
            assert((<S2::Out as IntoSpec<DST::In>>::obeys_into_spec() ==> x == o2g.into_spec())
                && (*sdst, out) == DST::step_spec(d1, x));
            assert(d1 == DST::step_spec(*old(sdst), S1::step_spec(*old(ss1), in1).1).0);
            assert(o2g == S2::step_spec(*old(ss2), in2).1);
            assert(exists|y: DST::In| (<S2::Out as IntoSpec<DST::In>>::obeys_into_spec() ==> y == o2g.into_spec())
                && (*sdst, out) == DST::step_spec(d1, y));
        }
        out
    }
}

/// A loop: the body's output, fed back through `FEED`, is the body's next
/// input.
pub struct Feedback<BODY, FEED> {
    _body: core::marker::PhantomData<BODY>,
    _feed: core::marker::PhantomData<FEED>,
}

impl<BODY, FEED> Feedback<BODY, FEED> where BODY: PortCell, FEED: PortCell<In = BODY::Out, Out = BODY::In> {
    /// Steps the body on `external`, the feedback on its output, and the
    /// body again on what the feedback gave.
    pub fn tick(sbody: &mut BODY::State, sfeed: &mut FEED::State, external: BODY::In) -> (out: BODY::Out)
        ensures
            ({
                let (b1, o1) = BODY::step_spec(*old(sbody), external);
                let (f1, next) = FEED::step_spec(*old(sfeed), o1);
                let (b2, o2) = BODY::step_spec(b1, next);
                *final(sbody) == b2 && *final(sfeed) == f1 && out == o2
            }),
    {
        let out = BODY::step(sbody, external);
        let next_in: BODY::In = FEED::step(sfeed, out);
        BODY::step(sbody, next_in)
    }
}

/// A slot: an interface of input `I` and output `O` that a cell may fill.
pub struct Slot<I, O>(core::marker::PhantomData<(I, O)>);

impl<I, O> Slot<I, O> {
    /// Declares the slot.
    pub fn declare() -> Self {
        Slot(core::marker::PhantomData)
    }
}

/// The cell `C` repeated `N` times: each repetition steps on what the
/// previous one gave, so its input and output types agree; `N = 0` passes
/// the input through. The count is fixed in the type.
pub struct Rep<const N: usize, C>(core::marker::PhantomData<C>);

/// The states of a repetition: one state of `C` per repetition, in order.
pub struct RepState<const N: usize, C: PortCell>(pub [C::State; N]);

/// Whether `x` is a value that `S::default` may return.
pub open spec fn default_value<S: Default>(x: S) -> bool {
    call_ensures(S::default, (), x)
}

/// A fresh state of a cell.
fn fresh_state<S: Default>() -> (r: S)
    ensures
        default_value(r),
{
    S::default()
}

/// `N` fresh states, built by std's `core::array::from_fn`, which fills
/// each element with what the closure returns: a value of
/// `S::default`, through the verified `fresh_state`.
#[verifier::external_body]
fn fresh_states<S: Default, const N: usize>() -> (r: [S; N])
    ensures
        forall|i: int| 0 <= i < N ==> default_value(#[trigger] r@[i]),
{
    core::array::from_fn(|_| fresh_state::<S>())
}

impl<const N: usize, C: PortCell> Default for RepState<N, C> {
    /// `N` states, each a default state of `C`.
    fn default() -> (r: Self)
        ensures
            r.0@.len() == N,
            forall|i: int| 0 <= i < N ==> default_value(#[trigger] r.0@[i]),
    {
        RepState(fresh_states::<C::State, N>())
    }
}

impl<const N: usize, C: PortCell> RepState<N, C> {
    /// The number of repetitions.
    pub fn len(&self) -> (r: usize)
        ensures
            r == N,
    {
        N
    }

    /// Whether there is no repetition.
    pub fn is_empty(&self) -> (r: bool)
        ensures
            r == (N == 0),
    {
        N == 0
    }
}

impl<const N: usize, C> Rep<N, C> {
    /// Declares the repetition.
    pub fn declare() -> Self {
        Rep(core::marker::PhantomData)
    }
}

/// The states `ss` run in turn on `input`, each on what the previous one
/// gave: the new states and the last output (`input` itself when there is
/// no state).
pub open spec fn rep_run<T, C: PortCell<In = T, Out = T>>(ss: Seq<C::State>, input: T) -> (Seq<C::State>, T)
    decreases ss.len(),
{
    if ss.len() == 0 {
        (ss, input)
    } else {
        let (pre, mid) = rep_run::<T, C>(ss.drop_last(), input);
        let (sl, out) = C::step_spec(ss.last(), mid);
        (pre.push(sl), out)
    }
}

/// The array of `N` states with the given values.
pub open spec fn states_array<S, const N: usize>(ss: Seq<S>) -> [S; N] {
    choose|a: [S; N]| a@ == ss
}

impl<const N: usize, T, C> PortCell for Rep<N, C> where C: PortCell<In = T, Out = T> {
    type In = T;
    type Out = T;
    type State = RepState<N, C>;

    open spec fn step_spec(state: RepState<N, C>, input: T) -> (RepState<N, C>, T) {
        let (ss, out) = rep_run::<T, C>(state.0@, input);
        (RepState(states_array::<C::State, N>(ss)), out)
    }

    fn step(state: &mut RepState<N, C>, input: T) -> (out: T) {
        let ghost s0 = state.0@;
        let mut acc = input;
        let mut i: usize = 0;
        proof {
            assert(s0.take(0) =~= Seq::<C::State>::empty());
            assert(state.0@.take(0) =~= Seq::<C::State>::empty());
        }
        while i < N
            invariant
                i <= N,
                s0.len() == N,
                state.0@.len() == N,
                forall|j: int| i <= j < N ==> #[trigger] state.0@[j] == s0[j],
                rep_run::<T, C>(s0.take(i as int), input) == (state.0@.take(i as int), acc),
            decreases N - i,
        {
            let ghost before = state.0@;
            let mid = C::step(&mut state.0[i], acc);
            proof {
                assert(s0.take(i + 1).drop_last() =~= s0.take(i as int));
                assert(s0.take(i + 1).last() == s0[i as int]);
                assert(state.0@.take(i + 1) =~= before.take(i as int).push(state.0@[i as int]));
            }
            acc = mid;
            i = i + 1;
        }
        proof {
            assert(s0.take(N as int) =~= s0);
            assert(state.0@.take(N as int) =~= state.0@);
            let ss = rep_run::<T, C>(s0, input).0;
            assert(state.0@ == ss);
            let a = states_array::<C::State, N>(ss);
            assert(a@ == ss);
            assert(state.0 =~= a);
        }
        acc
    }
}

/// An input to one of two cells, tagged by which.
pub enum ChoiceIn<IA, IB> {
    A(IA),
    B(IB),
}

/// An output of one of two cells, tagged by which.
pub enum ChoiceOut<OA, OB> {
    A(OA),
    B(OB),
}

/// Two cells, the input's tag choosing which one steps.
pub struct Choice<A, B>(core::marker::PhantomData<(A, B)>);

impl<A, B> PortCell for Choice<A, B> where A: PortCell, B: PortCell {
    type In = ChoiceIn<A::In, B::In>;
    type Out = ChoiceOut<A::Out, B::Out>;
    type State = (A::State, B::State);

    open spec fn step_spec(state: (A::State, B::State), input: ChoiceIn<A::In, B::In>) -> (
        (A::State, B::State),
        ChoiceOut<A::Out, B::Out>,
    ) {
        match input {
            ChoiceIn::A(i) => {
                let (sa, o) = A::step_spec(state.0, i);
                ((sa, state.1), ChoiceOut::A(o))
            },
            ChoiceIn::B(i) => {
                let (sb, o) = B::step_spec(state.1, i);
                ((state.0, sb), ChoiceOut::B(o))
            },
        }
    }

    fn step(state: &mut (A::State, B::State), input: ChoiceIn<A::In, B::In>) -> (out: ChoiceOut<A::Out, B::Out>) {
        match input {
            ChoiceIn::A(i) => ChoiceOut::A(A::step(&mut state.0, i)),
            ChoiceIn::B(i) => ChoiceOut::B(B::step(&mut state.1, i)),
        }
    }
}

/// A cell that steps on a present input and passes an absent one through.
pub struct Opt<C>(core::marker::PhantomData<C>);

impl<C> PortCell for Opt<C> where C: PortCell {
    type In = Option<C::In>;
    type Out = Option<C::Out>;
    type State = C::State;

    open spec fn step_spec(state: C::State, input: Option<C::In>) -> (C::State, Option<C::Out>) {
        match input {
            Some(i) => {
                let (s, o) = C::step_spec(state, i);
                (s, Some(o))
            },
            None => (state, None),
        }
    }

    fn step(state: &mut C::State, input: Option<C::In>) -> (out: Option<C::Out>) {
        match input {
            Some(i) => Some(C::step(state, i)),
            None => None,
        }
    }
}

/// A sub-topology declared statically.
pub struct Static<SUB>(core::marker::PhantomData<SUB>);

impl<SUB> Static<SUB> {
    /// Declares it.
    pub fn declare() -> Self {
        Static(core::marker::PhantomData)
    }
}

/// A whole topology as a type: no value exists at run time.
pub struct Blueprint<TOP>(core::marker::PhantomData<TOP>);

impl<TOP> Blueprint<TOP> {
    /// Defines it.
    pub fn define() -> Self {
        Blueprint(core::marker::PhantomData)
    }
}

/// Steps cell `C` once.
pub fn drive<C: PortCell>(state: &mut C::State, input: C::In) -> (out: C::Out)
    ensures
        (*final(state), out) == C::step_spec(*old(state), input),
{
    C::step(state, input)
}

/// Evidence, checked by the type checker, that a cell fills a slot.
pub trait Conforms<SLOT> {
    const OK: bool = true;
}

impl<I, O, OCC> Conforms<Slot<I, O>> for OCC where OCC: PortCell<In = I, Out = O> {
}

/// Compiles only when cell `OCC` fills slot `SLOT`.
pub fn assert_conforms<SLOT, OCC>() where OCC: Conforms<SLOT> {
}

/// Evidence, checked by the type checker, that `B` can take `A`'s output.
pub trait DoesWire<A, B> {
    const WIRES: bool = true;
}

impl<A, B> DoesWire<A, B> for () where A: PortCell, B: PortCell<In = A::Out> {
}

/// Compiles only when `B` can take `A`'s output.
pub fn assert_wiring<A, B>() where A: PortCell, B: PortCell<In = A::Out> {
}

/// Compiles only when `B` can take `A`'s output.
pub fn wired<A, B>() where A: PortCell, B: PortCell<In = A::Out> {
    assert_wiring::<A, B>();
}

/// Whether a blueprint type occupies no memory.
pub fn blueprint_is_zero_sized<TOP>() -> (r: bool)
    ensures
        r == (vstd::layout::size_of::<Blueprint<TOP>>() == 0),
{
    core::mem::size_of::<Blueprint<TOP>>() == 0
}

} // verus!
