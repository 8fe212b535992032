//! Pure functions of a deployment: their rough cost, for scheduling.
use vstd::prelude::*;

verus! {

/// A rough estimate of a function's cost, for scheduling decisions.
#[derive(Debug, Clone, Copy, PartialEq, Eq, PartialOrd, Ord, Structural)]
pub enum CostEstimate {
    /// Not measured; assume moderate.
    Unknown,
    /// About 1 to 10 cycles.
    Trivial,
    /// About 10 to 100 cycles.
    Cheap,
    /// About 100 to 1,000 cycles.
    Moderate,
    /// About 1,000 to 10,000 cycles.
    Expensive,
    /// More than 10,000 cycles.
    VeryExpensive,
}

impl CostEstimate {
    /// Whether the cost was not measured.
    pub fn is_unknown(&self) -> (r: bool)
        ensures
            r == (*self is Unknown),
    {
        match self {
            CostEstimate::Unknown => true,
            _ => false,
        }
    }
}

/// A function of the deployment without state: the same output for the
/// same input (`call_spec`), unless it declares itself nondeterministic
/// (randomness, the clock, the network), when replaying it is not safe.
pub trait Func {
    type Input;
    type Output;

    /// The output for an input.
    spec fn call_spec(input: Self::Input) -> Self::Output;

    /// The function's name, as `name` gives it.
    spec fn name_spec() -> &'static str;

    /// The function's name.
    fn name() -> (r: &'static str)
        ensures
            r == Self::name_spec();

    /// Whether the function may give different outputs for one input; such
    /// a function's outputs need not be `call_spec` of its inputs.
    const NONDETERMINISTIC: bool = false;

    /// Computes the output: `call_spec` of the input, unless the function
    /// is nondeterministic.
    fn call(input: Self::Input) -> (out: Self::Output)
        ensures
            !Self::NONDETERMINISTIC ==> out == Self::call_spec(input);

    /// A rough estimate of the cost of a call.
    fn cost_estimate() -> (c: CostEstimate)
        default_ensures
            c is Unknown,
    {
        CostEstimate::Unknown
    }

    /// Whether the function may give different outputs for one input.
    fn nondeterministic() -> (r: bool)
        ensures
            r == Self::NONDETERMINISTIC,
    {
        Self::NONDETERMINISTIC
    }
}

/// A function that works in a scratch space its caller allocates once.
pub trait FuncWithScratch: Func {
    type Scratch: Default;

    /// Computes the output, using `scratch` as workspace: `call_spec` of
    /// the input, unless the function is nondeterministic.
    fn call_with(input: Self::Input, scratch: &mut Self::Scratch) -> (out: Self::Output)
        ensures
            !Self::NONDETERMINISTIC ==> out == Self::call_spec(input);
}

/// A scratch function called with a fresh scratch space each time.
pub struct Scratched<F: FuncWithScratch>(core::marker::PhantomData<F>);

impl<F: FuncWithScratch> Func for Scratched<F> {
    type Input = F::Input;
    type Output = F::Output;

    const NONDETERMINISTIC: bool = F::NONDETERMINISTIC;

    open spec fn call_spec(input: F::Input) -> F::Output {
        F::call_spec(input)
    }

    open spec fn name_spec() -> &'static str {
        F::name_spec()
    }

    fn name() -> (r: &'static str) {
        F::name()
    }

    fn call(input: F::Input) -> (out: F::Output) {
        let mut scratch = F::Scratch::default();
        F::call_with(input, &mut scratch)
    }

    fn cost_estimate() -> CostEstimate {
        F::cost_estimate()
    }

    fn nondeterministic() -> bool {
        F::nondeterministic()
    }
}

/// Scratch functions called one after the other, each on what the previous
/// one gave, each in its own part of a shared scratch space.
pub struct FuncScratchPipeline<Steps>(core::marker::PhantomData<Steps>);

impl<A: FuncWithScratch> Func for FuncScratchPipeline<(A,)> {
    type Input = A::Input;
    type Output = A::Output;

    const NONDETERMINISTIC: bool = A::NONDETERMINISTIC;

    open spec fn call_spec(input: A::Input) -> A::Output {
        A::call_spec(input)
    }

    open spec fn name_spec() -> &'static str {
        A::name_spec()
    }

    fn name() -> (r: &'static str) {
        A::name()
    }

    fn call(input: A::Input) -> (out: A::Output) {
        A::call(input)
    }

    fn cost_estimate() -> CostEstimate {
        A::cost_estimate()
    }
}

impl<A: FuncWithScratch> FuncWithScratch for FuncScratchPipeline<(A,)> {
    type Scratch = A::Scratch;

    fn call_with(input: A::Input, scratch: &mut A::Scratch) -> (out: A::Output) {
        A::call_with(input, scratch)
    }
}

impl<A, B> Func for FuncScratchPipeline<(A, B)> where A: FuncWithScratch<Output = B::Input>, B: FuncWithScratch {
    type Input = A::Input;
    type Output = B::Output;

    const NONDETERMINISTIC: bool = A::NONDETERMINISTIC || B::NONDETERMINISTIC;

    open spec fn call_spec(input: A::Input) -> B::Output {
        B::call_spec(A::call_spec(input))
    }

    open spec fn name_spec() -> &'static str {
        "pipeline"
    }

    fn name() -> (r: &'static str)
        ensures
            r == "pipeline",
    {
        "pipeline"
    }

    fn call(input: A::Input) -> (out: B::Output) {
        let mut sa = A::Scratch::default();
        let mut sb = B::Scratch::default();
        let mid = A::call_with(input, &mut sa);
        B::call_with(mid, &mut sb)
    }
}

impl<A, B> FuncWithScratch for FuncScratchPipeline<(A, B)> where A: FuncWithScratch<Output = B::Input>, B: FuncWithScratch {
    type Scratch = (A::Scratch, B::Scratch);

    fn call_with(input: A::Input, scratch: &mut (A::Scratch, B::Scratch)) -> (out: B::Output) {
        let mid = A::call_with(input, &mut scratch.0);
        B::call_with(mid, &mut scratch.1)
    }
}

impl<A, B, C> Func for FuncScratchPipeline<(A, B, C)> where
    A: FuncWithScratch<Output = B::Input>,
    B: FuncWithScratch<Output = C::Input>,
    C: FuncWithScratch,
 {
    type Input = A::Input;
    type Output = C::Output;

    const NONDETERMINISTIC: bool = A::NONDETERMINISTIC || B::NONDETERMINISTIC || C::NONDETERMINISTIC;

    open spec fn call_spec(input: A::Input) -> C::Output {
        C::call_spec(B::call_spec(A::call_spec(input)))
    }

    open spec fn name_spec() -> &'static str {
        "pipeline"
    }

    fn name() -> (r: &'static str)
        ensures
            r == "pipeline",
    {
        "pipeline"
    }

    fn call(input: A::Input) -> (out: C::Output) {
        let mut sa = A::Scratch::default();
        let mut sb = B::Scratch::default();
        let mut sc = C::Scratch::default();
        let a = A::call_with(input, &mut sa);
        let b = B::call_with(a, &mut sb);
        C::call_with(b, &mut sc)
    }
}

impl<A, B, C> FuncWithScratch for FuncScratchPipeline<(A, B, C)> where
    A: FuncWithScratch<Output = B::Input>,
    B: FuncWithScratch<Output = C::Input>,
    C: FuncWithScratch,
 {
    type Scratch = (A::Scratch, B::Scratch, C::Scratch);

    fn call_with(input: A::Input, scratch: &mut (A::Scratch, B::Scratch, C::Scratch)) -> (out: C::Output) {
        let a = A::call_with(input, &mut scratch.0);
        let b = B::call_with(a, &mut scratch.1);
        C::call_with(b, &mut scratch.2)
    }
}

} // verus!
