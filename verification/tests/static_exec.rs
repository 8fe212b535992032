use flowgraph::machine::{CleanupError, InitError, Machine, SingleOutput};
use flowgraph::port::{ConfigSchema, MachineContext, MachineContextView, PortDecl, PortSchema};
use flowgraph::static_exec::{
    run_parallel, Chain, Composite, Diamond, StaticChain, StaticExecError, StraightClone, StraightId, StraightLink,
    StraightMachine, StraightMerge, StraightSplit,
};

// ── Test machines: single-port machines that double, accumulate, triple ──

pub enum DoublerInput {
    X(i32),
}

pub enum DoublerOutput {
    Y(i32),
}

pub struct Doubler;

impl Machine for Doubler {
    type State = ();
    type Input = DoublerInput;
    type Output = DoublerOutput;
    type ProcessOutput = SingleOutput<DoublerOutput>;
    fn name_spec() -> &'static str {
        "doubler"
    }
    fn inits(_: MachineContextView, r: Result<(), InitError>) -> bool {
        r.is_ok()
    }
    fn processes(state: (), _: MachineContextView, input: DoublerInput, next: (), out: SingleOutput<DoublerOutput>) -> bool {
        let _ = (state, next);
        match (input, out) {
            (DoublerInput::X(n), SingleOutput::Yield(DoublerOutput::Y(m))) => m == n * 2,
            _ => false,
        }
    }
    fn cleans(_: (), _: MachineContextView, r: Result<(), CleanupError>) -> bool {
        r.is_ok()
    }
    fn name() -> &'static str {
        "doubler"
    }
    fn port_schema() -> PortSchema {
        PortSchema::new().with(PortDecl::input::<i32>("x")).with(PortDecl::output::<i32>("y"))
    }
    fn config_schema() -> ConfigSchema {
        ConfigSchema::new()
    }
    fn init(_: &MachineContext) -> Result<(), InitError> {
        Ok(())
    }
    fn process(_: &mut (), _: &MachineContext, input: DoublerInput) -> SingleOutput<DoublerOutput> {
        match input {
            DoublerInput::X(n) => SingleOutput::Yield(DoublerOutput::Y(n * 2)),
        }
    }
    fn cleanup(_: (), _: &MachineContext) -> Result<(), CleanupError> {
        Ok(())
    }
}

impl StraightMachine for Doubler {
    type StraightIn = i32;
    type StraightOut = i32;
    fn straight_spec(s: (), n: i32) -> ((), i32) {
        (s, n * 2)
    }
    fn process_straight(_: &mut (), n: i32) -> i32 {
        n * 2
    }
}

pub enum AdderInput {
    X(i32),
}

pub enum AdderOutput {
    Y(i32),
}

pub struct Adder;

impl Machine for Adder {
    type State = i32;
    type Input = AdderInput;
    type Output = AdderOutput;
    type ProcessOutput = SingleOutput<AdderOutput>;
    fn name_spec() -> &'static str {
        "adder"
    }
    fn inits(_: MachineContextView, r: Result<i32, InitError>) -> bool {
        matches!(r, Ok(0))
    }
    fn processes(state: i32, _: MachineContextView, input: AdderInput, next: i32, out: SingleOutput<AdderOutput>) -> bool {
        match (input, out) {
            (AdderInput::X(n), SingleOutput::Yield(AdderOutput::Y(m))) => next == state + n && m == next,
            _ => false,
        }
    }
    fn cleans(_: i32, _: MachineContextView, r: Result<(), CleanupError>) -> bool {
        r.is_ok()
    }
    fn name() -> &'static str {
        "adder"
    }
    fn port_schema() -> PortSchema {
        PortSchema::new().with(PortDecl::input::<i32>("x")).with(PortDecl::output::<i32>("y"))
    }
    fn config_schema() -> ConfigSchema {
        ConfigSchema::new()
    }
    fn init(_: &MachineContext) -> Result<i32, InitError> {
        Ok(0)
    }
    fn process(state: &mut i32, _: &MachineContext, input: AdderInput) -> SingleOutput<AdderOutput> {
        match input {
            AdderInput::X(n) => {
                *state += n;
                SingleOutput::Yield(AdderOutput::Y(*state))
            }
        }
    }
    fn cleanup(_: i32, _: &MachineContext) -> Result<(), CleanupError> {
        Ok(())
    }
}

impl StraightMachine for Adder {
    type StraightIn = i32;
    type StraightOut = i32;
    fn straight_spec(s: i32, n: i32) -> (i32, i32) {
        (s + n, s + n)
    }
    fn process_straight(state: &mut i32, n: i32) -> i32 {
        *state += n;
        *state
    }
}

pub enum TriplerInput {
    X(i32),
}

pub enum TriplerOutput {
    Y(i32),
}

pub struct Tripler;

impl Machine for Tripler {
    type State = ();
    type Input = TriplerInput;
    type Output = TriplerOutput;
    type ProcessOutput = SingleOutput<TriplerOutput>;
    fn name_spec() -> &'static str {
        "tripler"
    }
    fn inits(_: MachineContextView, r: Result<(), InitError>) -> bool {
        r.is_ok()
    }
    fn processes(state: (), _: MachineContextView, input: TriplerInput, next: (), out: SingleOutput<TriplerOutput>) -> bool {
        let _ = (state, next);
        match (input, out) {
            (TriplerInput::X(n), SingleOutput::Yield(TriplerOutput::Y(m))) => m == n * 3,
            _ => false,
        }
    }
    fn cleans(_: (), _: MachineContextView, r: Result<(), CleanupError>) -> bool {
        r.is_ok()
    }
    fn name() -> &'static str {
        "tripler"
    }
    fn port_schema() -> PortSchema {
        PortSchema::new().with(PortDecl::input::<i32>("x")).with(PortDecl::output::<i32>("y"))
    }
    fn config_schema() -> ConfigSchema {
        ConfigSchema::new()
    }
    fn init(_: &MachineContext) -> Result<(), InitError> {
        Ok(())
    }
    fn process(_: &mut (), _: &MachineContext, input: TriplerInput) -> SingleOutput<TriplerOutput> {
        match input {
            TriplerInput::X(n) => SingleOutput::Yield(TriplerOutput::Y(n * 3)),
        }
    }
    fn cleanup(_: (), _: &MachineContext) -> Result<(), CleanupError> {
        Ok(())
    }
}

impl StraightMachine for Tripler {
    type StraightIn = i32;
    type StraightOut = i32;
    fn straight_spec(s: (), n: i32) -> ((), i32) {
        (s, n * 3)
    }
    fn process_straight(_: &mut (), n: i32) -> i32 {
        n * 3
    }
}

/// A machine whose start-up always fails.
pub struct Broken;

impl Machine for Broken {
    type State = ();
    type Input = i32;
    type Output = i32;
    type ProcessOutput = SingleOutput<i32>;
    fn name_spec() -> &'static str {
        "broken"
    }
    fn inits(_: MachineContextView, r: Result<(), InitError>) -> bool {
        matches!(r, Err(InitError::Other(_)))
    }
    fn processes(state: (), _: MachineContextView, input: i32, next: (), out: SingleOutput<i32>) -> bool {
        let _ = (state, next);
        matches!(out, SingleOutput::Yield(v) if v == input)
    }
    fn cleans(_: (), _: MachineContextView, r: Result<(), CleanupError>) -> bool {
        r.is_ok()
    }
    fn name() -> &'static str {
        "broken"
    }
    fn port_schema() -> PortSchema {
        PortSchema::new().with(PortDecl::input::<i32>("x")).with(PortDecl::output::<i32>("y"))
    }
    fn config_schema() -> ConfigSchema {
        ConfigSchema::new()
    }
    fn init(_: &MachineContext) -> Result<(), InitError> {
        Err(InitError::Other("no device".into()))
    }
    fn process(_: &mut (), _: &MachineContext, input: i32) -> SingleOutput<i32> {
        SingleOutput::Yield(input)
    }
    fn cleanup(_: (), _: &MachineContext) -> Result<(), CleanupError> {
        Ok(())
    }
}

impl StraightMachine for Broken {
    type StraightIn = i32;
    type StraightOut = i32;
    fn straight_spec(s: (), n: i32) -> ((), i32) {
        (s, n)
    }
    fn process_straight(_: &mut (), n: i32) -> i32 {
        n
    }
}

struct Sum;

impl StraightMerge<i32, i32> for Sum {
    type Output = i32;
    fn merges(a: i32, b: i32, out: i32) -> bool {
        out == a + b
    }
    fn merge(a: i32, b: i32) -> i32 {
        a + b
    }
}

// ── Straight contract ──

#[test]
fn straight_machine_single() {
    let outputs = Doubler::run_all(vec![1, 2, 3]).expect("doubler");
    assert_eq!(outputs, vec![2, 4, 6]);
}

#[test]
fn straight_machine_empty() {
    let outputs = Doubler::run_all(vec![]).expect("empty");
    assert!(outputs.is_empty());
}

#[test]
fn straight_id_convert() {
    let x: i32 = <StraightId as StraightLink<Doubler, Adder>>::convert(7);
    assert_eq!(x, 7);
}

#[test]
fn straight_clone_split_duplicates() {
    let (a, b) = StraightClone::split(42i32);
    assert_eq!(a, 42);
    assert_eq!(b, 42);
}

#[test]
fn straight_merge_sums() {
    assert_eq!(Sum::merge(3, 4), 7);
}

// ── Chain ──

#[test]
fn chain_three_stage_recursive() {
    type Chain3 = Chain<Doubler, Chain<Adder, Tripler, StraightId>, StraightId>;
    let outputs = Chain3::run_all(vec![1]).expect("chain3");
    assert_eq!(outputs, vec![6]);
}

#[test]
fn chain_recursive_multi_input() {
    type Chain2 = Chain<Doubler, Adder, StraightId>;
    let outputs = Chain2::run_all(vec![1, 2, 3]).expect("chain2");
    assert_eq!(outputs, vec![2, 6, 12]);
}

#[test]
fn chain_empty_inputs() {
    type Chain3 = Chain<Doubler, Chain<Adder, Tripler, StraightId>, StraightId>;
    let outputs = Chain3::run_all(vec![]).expect("chain3 empty");
    assert!(outputs.is_empty());
}

// ── Diamond ──

type DiamondShape = Diamond<Doubler, Adder, Tripler, Adder, StraightClone, StraightId, StraightId, Sum>;

#[test]
fn diamond_runs_split_then_merge() {
    let outputs = DiamondShape::run_all(vec![1, 2]).expect("diamond");
    assert_eq!(outputs, vec![8, 26]);
}

#[test]
fn diamond_empty_inputs() {
    let outputs = DiamondShape::run_all(vec![]).expect("diamond empty");
    assert!(outputs.is_empty());
}

#[test]
fn diamond_embeds_as_chain_tail() {
    type ChainWithDiamond = Chain<Doubler, DiamondShape, StraightId>;
    let outputs = ChainWithDiamond::run_all(vec![1]).expect("chain+diamond");
    assert_eq!(outputs, vec![16]);
}

#[test]
fn diamond_arms_are_chains() {
    type LeftArm = Chain<Adder, Doubler, StraightId>;
    type RightArm = Chain<Tripler, Doubler, StraightId>;
    type DChainArms = Diamond<Doubler, LeftArm, RightArm, Adder, StraightClone, StraightId, StraightId, Sum>;
    let outputs = DChainArms::run_all(vec![1]).expect("diamond chain arms");
    assert_eq!(outputs, vec![16]);
}

// ── Composite ──

#[test]
fn composite_matches_direct_chain() {
    type Direct = Chain<Doubler, Chain<Adder, Tripler, StraightId>, StraightId>;
    type Wrapped = Composite<Chain<Doubler, Chain<Adder, Tripler, StraightId>, StraightId>>;
    let d = Direct::run_all(vec![1, 2]).expect("direct");
    let w = Wrapped::run_all(vec![1, 2]).expect("composite");
    assert_eq!(d, w, "composite must be semantically identical to its inner topology");
    assert_eq!(d, vec![6, 18]);
}

#[test]
fn composite_embeds_in_chain() {
    type Sub = Composite<Chain<Adder, Tripler, StraightId>>;
    type Top = Chain<Doubler, Sub, StraightId>;
    let outputs = Top::run_all(vec![1]).expect("chain with composite tail");
    assert_eq!(outputs, vec![6]);
}

#[test]
fn composite_embeds_in_diamond_arm() {
    type LeftArm = Composite<Chain<Adder, Tripler, StraightId>>;
    type RightArm = Composite<Chain<Tripler, Doubler, StraightId>>;
    type D = Diamond<Doubler, LeftArm, RightArm, Adder, StraightClone, StraightId, StraightId, Sum>;
    let outputs = D::run_all(vec![1]).expect("diamond with composite arms");
    assert_eq!(outputs, vec![18]);
}

// ── Parallel ──

#[test]
fn parallel_runs_two_independent_chains() {
    type A = Chain<Doubler, Adder, StraightId>;
    type B = Tripler;
    let (a_out, b_out) = run_parallel::<A, B>(vec![1, 2, 3], vec![10]).expect("parallel");
    assert_eq!(a_out, vec![2, 6, 12]);
    assert_eq!(b_out, vec![30]);
}

#[test]
fn parallel_with_composite_subsystems() {
    type SubA = Composite<Chain<Doubler, Tripler, StraightId>>;
    type SubB = Composite<Chain<Adder, Doubler, StraightId>>;
    let (a_out, b_out) = run_parallel::<SubA, SubB>(vec![2], vec![3]).expect("parallel composite");
    assert_eq!(a_out, vec![12]);
    assert_eq!(b_out, vec![6]);
}

#[test]
fn diamond_arm_is_diamond() {
    type InnerDiamond = Diamond<Doubler, Adder, Tripler, Adder, StraightClone, StraightId, StraightId, Sum>;
    type OuterDiamond = Diamond<Doubler, InnerDiamond, Tripler, Adder, StraightClone, StraightId, StraightId, Sum>;
    let outputs = OuterDiamond::run_all(vec![1]).expect("diamond in diamond");
    assert_eq!(outputs, vec![22]);
}

#[test]
fn static_exec_error_display() {
    let e = StaticExecError::InitFailed { machine: "doubler", reason: "out of memory".into() };
    let s = e.message();
    assert!(s.contains("doubler"));
    assert!(s.contains("out of memory"));
    let e = StaticExecError::MachineDone { machine: "source", processed: 100 };
    let s = e.message();
    assert!(s.contains("source"));
    assert!(s.contains("100"));
}

// ── Further cases ──

#[test]
fn static_exec_error_texts_are_exact() {
    let e = StaticExecError::CleanupFailed { machine: "sink", reason: "busy".into() };
    assert_eq!(e.message(), "cleanup failed for 'sink': busy");
    let e = StaticExecError::MachineDone { machine: "source", processed: 100 };
    assert_eq!(e.message(), "machine 'source' returned Done after processing 100 inputs");
}

#[test]
fn failing_start_up_names_the_machine() {
    type C = Chain<Doubler, Broken, StraightId>;
    match C::run_all(vec![1, 2]) {
        Err(StaticExecError::InitFailed { machine, reason }) => {
            assert_eq!(machine, "broken");
            assert_eq!(reason, "no device");
        }
        other => panic!("expected a start-up failure, got {:?}", other.map(|v| v.len())),
    }
}

#[test]
fn adder_state_carries_across_inputs_in_parallel_runs() {
    let (a, b) = run_parallel::<Adder, Adder>(vec![1, 1, 1], vec![5, 5]).expect("two adders");
    assert_eq!(a, vec![1, 2, 3]);
    assert_eq!(b, vec![5, 10]);
}
