use flowgraph::builtin::{
    Collector, EntityRoot, FuncMachine, FuncMachineInput, FuncMachineOutput, Identity, IdentityInput, IdentityOutput,
    Latch, LatchInput, LatchOutput, Sink, SinkInput, Source, SourceInput, SourceOutput, Tee,
};
use flowgraph::entity::Entity;
use flowgraph::flow::FlowKind;
use flowgraph::func::Func;
use flowgraph::machine::{Machine, SingleOutput};
use flowgraph::port::{MachineContext, PortDir};
use flowgraph::static_exec::StaticChain;

struct Square;

impl Func for Square {
    type Input = i64;
    type Output = i64;
    fn call_spec(x: i64) -> i64 {
        x * x
    }
    fn name_spec() -> &'static str {
        "square"
    }
    fn name() -> &'static str {
        "square"
    }
    fn call(x: i64) -> i64 {
        x * x
    }
}

#[test]
fn identity_passes_input_through() {
    let ctx = MachineContext::new("id");
    let mut st = Identity::<i32>::init(&ctx).expect("init");
    assert_eq!(Identity::<i32>::process(&mut st, &ctx, IdentityInput::Input(9)), SingleOutput::Yield(IdentityOutput::Output(9)));
    assert_eq!(Identity::<i32>::name(), "builtin.Identity");
    assert!(Identity::<i32>::deterministic());
    let schema = Identity::<i32>::port_schema();
    assert_eq!(schema.len(), 2);
    assert_eq!(schema.ports()[0].name, "input");
    assert_eq!(schema.ports()[0].dir, PortDir::In);
    assert_eq!(schema.ports()[1].name, "output");
    assert_eq!(schema.ports()[1].dir, PortDir::Out);
}

#[test]
fn sink_discards_everything() {
    let ctx = MachineContext::new("sink");
    let mut st = Sink::<String>::init(&ctx).expect("init");
    assert!(matches!(Sink::<String>::process(&mut st, &ctx, SinkInput::Input("x".to_string())), SingleOutput::Idle));
    let schema = Sink::<String>::port_schema();
    assert_eq!(schema.len(), 1);
    assert_eq!(schema.ports()[0].name, "input");
    let outs = Sink::<i32>::run_all(vec![1, 2, 3]).expect("straight sink");
    assert_eq!(outs.len(), 3);
}

#[test]
fn source_gives_its_value_on_every_tick() {
    let ctx = MachineContext::new("src");
    let mut st = Source::<i32>::init(&ctx).expect("init");
    assert_eq!(st.output, 0);
    st.output = 7;
    assert_eq!(Source::<i32>::process(&mut st, &ctx, SourceInput::Tick(())), SingleOutput::Yield(SourceOutput::Output(7)));
    assert_eq!(Source::<i32>::process(&mut st, &ctx, SourceInput::Tick(())), SingleOutput::Yield(SourceOutput::Output(7)));
    assert_eq!(Source::<i32>::name(), "builtin.Source");
    assert_eq!(Source::<i32>::port_schema().ports()[0].name, "tick");
}

#[test]
fn tee_yields_two_copies() {
    let ctx = MachineContext::new("tee");
    let mut st = Tee::<String>::init(&ctx).expect("init");
    let out = Tee::<String>::process(&mut st, &ctx, "a".to_string());
    assert_eq!(out, SingleOutput::Yield(("a".to_string(), "a".to_string())));
    assert_eq!(Tee::<String>::port_schema().ports()[1].name, "out");
}

#[test]
fn latch_gives_the_previous_value() {
    let ctx = MachineContext::new("latch");
    let mut st = Latch::<i32>::init(&ctx).expect("init");
    assert_eq!(st, None);
    assert_eq!(Latch::<i32>::process(&mut st, &ctx, LatchInput::Input(1)), SingleOutput::Idle);
    assert_eq!(Latch::<i32>::process(&mut st, &ctx, LatchInput::Input(2)), SingleOutput::Yield(LatchOutput::Output(1)));
    assert_eq!(Latch::<i32>::process(&mut st, &ctx, LatchInput::Input(3)), SingleOutput::Yield(LatchOutput::Output(2)));
    assert_eq!(st, Some(3));
}

#[test]
fn collector_gathers_inputs_in_order() {
    let ctx = MachineContext::new("coll");
    let mut st = Collector::<u8>::init(&ctx).expect("init");
    for x in [3u8, 1, 2] {
        assert_eq!(Collector::<u8>::process(&mut st, &ctx, x), SingleOutput::Idle);
    }
    assert_eq!(st, vec![3, 1, 2]);
    let schema = Collector::<u8>::port_schema();
    assert_eq!(schema.ports()[1].name, "snapshots");
    assert_eq!(schema.ports()[1].flow, FlowKind::Observe);
}

#[test]
fn func_machine_calls_the_function() {
    let ctx = MachineContext::new("sq");
    let mut st = FuncMachine::<Square>::init(&ctx).expect("init");
    match FuncMachine::<Square>::process(&mut st, &ctx, FuncMachineInput::Input(7)) {
        SingleOutput::Yield(FuncMachineOutput::Output(v)) => assert_eq!(v, 49),
        _ => panic!("expected an output"),
    }
    assert_eq!(FuncMachine::<Square>::name(), "square");
    assert!(FuncMachine::<Square>::deterministic());
}

#[test]
fn entity_root_is_named_root() {
    assert_eq!(EntityRoot::name(), "root");
}

struct Coin;

impl Func for Coin {
    type Input = u64;
    type Output = u64;
    const NONDETERMINISTIC: bool = true;
    fn call_spec(x: u64) -> u64 {
        x
    }
    fn name_spec() -> &'static str {
        "coin"
    }
    fn name() -> &'static str {
        "coin"
    }
    fn call(x: u64) -> u64 {
        x ^ 1
    }
}

#[test]
fn nondeterministic_func_is_reported_so() {
    assert!(Coin::nondeterministic());
    assert!(!Square::nondeterministic());
    assert!(!FuncMachine::<Coin>::deterministic());
    assert!(FuncMachine::<Square>::deterministic());
}
