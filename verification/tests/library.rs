use flowgraph::blueprint::{accept_parsed, link, machine, BlueprintError};
use flowgraph::config::{ConfigCell, ConfigError};
use flowgraph::deploy::DynamicTopology;
use flowgraph::entity::EntityRestoreError;
use flowgraph::func::CostEstimate;
use flowgraph::hybrid::{apply_jump, HybridState, Jump};
use flowgraph::link::LinkKind;
use flowgraph::machine::{
    CleanupError, Init, InitError, Machine, MachineHandle, MachineOutput, MultiOutput, ProcessOutput, SingleOutput, TupleOutput,
};
use flowgraph::port::{ConfigSchema, Lifecycle, MachineContext, MachineContextView, PortDecl, PortSchema};
use flowgraph::resource::MachinePhysicalSpec;
use flowgraph::validate::ValidationError;

#[test]
fn config_cell_versions_count_updates() {
    let mut c = ConfigCell::new(5i32);
    assert_eq!(c.version(), 0);
    assert_eq!(c.check(0), (None, 0));
    c.update(7);
    assert_eq!(c.version(), 1);
    assert_eq!(c.check(0), (Some(7), 1));
    assert_eq!(c.check(1), (None, 1));
    assert_eq!(c.get(), (7, 1));
}

#[test]
fn config_error_texts() {
    assert_eq!(ConfigError::KeyNotFound("k").message(), "config key not found: k");
    assert_eq!(
        ConfigError::TypeMismatch { key: "k", expected: "u32" }.message(),
        "config type mismatch for 'k': expected u32"
    );
    assert_eq!(
        ConfigError::InvalidValue { key: "k", reason: "too big".into() }.message(),
        "invalid config value for 'k': too big"
    );
}

#[test]
fn process_output_collects_values_in_order() {
    assert_eq!(ProcessOutput::Yield(3).into_outputs(), (vec![3], false));
    assert_eq!(ProcessOutput::YieldMulti(vec![1, 2]).into_outputs(), (vec![1, 2], false));
    assert_eq!(ProcessOutput::<i32>::Idle.into_outputs(), (vec![], false));
    assert_eq!(ProcessOutput::<i32>::Done.into_outputs(), (vec![], true));
}

#[test]
fn step_outputs_convert_to_process_outputs() {
    assert_eq!(SingleOutput::Yield(1).into_process_output(), ProcessOutput::Yield(1));
    assert_eq!(SingleOutput::<i32>::Done.into_outputs(), (vec![], true));
    assert_eq!(MultiOutput::YieldMulti(vec![4, 5]).into_outputs(), (vec![4, 5], false));
    assert_eq!(TupleOutput::Yield(1, 2).into_process_output(), ProcessOutput::YieldMulti(vec![1, 2]));
    assert_eq!(TupleOutput::<i32>::Idle.into_outputs(), (vec![], false));
}

#[test]
fn lifecycle_error_texts() {
    assert_eq!(InitError::ConfigurationInvalid("x".into()).message(), "config: x");
    assert_eq!(InitError::Other("plain".into()).message(), "plain");
    assert_eq!(CleanupError::Timeout.message(), "timeout");
    assert_eq!(CleanupError::ResourceReleaseFailed("fd".into()).message(), "resource release: fd");
}

#[test]
fn restore_error_texts() {
    assert_eq!(EntityRestoreError::NotSupported.message(), "checkpoint/restore not supported");
    assert_eq!(
        EntityRestoreError::VersionMismatch { expected: 2, actual: 7 }.message(),
        "version mismatch: expected 2, got 7"
    );
    assert_eq!(EntityRestoreError::DeserializationFailed("eof".into()).message(), "deserialization failed: eof");
}

#[test]
fn cost_estimate_unknown() {
    assert!(CostEstimate::Unknown.is_unknown());
    assert!(!CostEstimate::Cheap.is_unknown());
}

#[test]
fn hybrid_jumps_change_the_discrete_part() {
    let mut s = HybridState::new(1.5f64, 0u8);
    assert!(apply_jump(&mut s, Jump::Transition(3)));
    assert_eq!(*s.discrete(), 3);
    assert!(!apply_jump(&mut s, Jump::Emit("hello".into())));
    assert_eq!(*s.discrete(), 3);
    assert!(apply_jump(&mut s, Jump::Reset { new_discrete: 9 }));
    assert_eq!(*s.discrete(), 9);
    assert_eq!(*s.continuous(), 1.5);
}

#[test]
fn blueprint_accepts_valid_and_refuses_invalid_specs() {
    let spec = DynamicTopology::new()
        .with_machine(machine("a", "A", MachinePhysicalSpec::default()))
        .with_machine(machine("b", "B", MachinePhysicalSpec::default()))
        .with_link(link(("a", "out"), ("b", "in"), LinkKind::Inline));
    assert!(accept_parsed(spec).is_ok());
    let bad = DynamicTopology::new()
        .with_machine(machine("a", "A", MachinePhysicalSpec::default()))
        .with_link(link(("a", "out"), ("a", "in"), LinkKind::Inline));
    match accept_parsed(bad) {
        Err(BlueprintError::Validate(ValidationError::SelfLoop(n))) => assert_eq!(n, "a"),
        other => panic!("expected a self-loop, got {other:?}"),
    }
}

#[test]
fn blueprint_error_texts() {
    let e = BlueprintError::Parse { message: "expected value".into(), line: 3, column: 14 };
    assert_eq!(e.message(), "blueprint parse error at 3:14: expected value");
    let e = BlueprintError::Invalid { message: "missing field".into(), path: "machines[0]".into() };
    assert_eq!(e.message(), "blueprint invalid at machines[0]: missing field");
    let e = BlueprintError::Validate(ValidationError::DuplicateName("a".into()));
    assert_eq!(e.message(), "blueprint violates invariants: duplicate name: a");
}

/// A machine that keeps a running total and reports it.
struct Totaliser;

impl Machine for Totaliser {
    type State = i64;
    type Input = i64;
    type Output = i64;
    type ProcessOutput = SingleOutput<i64>;
    fn name_spec() -> &'static str {
        "totaliser"
    }
    fn inits(_: MachineContextView, r: Result<i64, InitError>) -> bool {
        matches!(r, Ok(0))
    }
    fn processes(state: i64, _: MachineContextView, input: i64, next: i64, out: SingleOutput<i64>) -> bool {
        next == state + input && matches!(out, SingleOutput::Yield(v) if v == next)
    }
    fn cleans(_: i64, _: MachineContextView, r: Result<(), CleanupError>) -> bool {
        r.is_ok()
    }
    fn name() -> &'static str {
        "totaliser"
    }
    fn port_schema() -> PortSchema {
        PortSchema::new().with(PortDecl::input::<i64>("in")).with(PortDecl::output::<i64>("total"))
    }
    fn config_schema() -> ConfigSchema {
        ConfigSchema::new()
    }
    fn init(_: &MachineContext) -> Result<i64, InitError> {
        Ok(0)
    }
    fn process(state: &mut i64, _: &MachineContext, input: i64) -> SingleOutput<i64> {
        *state += input;
        SingleOutput::Yield(*state)
    }
    fn cleanup(_: i64, _: &MachineContext) -> Result<(), CleanupError> {
        Ok(())
    }
}

#[test]
fn machine_handle_walks_the_lifecycle() {
    let handle = MachineHandle::<Totaliser, Init>::new(MachineContext::new("acc")).expect("init");
    assert_eq!(handle.context().lifecycle(), Lifecycle::Init);
    assert_eq!(handle.context().name(), "acc");
    let mut running = handle.start();
    assert_eq!(running.context().lifecycle(), Lifecycle::Running);
    assert_eq!(running.process(3), SingleOutput::Yield(3));
    assert_eq!(running.process(4), SingleOutput::Yield(7));
    let mut stopping = running.stop();
    assert_eq!(stopping.context().lifecycle(), Lifecycle::Stopping);
    assert_eq!(stopping.process(1), SingleOutput::Yield(8));
    let stopped = stopping.finish();
    assert_eq!(stopped.context().lifecycle(), Lifecycle::Stopped);
    assert_eq!(*stopped.state(), 8);
    assert!(stopped.cleanup().is_ok());
}

#[test]
fn machine_defaults() {
    let ctx = MachineContext::new("acc");
    assert!(Totaliser::is_ready(&ctx));
    assert!(!Totaliser::deterministic());
    assert!(Totaliser::checkpoint(&5).is_none());
    let mut s = 5i64;
    assert!(matches!(Totaliser::restore(&mut s, &[1, 2]), Err(EntityRestoreError::NotSupported)));
    assert_eq!(s, 5);
    let p = Totaliser::physical_spec();
    assert_eq!(p.state_heap_bytes, 4096);
}

#[test]
fn config_cell_version_counts_several_updates() {
    let mut c = ConfigCell::new(1i32);
    c.update(2);
    c.update(3);
    c.update(4);
    assert_eq!(c.version(), 3);
    assert_eq!(c.check(3), (None, 3));
    assert_eq!(c.check(0), (Some(4), 3));
    assert_eq!(c.get(), (4, 3));
}
