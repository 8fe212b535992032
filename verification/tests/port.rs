use flowgraph::port::{Lifecycle, LinkCompat, MachineContext, PortDecl, PortSchema, SystemSignal};
use flowgraph::session::{SessionOp, SessionType};


// ── can_link_to: five-dimension compatibility ─────────────────────────
// Order of checks (short-circuit): dir → type → flow → session → version.

#[test]
fn can_link_to_compatible() {
    let src = PortDecl::output::<i32>("y");
    let dst = PortDecl::input::<i32>("x");
    let compat = src.can_link_to(&dst);
    assert!(matches!(compat, LinkCompat::Compatible));
}

#[test]
fn can_link_to_source_not_output() {
    let src = PortDecl::input::<i32>("a");
    let dst = PortDecl::input::<i32>("b");
    let compat = src.can_link_to(&dst);
    assert!(matches!(
        compat,
        LinkCompat::Incompatible { reason: "source port is not an output" }
    ));
}

#[test]
fn can_link_to_target_not_input() {
    let src = PortDecl::output::<i32>("a");
    let dst = PortDecl::output::<i32>("b");
    let compat = src.can_link_to(&dst);
    assert!(matches!(
        compat,
        LinkCompat::Incompatible { reason: "target port is not an input" }
    ));
}

#[test]
fn can_link_to_type_mismatch() {
    let src = PortDecl::output::<i32>("a");
    let dst = PortDecl::input::<String>("b");
    let compat = src.can_link_to(&dst);
    assert!(matches!(
        compat,
        LinkCompat::Incompatible { reason: "type mismatch" }
    ));
}

#[test]
fn can_link_to_flow_mismatch() {
    // src is Control, dst is Data → flow kind mismatch.
    let src = PortDecl::ctrl_out::<i32>("a");
    let dst = PortDecl::input::<i32>("b");
    let compat = src.can_link_to(&dst);
    assert!(matches!(
        compat,
        LinkCompat::Incompatible { reason: "flow kind mismatch" }
    ));
}

#[test]
fn can_link_to_version_compatible() {
    let src = PortDecl::output::<i32>("a").with_schema_ver(0);
    let dst = PortDecl::input::<i32>("b").with_schema_ver(0);
    let compat = src.can_link_to(&dst);
    assert!(matches!(compat, LinkCompat::Compatible));
}

#[test]
fn can_link_to_version_migrate() {
    let src = PortDecl::output::<i32>("a").with_schema_ver(0);
    let dst = PortDecl::input::<i32>("b").with_schema_ver(1);
    let compat = src.can_link_to(&dst);
    assert!(matches!(
        compat,
        LinkCompat::Migrate { from_ver: 0, to_ver: 1 }
    ));
}

#[test]
fn can_link_to_version_incompatible() {
    let src = PortDecl::output::<i32>("a").with_schema_ver(0);
    let dst = PortDecl::input::<i32>("b").with_schema_ver(2);
    let compat = src.can_link_to(&dst);
    assert!(matches!(
        compat,
        LinkCompat::Incompatible { reason: "schema version drift > 1" }
    ));
}

#[test]
fn can_link_to_version_migrate_reverse() {
    // from_ver/to_ver use min/max so from <= to regardless of direction.
    let src = PortDecl::output::<i32>("a").with_schema_ver(1);
    let dst = PortDecl::input::<i32>("b").with_schema_ver(0);
    let compat = src.can_link_to(&dst);
    assert!(matches!(
        compat,
        LinkCompat::Migrate { from_ver: 0, to_ver: 1 }
    ));
}

#[test]
fn can_link_to_session_both_none() {
    let src = PortDecl::output::<i32>("a");
    let dst = PortDecl::input::<i32>("b");
    let compat = src.can_link_to(&dst);
    assert!(matches!(compat, LinkCompat::Compatible));
}

#[test]
fn can_link_to_session_one_has() {
    let src = PortDecl::output::<i32>("a")
        .with_session(SessionType::single(SessionOp::End));
    let dst = PortDecl::input::<i32>("b");
    let compat = src.can_link_to(&dst);
    assert!(matches!(
        compat,
        LinkCompat::Incompatible {
            reason: "one port has a session protocol, the other does not"
        }
    ));
}

// ── PortSchema ────────────────────────────────────────────────────────

#[test]
fn port_schema_find() {
    let schema = PortSchema::new()
        .with(PortDecl::output::<i32>("y"))
        .with(PortDecl::input::<i32>("x"));
    assert!(schema.find("y").is_some());
    assert!(schema.find("x").is_some());
    assert!(schema.find("z").is_none());
}

#[test]
fn port_schema_primary_indices() {
    // First In+Data port becomes primary_input.
    let schema = PortSchema::new()
        .with(PortDecl::input::<i32>("x"))
        .with(PortDecl::input::<i32>("x2"));
    assert_eq!(schema.primary_input().map(|p| p.name), Some("x"));
}

#[test]
fn port_schema_validate_rejects_duplicate() {
    let schema = PortSchema::new()
        .with(PortDecl::input::<i32>("x"))
        .with(PortDecl::output::<i32>("x"));
    assert!(schema.validate().is_err());
}

#[test]
fn port_schema_inputs_outputs() {
    let schema = PortSchema::new()
        .with(PortDecl::input::<i32>("in1"))
        .with(PortDecl::output::<i32>("out1"))
        .with(PortDecl::ctrl_in::<i32>("ctrl_in"))
        .with(PortDecl::ctrl_out::<i32>("ctrl_out"));
    assert_eq!(schema.inputs().len(), 2);
    assert_eq!(schema.outputs().len(), 2);
}

// ── MachineContext signal semantics ───────────────────────────────────
// poll_signal consumes Checkpoint (flag==2) but NOT Shutdown (flag==1);
// has_shutdown_signal peeks flag==1 without consuming.

#[test]
fn context_poll_signal_none_initially() {
    let mut ctx = MachineContext::new("test");
    assert!(ctx.poll_signal().is_none());
}

#[test]
fn context_poll_signal_checkpoint_consumed() {
    let mut ctx = MachineContext::new("test");
    ctx.send_signal(SystemSignal::Checkpoint);
    assert_eq!(ctx.poll_signal(), Some(SystemSignal::Checkpoint));
    // Already consumed — second poll returns None.
    assert!(ctx.poll_signal().is_none());
}

#[test]
fn context_poll_signal_shutdown_not_consumed() {
    let mut ctx = MachineContext::new("test");
    ctx.send_signal(SystemSignal::Shutdown);
    // Shutdown is not returned by poll_signal (runtime-enforced, not
    // machine-consumed).
    assert!(ctx.poll_signal().is_none());
    // ... and it remains peekable.
    assert!(ctx.has_shutdown_signal());
}

#[test]
fn context_has_shutdown_signal() {
    let mut ctx = MachineContext::new("test");
    assert!(!ctx.has_shutdown_signal());
    ctx.send_signal(SystemSignal::Shutdown);
    assert!(ctx.has_shutdown_signal());
}

#[test]
fn context_send_signal_overwrites() {
    // send_signal is a covering store (not fetch_or): a later Checkpoint
    // overwrites the earlier Shutdown, flipping the flag from 1 to 2.
    let mut ctx = MachineContext::new("test");
    ctx.send_signal(SystemSignal::Shutdown);
    ctx.send_signal(SystemSignal::Checkpoint);
    assert!(!ctx.has_shutdown_signal());
}

#[test]
fn context_lifecycle_roundtrip() {
    let mut ctx = MachineContext::new("test");
    ctx.set_lifecycle(Lifecycle::Running);
    assert_eq!(ctx.lifecycle(), Lifecycle::Running);
    ctx.set_lifecycle(Lifecycle::Stopped);
    assert_eq!(ctx.lifecycle(), Lifecycle::Stopped);
}

// ── Lifecycle ─────────────────────────────────────────────────────────

#[test]
fn lifecycle_next_chain() {
    assert_eq!(Lifecycle::Init.next(), Some(Lifecycle::Running));
    assert_eq!(Lifecycle::Running.next(), Some(Lifecycle::Stopping));
    assert_eq!(Lifecycle::Stopping.next(), Some(Lifecycle::Stopped));
    assert_eq!(Lifecycle::Stopped.next(), None);
}

#[test]
fn lifecycle_is_active() {
    assert!(!Lifecycle::Init.is_active());
    assert!(Lifecycle::Running.is_active());
    assert!(!Lifecycle::Stopping.is_active());
    assert!(!Lifecycle::Stopped.is_active());
}

#[test]
fn lifecycle_is_terminal() {
    assert!(!Lifecycle::Init.is_terminal());
    assert!(!Lifecycle::Running.is_terminal());
    assert!(!Lifecycle::Stopping.is_terminal());
    assert!(Lifecycle::Stopped.is_terminal());
}


// ── Further cases ──

#[test]
fn port_schema_primary_output_and_observe() {
    let schema = PortSchema::new()
        .with(PortDecl::observe::<i32>("stats"))
        .with(PortDecl::output::<i32>("y"));
    assert_eq!(schema.primary_output().map(|p| p.name), Some("y"));
    assert_eq!(schema.observe_port().map(|p| p.name), Some("stats"));
    assert_eq!(schema.observe_ports().len(), 1);
}

#[test]
fn port_schema_validate_accepts_distinct_names() {
    let schema = PortSchema::new()
        .with(PortDecl::input::<i32>("x"))
        .with(PortDecl::output::<i32>("y"));
    assert!(schema.validate().is_ok());
    assert_eq!(schema.len(), 2);
    assert!(!schema.is_empty());
}

#[test]
fn schema_map_reads_back_what_was_written() {
    let mut m = flowgraph::port::SchemaMap::new();
    m.insert("a", PortSchema::new().with(PortDecl::input::<i32>("x")));
    m.insert("b", PortSchema::new());
    m.insert("a", PortSchema::new().with(PortDecl::output::<i32>("y")));
    assert_eq!(m.len(), 2);
    assert!(m.get("a").unwrap().find("y").is_some());
    assert!(m.get("a").unwrap().find("x").is_none());
    assert!(m.get("c").is_none());
}
