use flowgraph::deploy::{CycleRule, DeploySettings, DynamicTopology, FuncBinding, MachineInstance, Patch};
use flowgraph::flow::{CarrierCompatResult, FlowKind};
use flowgraph::link::{LinkKind, LinkSpec, MemoryRegion, ReadPolicy, WritePolicy};
use flowgraph::port::{PortDecl, PortDir, PortSchema, SchemaMap};
use flowgraph::resource::{ExecutionHint, MachinePhysicalSpec};
use flowgraph::validate::{carrier_compatible, RuleViolation, ValidationError};


// ── Helpers ───────────────────────────────────────────────────────

/// Default-physical machine (Async execution — does not count toward the
/// CPU thread budget).
fn machine(name: &'static str) -> MachineInstance {
    MachineInstance::new(name, "test", MachinePhysicalSpec::default())
}

/// Default-physical machine declared Moore.
fn machine_moore(name: &'static str) -> MachineInstance {
    machine(name).moore()
}

/// Machine that occupies 1 dedicated CPU thread (`CpuBound`).
fn machine_cpu(name: &'static str) -> MachineInstance {
    let mut physical = MachinePhysicalSpec::default();
    physical.execution = ExecutionHint::CpuBound;
    MachineInstance::new(name, "test", physical)
}

/// BoundedBuf link between two `(machine, port)` endpoints.
fn bounded(
    a: &'static str, pa: &'static str,
    b: &'static str, pb: &'static str,
) -> LinkSpec {
    LinkSpec::new(
        (a, pa),
        (b, pb),
        LinkKind::BoundedBuf {
            capacity: 16,
            write_policy: WritePolicy::Blocking,
            read_policy: ReadPolicy::Blocking,
        },
    )
}

/// Inline link between two `(machine, port)` endpoints.
fn inline(
    a: &'static str, pa: &'static str,
    b: &'static str, pb: &'static str,
) -> LinkSpec {
    LinkSpec::new((a, pa), (b, pb), LinkKind::Inline)
}

/// Schema with an i32 Data output `"out"` and an i32 Data input `"in"`
/// (both `schema_ver = 0`).
fn schema_io_i32() -> PortSchema {
    PortSchema::new()
        .with(PortDecl::output::<i32>("out"))
        .with(PortDecl::input::<i32>("in"))
}

// ══════════════════════════════════════════════════════════════════
// apply_patch() — incremental patch (idempotent)
// ══════════════════════════════════════════════════════════════════

#[test]
fn apply_patch_upsert_machine() {
    let mut spec = DynamicTopology::new().with_machine(machine("a"));
    // Upsert an existing machine: replace it entirely.
    let updated = MachineInstance::new("a", "new_type", MachinePhysicalSpec::default());
    spec.apply_patch(&Patch::UpsertMachine(updated));
    assert_eq!(spec.machines.len(), 1);
    assert_eq!(spec.machines[0].machine_type.as_str(), "new_type");
    // Upsert a new machine: add it.
    spec.apply_patch(&Patch::UpsertMachine(machine("b")));
    assert_eq!(spec.machines.len(), 2);
}

#[test]
fn apply_patch_remove_machine_cascades_links() {
    let mut spec = DynamicTopology::new()
        .with_machine(machine("a"))
        .with_machine(machine("b"))
        .with_link(inline("a", "out", "b", "in"));
    spec.apply_patch(&Patch::RemoveMachine("a".into()));
    assert_eq!(spec.machines.len(), 1);
    assert!(spec.links.is_empty(), "removing a machine cascades its links");
    // Idempotent: removing again is still a no-op.
    spec.apply_patch(&Patch::RemoveMachine("a".into()));
    assert_eq!(spec.machines.len(), 1);
}

#[test]
fn apply_patch_upsert_link_replaces_kind() {
    let mut spec = DynamicTopology::new()
        .with_machine(machine("a"))
        .with_machine(machine("b"))
        .with_link(inline("a", "out", "b", "in"));
    // Upsert with the same endpoints: replace the kind.
    let channel = LinkSpec::new(
        ("a", "out"),
        ("b", "in"),
        LinkKind::Channel {
            capacity: 8,
            drop_when_full: true,
        },
    );
    spec.apply_patch(&Patch::UpsertLink(channel));
    assert_eq!(spec.links.len(), 1);
    assert!(matches!(spec.links[0].kind, LinkKind::Channel { .. }));
}

#[test]
fn apply_patch_remove_link_idempotent() {
    let mut spec = DynamicTopology::new()
        .with_machine(machine("a"))
        .with_machine(machine("b"))
        .with_link(inline("a", "out", "b", "in"));
    let out = ("a".into(), "out".into());
    let into = ("b".into(), "in".into());
    spec.apply_patch(&Patch::RemoveLink {
        out: out.clone(),
        into: into.clone(),
    });
    assert!(spec.links.is_empty());
    // Idempotent: removing again is still a no-op.
    spec.apply_patch(&Patch::RemoveLink { out, into });
    assert!(spec.links.is_empty());
}

#[test]
fn apply_patches_sequence() {
    // Apply multiple patches at once: rebuild a topology from an empty blueprint.
    let mut spec = DynamicTopology::new();
    spec.apply_patches(&[
        Patch::UpsertMachine(machine("a")),
        Patch::UpsertMachine(machine("b")),
        Patch::UpsertLink(inline("a", "out", "b", "in")),
    ]);
    assert_eq!(spec.machines.len(), 2);
    assert_eq!(spec.links.len(), 1);
    assert!(spec.validate().is_ok());
}

// ══════════════════════════════════════════════════════════════════
// validate() — structural checks
// ══════════════════════════════════════════════════════════════════

#[test]
fn validate_ok_single_machine() {
    let spec = DynamicTopology::new().with_machine(machine("a"));
    assert!(spec.validate().is_ok(), "single machine should validate");
}

#[test]
fn validate_ok_two_machines_linked() {
    let spec = DynamicTopology::new()
        .with_machine(machine("a"))
        .with_machine(machine("b"))
        .with_link(bounded("a", "out", "b", "in"));
    assert!(spec.validate().is_ok(), "two linked machines should validate");
}

#[test]
fn validate_rejects_duplicate_machine_name() {
    let spec = DynamicTopology::new()
        .with_machine(machine("a"))
        .with_machine(machine("a"));
    let err = spec.validate().unwrap_err();
    assert!(matches!(err, ValidationError::DuplicateName(ref n) if n == "a"));
}

#[test]
fn validate_rejects_duplicate_func_name() {
    let spec = DynamicTopology::new()
        .with_func(FuncBinding::new("f", "ftype"))
        .with_func(FuncBinding::new("f", "ftype"));
    let err = spec.validate().unwrap_err();
    assert!(matches!(err, ValidationError::DuplicateName(ref n) if n == "f"));
}

#[test]
fn validate_rejects_machine_and_func_sharing_a_name() {
    let spec = DynamicTopology::new()
        .with_machine(machine("a"))
        .with_func(FuncBinding::new("a", "ftype"));
    let err = spec.validate().unwrap_err();
    assert!(matches!(err, ValidationError::DuplicateName(ref n) if n == "a"));
    let report = spec.validate_report(&SchemaMap::new());
    let ids: Vec<&str> = report.violations.iter().map(|v| v.rule_id).collect();
    assert!(ids.contains(&"name-unique"), "{ids:?}");
}

#[test]
fn validate_report_flags_implicit_fan_out() {
    let spec = DynamicTopology::new()
        .with_machine(machine("a"))
        .with_machine(machine("b"))
        .with_machine(machine("c"))
        .with_link(bounded("a", "out", "b", "in"))
        .with_link(bounded("a", "out", "c", "in"));
    let schemas = SchemaMap::new();
    assert!(matches!(
        spec.validate_deep(&schemas),
        Err(ValidationError::FanOutViaTee { ref src_machine, ref src_port }) if src_machine == "a" && src_port == "out"
    ));
    let report = spec.validate_report(&schemas);
    assert!(!report.is_ok());
    let ids: Vec<&str> = report.violations.iter().map(|v| v.rule_id).collect();
    assert!(ids.contains(&"link-fan-out"), "{ids:?}");
}

#[test]
fn validate_rejects_self_loop() {
    let spec = DynamicTopology::new()
        .with_machine(machine("a"))
        .with_link(bounded("a", "out", "a", "in"));
    let err = spec.validate().unwrap_err();
    assert!(matches!(err, ValidationError::SelfLoop(ref n) if n == "a"));
}

#[test]
fn validate_rejects_unknown_machine_in_link_src() {
    // "a" (src) does not exist; only "b" is declared.
    let spec = DynamicTopology::new()
        .with_machine(machine("b"))
        .with_link(bounded("a", "out", "b", "in"));
    let err = spec.validate().unwrap_err();
    assert!(matches!(err, ValidationError::UnknownMachine(ref n) if n == "a"));
}

#[test]
fn validate_rejects_unknown_machine_in_link_dst() {
    // "b" (dst) does not exist; only "a" is declared.
    let spec = DynamicTopology::new()
        .with_machine(machine("a"))
        .with_link(bounded("a", "out", "b", "in"));
    let err = spec.validate().unwrap_err();
    assert!(matches!(err, ValidationError::UnknownMachine(ref n) if n == "b"));
}

// ══════════════════════════════════════════════════════════════════
// validate_deep() — port / type / flow / version compatibility
// ══════════════════════════════════════════════════════════════════

#[test]
fn validate_deep_ok_compatible_types() {
    let spec = DynamicTopology::new()
        .with_machine(machine("a"))
        .with_machine(machine("b"))
        .with_link(bounded("a", "out", "b", "in"));
    let mut schemas = SchemaMap::new();
    schemas.insert("a", schema_io_i32());
    schemas.insert("b", schema_io_i32());
    let result = spec.validate_deep(&schemas);
    assert!(result.is_ok(), "i32 Out → i32 In should be compatible, got: {:?}", result.err());
}

#[test]
fn validate_deep_rejects_source_not_output() {
    let spec = DynamicTopology::new()
        .with_machine(machine("a"))
        .with_machine(machine("b"))
        .with_link(bounded("a", "x", "b", "in"));
    let mut schemas = SchemaMap::new();
    // a's port "x" is an INPUT, not an output.
    schemas.insert("a", PortSchema::new().with(PortDecl::input::<i32>("x")));
    schemas.insert("b", schema_io_i32());
    let err = spec.validate_deep(&schemas).unwrap_err();
    match err {
        ValidationError::LinkTypeMismatch { reason, .. } => {
            assert_eq!(reason, "source port is not an output");
        }
        other => panic!("expected LinkTypeMismatch, got: {:?}", other),
    }
}

#[test]
fn validate_deep_rejects_target_not_input() {
    let spec = DynamicTopology::new()
        .with_machine(machine("a"))
        .with_machine(machine("b"))
        .with_link(bounded("a", "out", "b", "y"));
    let mut schemas = SchemaMap::new();
    schemas.insert("a", schema_io_i32());
    // b's port "y" is an OUTPUT, not an input.
    schemas.insert("b", PortSchema::new().with(PortDecl::output::<i32>("y")));
    let err = spec.validate_deep(&schemas).unwrap_err();
    match err {
        ValidationError::LinkTypeMismatch { reason, .. } => {
            assert_eq!(reason, "target port is not an input");
        }
        other => panic!("expected LinkTypeMismatch, got: {:?}", other),
    }
}

#[test]
fn validate_deep_rejects_type_mismatch() {
    let spec = DynamicTopology::new()
        .with_machine(machine("a"))
        .with_machine(machine("b"))
        .with_link(bounded("a", "out", "b", "in"));
    let mut schemas = SchemaMap::new();
    schemas.insert("a", PortSchema::new().with(PortDecl::output::<i32>("out")));
    schemas.insert("b", PortSchema::new().with(PortDecl::input::<String>("in")));
    let err = spec.validate_deep(&schemas).unwrap_err();
    match err {
        ValidationError::LinkTypeMismatch { reason, .. } => {
            assert_eq!(reason, "type mismatch");
        }
        other => panic!("expected LinkTypeMismatch, got: {:?}", other),
    }
}

#[test]
fn validate_deep_rejects_flow_mismatch() {
    let spec = DynamicTopology::new()
        .with_machine(machine("a"))
        .with_machine(machine("b"))
        .with_link(bounded("a", "out", "b", "in"));
    let mut schemas = SchemaMap::new();
    // a's "out" is Control Out, b's "in" is Data In — flow mismatch.
    schemas.insert("a", PortSchema::new().with(PortDecl::ctrl_out::<i32>("out")));
    schemas.insert("b", PortSchema::new().with(PortDecl::input::<i32>("in")));
    let err = spec.validate_deep(&schemas).unwrap_err();
    match err {
        ValidationError::LinkTypeMismatch { reason, .. } => {
            assert_eq!(reason, "flow kind mismatch");
        }
        other => panic!("expected LinkTypeMismatch, got: {:?}", other),
    }
}

#[test]
fn validate_deep_accepts_version_drift_1() {
    // schema_ver 0 → 1: can_link_to returns Migrate, which validate_deep accepts.
    let spec = DynamicTopology::new()
        .with_machine(machine("a"))
        .with_machine(machine("b"))
        .with_link(bounded("a", "out", "b", "in"));
    let mut schemas = SchemaMap::new();
    schemas.insert(
        "a",
        PortSchema::new().with(PortDecl::output::<i32>("out").with_schema_ver(0)),
    );
    schemas.insert(
        "b",
        PortSchema::new().with(PortDecl::input::<i32>("in").with_schema_ver(1)),
    );
    let result = spec.validate_deep(&schemas);
    assert!(result.is_ok(), "schema_ver drift of 1 should be accepted as Migrate, got: {:?}", result.err());
}

#[test]
fn validate_deep_rejects_version_drift_2() {
    // schema_ver 0 → 2: can_link_to returns Incompatible ("schema version drift > 1").
    let spec = DynamicTopology::new()
        .with_machine(machine("a"))
        .with_machine(machine("b"))
        .with_link(bounded("a", "out", "b", "in"));
    let mut schemas = SchemaMap::new();
    schemas.insert(
        "a",
        PortSchema::new().with(PortDecl::output::<i32>("out").with_schema_ver(0)),
    );
    schemas.insert(
        "b",
        PortSchema::new().with(PortDecl::input::<i32>("in").with_schema_ver(2)),
    );
    let err = spec.validate_deep(&schemas).unwrap_err();
    match err {
        ValidationError::LinkTypeMismatch { reason, .. } => {
            assert_eq!(reason, "schema version drift > 1");
        }
        other => panic!("expected LinkTypeMismatch, got: {:?}", other),
    }
}

// ══════════════════════════════════════════════════════════════════
// validate_deep() — resource budget
// ══════════════════════════════════════════════════════════════════

#[test]
fn validate_deep_rejects_resource_budget_exceeded() {
    // 3 CpuBound machines (3 dedicated threads) vs cpu_threads = 2.
    let mut spec = DynamicTopology::new()
        .with_machine(machine_cpu("a"))
        .with_machine(machine_cpu("b"))
        .with_machine(machine_cpu("c"));
    spec.settings = DeploySettings { cpu_threads: 2, io_threads: 2 };
    let schemas = SchemaMap::new(); // no links → schemas unused
    let err = spec.validate_deep(&schemas).unwrap_err();
    match err {
        ValidationError::ResourceBudgetExceeded {
            requested_threads,
            available_threads,
        } => {
            assert_eq!(requested_threads, 3);
            assert_eq!(available_threads, 2);
        }
        other => panic!("expected ResourceBudgetExceeded, got: {:?}", other),
    }
}

#[test]
fn validate_deep_ok_resource_budget_within_limit() {
    // 2 CpuBound machines (2 dedicated threads) vs cpu_threads = 2 — within limit.
    let mut spec = DynamicTopology::new()
        .with_machine(machine_cpu("a"))
        .with_machine(machine_cpu("b"));
    spec.settings = DeploySettings { cpu_threads: 2, io_threads: 2 };
    let schemas = SchemaMap::new();
    let result = spec.validate_deep(&schemas);
    assert!(result.is_ok(), "2 CpuBound with cpu_threads=2 should be within budget, got: {:?}", result.err());
}

// ══════════════════════════════════════════════════════════════════
// validate_deep() — cycle safety (Moore analysis)
// ══════════════════════════════════════════════════════════════════

#[test]
fn validate_deep_rejects_unsafe_non_moore_cycle() {
    // a → b → a via BoundedBuf, neither machine Moore → algebraic loop.
    let spec = DynamicTopology::new()
        .with_machine(machine("a"))
        .with_machine(machine("b"))
        .with_link(bounded("a", "out", "b", "in"))
        .with_link(bounded("b", "out", "a", "in"));
    let mut schemas = SchemaMap::new();
    schemas.insert("a", schema_io_i32());
    schemas.insert("b", schema_io_i32());
    let err = spec.validate_deep(&schemas).unwrap_err();
    match err {
        ValidationError::UnsafeCycle { cycle } => {
            assert!(cycle.contains(&"a".to_string()), "cycle should mention a: {:?}", cycle);
            assert!(cycle.contains(&"b".to_string()), "cycle should mention b: {:?}", cycle);
        }
        other => panic!("expected UnsafeCycle, got: {:?}", other),
    }
}

#[test]
fn validate_deep_ok_moore_breaks_cycle() {
    // a → b → a via BoundedBuf, a is Moore → cycle is algebraically safe.
    let spec = DynamicTopology::new()
        .with_machine(machine_moore("a"))
        .with_machine(machine("b"))
        .with_link(bounded("a", "out", "b", "in"))
        .with_link(bounded("b", "out", "a", "in"));
    let mut schemas = SchemaMap::new();
    schemas.insert("a", schema_io_i32());
    schemas.insert("b", schema_io_i32());
    let result = spec.validate_deep(&schemas);
    assert!(result.is_ok(), "Moore machine on the cycle should make it safe, got: {:?}", result.err());
}

// ══════════════════════════════════════════════════════════════════
// validate_deep() — Inline acyclicity
// ══════════════════════════════════════════════════════════════════

#[test]
fn validate_deep_rejects_inline_cycle() {
    // a → b → a via Inline links. a is Moore so the non-Moore cycle check
    // (step 4) does not fire; the Inline-cycle check (step 6) catches the
    // synchronous-call deadlock.
    let spec = DynamicTopology::new()
        .with_machine(machine_moore("a"))
        .with_machine(machine("b"))
        .with_link(inline("a", "out", "b", "in"))
        .with_link(inline("b", "out", "a", "in"));
    let mut schemas = SchemaMap::new();
    schemas.insert("a", schema_io_i32());
    schemas.insert("b", schema_io_i32());
    let err = spec.validate_deep(&schemas).unwrap_err();
    match err {
        ValidationError::InlineCycle { cycle } => {
            assert!(cycle.contains(&"a".to_string()), "cycle should mention a: {:?}", cycle);
            assert!(cycle.contains(&"b".to_string()), "cycle should mention b: {:?}", cycle);
        }
        other => panic!("expected InlineCycle, got: {:?}", other),
    }
}

// ══════════════════════════════════════════════════════════════════
// validate_deep() — degree constraints
// ══════════════════════════════════════════════════════════════════

#[test]
fn validate_deep_rejects_degree_violation_inline_fanout() {
    // Two Inline links from a::out → outdeg 2, limit 1.
    // The structural layer now intercepts **early**: FanOutViaTee
    // (fan-out must be an explicit Tee).
    let spec = DynamicTopology::new()
        .with_machine(machine("a"))
        .with_machine(machine("b"))
        .with_machine(machine("c"))
        .with_link(inline("a", "out", "b", "in"))
        .with_link(inline("a", "out", "c", "in"));
    let mut schemas = SchemaMap::new();
    schemas.insert("a", PortSchema::new().with(PortDecl::output::<i32>("out")));
    schemas.insert("b", PortSchema::new().with(PortDecl::input::<i32>("in")));
    schemas.insert("c", PortSchema::new().with(PortDecl::input::<i32>("in")));
    let err = spec.validate_deep(&schemas).unwrap_err();
    // The validation error message guides the user toward a Tee
    assert!(
        err.message().contains("fan-out must be explicit"),
        "error should guide the user to an explicit Tee: {err:?}"
    );
    match err {
        ValidationError::FanOutViaTee { src_machine, src_port } => {
            assert_eq!(src_machine, "a");
            assert_eq!(src_port, "out");
        }
        other => panic!(
            "expected FanOutViaTee (fan-out must be explicit), got: {:?}",
            other
        ),
    }
}

// ══════════════════════════════════════════════════════════════════
// validate_report() — structured, collect-all violations
// ══════════════════════════════════════════════════════════════════

#[test]
fn validate_report_collects_all_violations() {
    // Three links with distinct problems: unknown machine, unknown port,
    // wrong direction (target is an Out port).
    let spec = DynamicTopology::new()
        .with_machine(machine("a"))
        .with_machine(machine("b"))
        .with_link(LinkSpec::new(("ghost", "out"), ("b", "in"), LinkKind::Inline))
        .with_link(LinkSpec::new(("a", "nope"), ("b", "in"), LinkKind::Inline))
        .with_link(LinkSpec::new(("a", "out"), ("b", "out"), LinkKind::Inline));
    let mut schemas = SchemaMap::new();
    schemas.insert("a", schema_io_i32());
    schemas.insert("b", schema_io_i32());
    let report = spec.validate_report(&schemas);
    assert!(!report.is_ok());
    let ids: Vec<&str> = report.violations.iter().map(|v| v.rule_id).collect();
    assert!(
        ids.contains(&"link-resolve-machine"),
        "unknown machine expected: {ids:?}"
    );
    assert!(
        ids.contains(&"link-resolve-port"),
        "unknown port expected: {ids:?}"
    );
    assert!(
        ids.contains(&"link-direction"),
        "direction violation expected: {ids:?}"
    );
    // fail-fast validate_deep stops at the first error; the report sees all.
    assert!(ids.len() >= 3, "expected ≥3 violations, got {ids:?}");
}

#[test]
fn validate_report_ok_on_clean_spec() {
    let spec = DynamicTopology::new()
        .with_machine(machine("a"))
        .with_machine(machine("b"))
        .with_link(LinkSpec::new(("a", "out"), ("b", "in"), LinkKind::Inline));
    let mut schemas = SchemaMap::new();
    schemas.insert("a", schema_io_i32());
    schemas.insert("b", schema_io_i32());
    let report = spec.validate_report(&schemas);
    assert!(report.is_ok(), "{:?}", report.violations);
}

#[test]
fn validate_report_rule_violation_display() {
    let v = RuleViolation::new(
        "link-type",
        "links[0]",
        "source port can link to target port",
        "i32 vs String",
    );
    let s = v.message();
    assert!(s.contains("[link-type]"), "{s}");
    assert!(s.contains("links[0]"), "{s}");
}

// ══════════════════════════════════════════════════════════════════
// S3-1 — FlowKind × LinkKind materialization compatibility matrix
// ══════════════════════════════════════════════════════════════════

/// Schema: source has an Observe output `obs` + Data output `out`;
/// target has an Observe input `obs_in` + Data input `in`.
fn schema_observe_pair() -> (PortSchema, PortSchema) {
    let src = PortSchema::new()
        .with(PortDecl::observe::<i32>("obs"))
        .with(PortDecl::output::<i32>("out"))
        .with(PortDecl::ctrl_out::<i32>("ctrl"));
    let dst = PortSchema::new()
        .with(PortDecl::new::<i32>("obs_in", PortDir::In, FlowKind::Observe))
        .with(PortDecl::input::<i32>("in"))
        .with(PortDecl::ctrl_in::<i32>("ctrl_in"));
    (src, dst)
}

#[test]
fn carrier_compatible_matrix_observe() {
    // Observe ("must not back-pressure the source"):
    // blocking carriers violate; dropping/latest/casfree/shared never do.
    assert_eq!(
        carrier_compatible(
            FlowKind::Observe,
            &LinkKind::BoundedBuf {
                capacity: 4,
                write_policy: WritePolicy::Blocking,
                read_policy: ReadPolicy::Blocking,
            },
        ),
        CarrierCompatResult::Violates,
    );
    assert_eq!(
        carrier_compatible(
            FlowKind::Observe,
            &LinkKind::Channel {
                capacity: 4,
                drop_when_full: false,
            },
        ),
        CarrierCompatResult::Violates,
    );
    assert_eq!(
        carrier_compatible(
            FlowKind::Observe,
            &LinkKind::BoundedBuf {
                capacity: 4,
                write_policy: WritePolicy::Dropping,
                read_policy: ReadPolicy::NonBlocking,
            },
        ),
        CarrierCompatResult::Recommended,
    );
    assert_eq!(
        carrier_compatible(FlowKind::Observe, &LinkKind::Latest { capacity: 1 }),
        CarrierCompatResult::Recommended,
    );
    // Inline couples observer latency to the source — suboptimal, not a violation.
    assert_eq!(
        carrier_compatible(FlowKind::Observe, &LinkKind::Inline),
        CarrierCompatResult::Permitted,
    );
}

#[test]
fn carrier_compatible_matrix_control_and_data() {
    // Control ("droppable, latest wins"): droppable carriers recommended;
    // lossless carriers are permitted (more conservative, never wrong).
    assert_eq!(
        carrier_compatible(
            FlowKind::Control,
            &LinkKind::BoundedBuf {
                capacity: 4,
                write_policy: WritePolicy::Overwriting,
                read_policy: ReadPolicy::NonBlocking,
            },
        ),
        CarrierCompatResult::Recommended,
    );
    assert_eq!(
        carrier_compatible(
            FlowKind::Control,
            &LinkKind::BoundedBuf {
                capacity: 4,
                write_policy: WritePolicy::Blocking,
                read_policy: ReadPolicy::Blocking,
            },
        ),
        CarrierCompatResult::Permitted,
    );
    // Data (default / un-annotated): every carrier is fine.
    assert_eq!(
        carrier_compatible(
            FlowKind::Data,
            &LinkKind::BoundedBuf {
                capacity: 4,
                write_policy: WritePolicy::Blocking,
                read_policy: ReadPolicy::Blocking,
            },
        ),
        CarrierCompatResult::Recommended,
    );
}

#[test]
fn validate_deep_rejects_observe_on_blocking_carrier() {
    // An Observe edge on a blocking carrier back-pressures its source —
    // contradicts "must not back-pressure the source".
    let spec = DynamicTopology::new()
        .with_machine(machine("a"))
        .with_machine(machine("b"))
        .with_link(LinkSpec::new(
            ("a", "obs"),
            ("b", "obs_in"),
            LinkKind::BoundedBuf {
                capacity: 4,
                write_policy: WritePolicy::Blocking,
                read_policy: ReadPolicy::Blocking,
            },
        ));
    let (sa, sb) = schema_observe_pair();
    let mut schemas = SchemaMap::new();
    schemas.insert("a", sa);
    schemas.insert("b", sb);
    match spec.validate_deep(&schemas) {
        Err(ValidationError::CarrierViolatesSemantics { out, into, flow, carrier, .. }) => {
            assert_eq!(out, ("a".to_string(), "obs".to_string()));
            assert_eq!(into, ("b".to_string(), "obs_in".to_string()));
            assert_eq!(flow, "observe");
            assert_eq!(carrier, "BoundedBuf");
        }
        other => panic!("expected CarrierViolatesSemantics, got: {other:?}"),
    }
}

#[test]
fn validate_deep_ok_observe_on_nonblocking_carrier() {
    let spec = DynamicTopology::new()
        .with_machine(machine("a"))
        .with_machine(machine("b"))
        .with_link(LinkSpec::new(
            ("a", "obs"),
            ("b", "obs_in"),
            LinkKind::Latest { capacity: 1 },
        ));
    let (sa, sb) = schema_observe_pair();
    let mut schemas = SchemaMap::new();
    schemas.insert("a", sa);
    schemas.insert("b", sb);
    assert!(spec.validate_deep(&schemas).is_ok());
}

#[test]
fn validate_deep_ok_control_on_blocking_carrier() {
    // Control on a lossless blocking carrier: permitted (not a violation).
    let spec = DynamicTopology::new()
        .with_machine(machine("a"))
        .with_machine(machine("b"))
        .with_link(LinkSpec::new(
            ("a", "ctrl"),
            ("b", "ctrl_in"),
            LinkKind::BoundedBuf {
                capacity: 4,
                write_policy: WritePolicy::Blocking,
                read_policy: ReadPolicy::Blocking,
            },
        ));
    let (sa, sb) = schema_observe_pair();
    let mut schemas = SchemaMap::new();
    schemas.insert("a", sa);
    schemas.insert("b", sb);
    assert!(spec.validate_deep(&schemas).is_ok());
}

#[test]
fn validate_report_flags_flow_carrier() {
    let spec = DynamicTopology::new()
        .with_machine(machine("a"))
        .with_machine(machine("b"))
        .with_link(LinkSpec::new(
            ("a", "obs"),
            ("b", "obs_in"),
            LinkKind::BoundedBuf {
                capacity: 4,
                write_policy: WritePolicy::Blocking,
                read_policy: ReadPolicy::Blocking,
            },
        ));
    let (sa, sb) = schema_observe_pair();
    let mut schemas = SchemaMap::new();
    schemas.insert("a", sa);
    schemas.insert("b", sb);
    let report = spec.validate_report(&schemas);
    assert!(
        report.violations.iter().any(|v| v.rule_id == "flow-carrier"),
        "{:?}",
        report.violations.iter().map(|v| v.rule_id).collect::<Vec<_>>()
    );
}

/// Matrix completion: the remaining carrier×flow cells. Observe on a
/// dropping channel, a lock-free ring and shared memory never blocks the
/// producer → Recommended. Control on a single-slot carrier is the
/// canonical "latest wins" → Recommended.
#[test]
fn carrier_compatible_matrix_completion() {
    assert_eq!(
        carrier_compatible(
            FlowKind::Observe,
            &LinkKind::Channel {
                capacity: 8,
                drop_when_full: true,
            },
        ),
        CarrierCompatResult::Recommended,
    );
    assert_eq!(
        carrier_compatible(
            FlowKind::Observe,
            &LinkKind::CasFreeRing {
                capacity: 8,
                storage: flowgraph::link::MemoryRegion::Heap { size: 64 },
            },
        ),
        CarrierCompatResult::Recommended,
    );
    assert_eq!(
        carrier_compatible(FlowKind::Observe, &LinkKind::SharedState),
        CarrierCompatResult::Recommended,
    );
    assert_eq!(
        carrier_compatible(FlowKind::Control, &LinkKind::Latest { capacity: 0 }),
        CarrierCompatResult::Recommended,
    );
    // Control on a lock-free ring: lossless → suboptimal, never wrong.
    assert_eq!(
        carrier_compatible(
            FlowKind::Control,
            &LinkKind::CasFreeRing {
                capacity: 8,
                storage: flowgraph::link::MemoryRegion::Heap { size: 64 },
            },
        ),
        CarrierCompatResult::Permitted,
    );
}

/// An un-annotated (`Data`) edge carries no materialization constraint:
/// a blocking carrier is *fine* for it — the compatibility matrix only
/// constrains edges whose flow kind is explicitly annotated.
#[test]
fn validate_deep_ok_unannotated_data_on_blocking_carrier() {
    let spec = DynamicTopology::new()
        .with_machine(machine("a"))
        .with_machine(machine("b"))
        .with_link(LinkSpec::new(
            ("a", "out"),
            ("b", "in"),
            LinkKind::BoundedBuf {
                capacity: 4,
                write_policy: WritePolicy::Blocking,
                read_policy: ReadPolicy::Blocking,
            },
        ));
    let (sa, sb) = schema_observe_pair();
    let mut schemas = SchemaMap::new();
    schemas.insert("a", sa);
    schemas.insert("b", sb);
    assert!(spec.validate_deep(&schemas).is_ok());
}

/// Mixed annotation topology: one annotated (`Observe` on a blocking
/// carrier → violates) plus one un-annotated (`Data` on a blocking
/// carrier → fine). The matrix must flag only the annotated edge.
#[test]
fn validate_deep_mixed_flow_flags_only_annotated_edge() {
    let spec = DynamicTopology::new()
        .with_machine(machine("a"))
        .with_machine(machine("b"))
        .with_link(LinkSpec::new(
            ("a", "obs"),
            ("b", "obs_in"),
            LinkKind::BoundedBuf {
                capacity: 4,
                write_policy: WritePolicy::Blocking,
                read_policy: ReadPolicy::Blocking,
            },
        ))
        .with_link(LinkSpec::new(
            ("a", "out"),
            ("b", "in"),
            LinkKind::BoundedBuf {
                capacity: 4,
                write_policy: WritePolicy::Blocking,
                read_policy: ReadPolicy::Blocking,
            },
        ));
    let (sa, sb) = schema_observe_pair();
    let mut schemas = SchemaMap::new();
    schemas.insert("a", sa);
    schemas.insert("b", sb);
    match spec.validate_deep(&schemas) {
        Err(ValidationError::CarrierViolatesSemantics { out, flow, .. }) => {
            // The violation must name the annotated Observe edge, not the
            // un-annotated Data edge.
            assert_eq!(out, ("a".to_string(), "obs".to_string()));
            assert_eq!(flow, "observe");
        }
        other => panic!("expected CarrierViolatesSemantics, got: {other:?}"),
    }
}

/// The report form reports exactly one `flow-carrier` violation for the
/// mixed topology — the Data edge contributes none.
#[test]
fn validate_report_mixed_flow_single_violation() {
    let spec = DynamicTopology::new()
        .with_machine(machine("a"))
        .with_machine(machine("b"))
        .with_link(LinkSpec::new(
            ("a", "obs"),
            ("b", "obs_in"),
            LinkKind::BoundedBuf {
                capacity: 4,
                write_policy: WritePolicy::Blocking,
                read_policy: ReadPolicy::Blocking,
            },
        ))
        .with_link(LinkSpec::new(
            ("a", "out"),
            ("b", "in"),
            LinkKind::BoundedBuf {
                capacity: 4,
                write_policy: WritePolicy::Blocking,
                read_policy: ReadPolicy::Blocking,
            },
        ));
    let (sa, sb) = schema_observe_pair();
    let mut schemas = SchemaMap::new();
    schemas.insert("a", sa);
    schemas.insert("b", sb);
    let report = spec.validate_report(&schemas);
    let flow_violations: Vec<_> = report
        .violations
        .iter()
        .filter(|v| v.rule_id == "flow-carrier")
        .collect();
    assert_eq!(flow_violations.len(), 1, "{:?}", report.violations);
    // The single violation is the annotated Observe edge, not the
    // un-annotated Data edge (which the matrix does not constrain).
    assert!(flow_violations[0].expected.contains("observe"));
}


#[test]
fn report_is_clean_exactly_when_deep_validation_passes() {
    let mut schemas = SchemaMap::new();
    schemas.insert("a", schema_io_i32());
    schemas.insert("b", schema_io_i32());
    schemas.insert("c", schema_io_i32());
    let specs = vec![
        DynamicTopology::new()
            .with_machine(machine("a"))
            .with_machine(machine("b"))
            .with_link(inline("a", "out", "b", "in")),
        DynamicTopology::new()
            .with_machine(machine("a"))
            .with_machine(machine("b"))
            .with_machine(machine("c"))
            .with_link(bounded("a", "out", "b", "in"))
            .with_link(bounded("a", "out", "c", "in")),
        DynamicTopology::new()
            .with_machine(machine("a"))
            .with_machine(machine("b"))
            .with_link(inline("a", "out", "b", "in"))
            .with_link(inline("b", "out", "a", "in")),
        DynamicTopology::new()
            .with_machine(machine_moore("a"))
            .with_machine(machine("b"))
            .with_link(bounded("a", "out", "b", "in"))
            .with_link(bounded("b", "out", "a", "in")),
    ];
    let expected_ok = [true, false, false, true];
    for (spec, ok) in specs.iter().zip(expected_ok) {
        assert_eq!(spec.validate_deep(&schemas).is_ok(), ok);
        assert_eq!(spec.validate_report(&schemas).is_ok(), ok);
    }
}

#[test]
fn any_delay_rule_accepts_cycle_without_moore_and_otherwise_agrees() {
    let mut schemas = SchemaMap::new();
    schemas.insert("a", schema_io_i32());
    schemas.insert("b", schema_io_i32());
    schemas.insert("c", schema_io_i32());
    let cyclic = DynamicTopology::new()
        .with_machine(machine("a"))
        .with_machine(machine("b"))
        .with_link(bounded("a", "out", "b", "in"))
        .with_link(bounded("b", "out", "a", "in"));
    assert!(matches!(
        cyclic.validate_deep_for(&schemas, CycleRule::RequireMoore),
        Err(ValidationError::UnsafeCycle { .. })
    ));
    assert!(cyclic.validate_deep_for(&schemas, CycleRule::AnyDelay).is_ok());
    let fan_out = DynamicTopology::new()
        .with_machine(machine("a"))
        .with_machine(machine("b"))
        .with_machine(machine("c"))
        .with_link(bounded("a", "out", "b", "in"))
        .with_link(bounded("a", "out", "c", "in"));
    assert_eq!(
        format!("{:?}", fan_out.validate_deep_for(&schemas, CycleRule::AnyDelay)),
        format!("{:?}", fan_out.validate_deep_for(&schemas, CycleRule::RequireMoore))
    );
    assert!(matches!(
        fan_out.validate_deep_for(&schemas, CycleRule::AnyDelay),
        Err(ValidationError::FanOutViaTee { .. })
    ));
}

#[test]
fn non_moore_cycle_is_the_first_one_the_search_meets() {
    let spec = DynamicTopology::new()
        .with_machine(machine("a"))
        .with_machine(machine("b"))
        .with_machine(machine("c"))
        .with_link(bounded("a", "out", "c", "in"))
        .with_link(bounded("c", "out", "b", "in"))
        .with_link(bounded("b", "out", "c", "in2"));
    assert_eq!(
        spec.find_non_moore_cycle(),
        Some(vec!["c".to_string(), "b".to_string(), "c".to_string()])
    );
    let acyclic = DynamicTopology::new()
        .with_machine(machine("a"))
        .with_machine(machine("b"))
        .with_link(bounded("a", "out", "b", "in"));
    assert_eq!(acyclic.find_non_moore_cycle(), None);
}
