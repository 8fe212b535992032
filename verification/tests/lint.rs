use flowgraph::deploy::{DynamicTopology, FuncBinding, MachineInstance};
use flowgraph::lint::{lint, lint_rule, rules, Severity};
use flowgraph::link::{LinkKind, LinkSpec};
use flowgraph::port::{PortDecl, PortSchema, SchemaMap};
use flowgraph::resource::MachinePhysicalSpec;

fn spec_io() -> (DynamicTopology, SchemaMap) {
    let spec = DynamicTopology::new()
        .with_machine(MachineInstance::new("a", "A", MachinePhysicalSpec::default()))
        .with_machine(MachineInstance::new("b", "B", MachinePhysicalSpec::default()))
        .with_link(LinkSpec::new(("a", "out"), ("b", "in"), LinkKind::Inline));
    let a = PortSchema::new()
        .with(PortDecl::output::<i32>("out"))
        .with(PortDecl::input::<i32>("in"));
    let b = PortSchema::new()
        .with(PortDecl::output::<i32>("out"))
        .with(PortDecl::input::<i32>("in"));
    let mut schemas = SchemaMap::new();
    schemas.insert("a", a);
    schemas.insert("b", b);
    (spec, schemas)
}

#[test]
fn lint_flags_missing_observation() {
    let (spec, schemas) = spec_io();
    let report = lint(&spec, Some(&schemas));
    assert!(report.warnings.iter().any(|v| v.rule_id == "no-observation"));
}

#[test]
fn lint_flags_default_physical_and_uniform_links() {
    let (spec, schemas) = spec_io();
    let report = lint(&spec, Some(&schemas));
    assert!(report.warnings.iter().any(|v| v.rule_id == "default-physical"));
    assert!(!report.warnings.iter().any(|v| v.rule_id == "uniform-link-kind"));
}

#[test]
fn lint_rule_by_id() {
    let (spec, schemas) = spec_io();
    let v = lint_rule(&spec, Some(&schemas), "orphan-machine");
    assert!(v.is_empty());
    let v = lint_rule(&spec, Some(&schemas), "no-funcs");
    assert_eq!(v.len(), 1);
}

#[test]
fn lint_clean_when_axioms_satisfied() {
    let spec = DynamicTopology::new()
        .with_machine(
            MachineInstance::new("a", "A", MachinePhysicalSpec { deterministic: true, ..MachinePhysicalSpec::default() })
                .moore(),
        )
        .with_machine(MachineInstance::new("b", "B", MachinePhysicalSpec::default()))
        .with_func(FuncBinding::new("f", "F"))
        .with_link(LinkSpec::new(("a", "out"), ("b", "in"), LinkKind::Channel { capacity: 8, drop_when_full: false }));
    let a = PortSchema::new()
        .with(PortDecl::output::<i32>("out"))
        .with(PortDecl::input::<i32>("in"))
        .with(PortDecl::observe::<i32>("stats"));
    let b = PortSchema::new()
        .with(PortDecl::output::<i32>("out"))
        .with(PortDecl::input::<i32>("in"));
    let mut schemas = SchemaMap::new();
    schemas.insert("a", a);
    schemas.insert("b", b);
    let report = lint(&spec, Some(&schemas));
    assert!(
        report.is_ok(),
        "axiom-satisfying spec should lint clean: {:?}",
        report.warnings.iter().map(|v| v.rule_id).collect::<Vec<_>>()
    );
}

// ── Further cases ──

#[test]
fn lint_findings_come_in_rule_order() {
    let (spec, schemas) = spec_io();
    let report = lint(&spec, Some(&schemas));
    let ids: Vec<&str> = report.warnings.iter().map(|v| v.rule_id).collect();
    assert_eq!(
        ids,
        vec!["unused-output-port", "no-observation", "no-control", "default-physical", "no-funcs", "no-moore-headroom"]
    );
    assert!(report.violations.is_empty());
    assert_eq!(report.warnings[0].path, "b.out");
}

#[test]
fn lint_without_schemas_skips_port_rules() {
    let (spec, _) = spec_io();
    let report = lint(&spec, None);
    assert!(!report.warnings.iter().any(|v| v.rule_id == "no-observation" || v.rule_id == "unused-output-port"));
}

#[test]
fn lint_orphan_machine_path_names_it() {
    let spec = DynamicTopology::new()
        .with_machine(MachineInstance::new("lonely", "L", MachinePhysicalSpec::default()));
    let v = lint_rule(&spec, None, "orphan-machine");
    assert_eq!(v.len(), 1);
    assert_eq!(v[0].path, "machines[lonely]");
}

#[test]
fn lint_uniform_link_kind_fires_with_several_links() {
    let spec = DynamicTopology::new()
        .with_machine(MachineInstance::new("a", "A", MachinePhysicalSpec::default()))
        .with_machine(MachineInstance::new("b", "B", MachinePhysicalSpec::default()))
        .with_link(LinkSpec::new(("a", "o1"), ("b", "i1"), LinkKind::Inline))
        .with_link(LinkSpec::new(("a", "o2"), ("b", "i2"), LinkKind::Inline));
    let v = lint_rule(&spec, None, "uniform-link-kind");
    assert_eq!(v.len(), 1);
    assert_eq!(v[0].actual, "every link is Inline");
}

#[test]
fn lint_unknown_rule_finds_nothing() {
    let (spec, schemas) = spec_io();
    assert!(lint_rule(&spec, Some(&schemas), "no-such-rule").is_empty());
}

#[test]
fn rules_are_listed_in_run_order() {
    let r = rules();
    assert_eq!(r.len(), 8);
    assert_eq!(r[0].id, "orphan-machine");
    assert_eq!(r[7].id, "no-moore-headroom");
    assert_eq!(r[3].severity, Severity::Info);
}
