use flowgraph::composite::{expand_composites, CompositeError, CompositeSpec};
use flowgraph::deploy::{DynamicTopology, MachineInstance};
use flowgraph::link::{LinkKind, LinkSpec, ReadPolicy, WritePolicy};
use flowgraph::name_map::NameMap;
use flowgraph::resource::{ExecutionHint, MachinePhysicalSpec};

fn machine(name: &'static str) -> MachineInstance {
    MachineInstance::new(name, "test", MachinePhysicalSpec::default())
}

fn inline(a: &'static str, pa: &'static str, b: &'static str, pb: &'static str) -> LinkSpec {
    LinkSpec::new((a, pa), (b, pb), LinkKind::Inline)
}

fn simple_composite() -> CompositeSpec {
    let spec = DynamicTopology::new()
        .with_machine(machine("inner"))
        .with_machine(machine("inner2"))
        .with_link(inline("inner", "y", "inner2", "x"));
    CompositeSpec::new(spec)
        .with_input("in", "inner", "x")
        .with_output("out", "inner2", "y")
}

#[test]
fn validate_ok_simple_composite() {
    let comp = simple_composite();
    assert!(comp.validate().is_ok(), "simple composite should validate");
}

#[test]
fn validate_ok_empty_port_maps() {
    let spec = DynamicTopology::new().with_machine(machine("inner"));
    let comp = CompositeSpec::new(spec);
    assert!(comp.validate().is_ok());
}

#[test]
fn validate_rejects_dangling_input_mapping() {
    let spec = DynamicTopology::new().with_machine(machine("inner"));
    let comp = CompositeSpec::new(spec).with_input("in", "nonexistent", "x");
    let err = comp.validate().unwrap_err();
    match err {
        CompositeError::DanglingInputMapping { ext_port, sub_machine } => {
            assert_eq!(ext_port, "in");
            assert_eq!(sub_machine, "nonexistent");
        }
        other => panic!("expected DanglingInputMapping, got {other:?}"),
    }
}

#[test]
fn validate_rejects_dangling_output_mapping() {
    let spec = DynamicTopology::new().with_machine(machine("inner"));
    let comp = CompositeSpec::new(spec).with_output("out", "ghost", "y");
    let err = comp.validate().unwrap_err();
    match err {
        CompositeError::DanglingOutputMapping { ext_port, sub_machine } => {
            assert_eq!(ext_port, "out");
            assert_eq!(sub_machine, "ghost");
        }
        other => panic!("expected DanglingOutputMapping, got {other:?}"),
    }
}

#[test]
fn validate_rejects_duplicate_port_mapping() {
    let spec = DynamicTopology::new()
        .with_machine(machine("inner"))
        .with_machine(machine("inner2"));
    let comp = CompositeSpec::new(spec)
        .with_input("x", "inner", "p1")
        .with_output("x", "inner2", "p2");
    let err = comp.validate().unwrap_err();
    match err {
        CompositeError::DuplicatePortMapping { ext_port } => {
            assert_eq!(ext_port, "x");
        }
        other => panic!("expected DuplicatePortMapping, got {other:?}"),
    }
}

#[test]
fn validate_ok_multiple_inputs_outputs() {
    let spec = DynamicTopology::new()
        .with_machine(machine("a"))
        .with_machine(machine("b"))
        .with_machine(machine("c"));
    let comp = CompositeSpec::new(spec)
        .with_input("in1", "a", "x")
        .with_input("in2", "b", "x")
        .with_output("out1", "c", "y")
        .with_output("out2", "c", "z");
    assert!(comp.validate().is_ok());
}

#[test]
fn expand_no_composites_returns_unchanged() {
    let machines = vec![machine("a"), machine("b")];
    let links = vec![inline("a", "y", "b", "x")];
    let composites: NameMap<CompositeSpec> = NameMap::new();
    let (out_m, out_l) = expand_composites(machines, links, &composites).expect("expand");
    assert_eq!(out_m.len(), 2);
    assert_eq!(out_l.len(), 1);
    assert_eq!(out_m[0].name.as_str(), "a");
    assert_eq!(out_m[1].name.as_str(), "b");
}

#[test]
fn expand_single_composite_replaces_instance() {
    let mut composites = NameMap::new();
    composites.insert("comp", simple_composite());
    let machines = vec![MachineInstance::new("root", "comp", MachinePhysicalSpec::default())];
    let links = vec![];
    let (out_m, out_l) = expand_composites(machines, links, &composites).expect("expand");
    assert_eq!(out_m.len(), 2, "composite expands to 2 sub-machines");
    assert_eq!(out_m[0].name.as_str(), "root.inner");
    assert_eq!(out_m[1].name.as_str(), "root.inner2");
    assert_eq!(out_l.len(), 1, "sub-topology has 1 internal link");
    assert_eq!(out_l[0].out.0.as_str(), "root.inner");
    assert_eq!(out_l[0].into.0.as_str(), "root.inner2");
}

#[test]
fn expand_redirects_external_input_link() {
    let mut composites = NameMap::new();
    composites.insert("comp", simple_composite());
    let machines = vec![
        MachineInstance::new("root", "comp", MachinePhysicalSpec::default()),
        machine("ext"),
    ];
    let links = vec![inline("ext", "y", "root", "in")];
    let (out_m, out_l) = expand_composites(machines, links, &composites).expect("expand");
    assert_eq!(out_m.len(), 3, "ext + 2 sub-machines");
    let redirected = out_l
        .iter()
        .find(|l| l.out.0.as_str() == "ext" && l.out.1.as_str() == "y")
        .expect("external link should exist");
    assert_eq!(redirected.into.0.as_str(), "root.inner");
    assert_eq!(redirected.into.1.as_str(), "x");
}

#[test]
fn expand_redirects_external_output_link() {
    let mut composites = NameMap::new();
    composites.insert("comp", simple_composite());
    let machines = vec![
        MachineInstance::new("root", "comp", MachinePhysicalSpec::default()),
        machine("ext"),
    ];
    let links = vec![inline("root", "out", "ext", "x")];
    let (out_m, out_l) = expand_composites(machines, links, &composites).expect("expand");
    assert_eq!(out_m.len(), 3);
    let redirected = out_l
        .iter()
        .find(|l| l.into.0.as_str() == "ext" && l.into.1.as_str() == "x")
        .expect("external link should exist");
    assert_eq!(redirected.out.0.as_str(), "root.inner2");
    assert_eq!(redirected.out.1.as_str(), "y");
}

#[test]
fn expand_unmapped_external_port_passes_through() {
    let mut composites = NameMap::new();
    composites.insert("comp", simple_composite());
    let machines = vec![
        MachineInstance::new("root", "comp", MachinePhysicalSpec::default()),
        machine("ext"),
    ];
    let links = vec![inline("ext", "y", "root", "unknown")];
    let (_out_m, out_l) = expand_composites(machines, links, &composites).expect("expand");
    let unredirected = out_l
        .iter()
        .find(|l| l.out.0.as_str() == "ext")
        .expect("external link should exist");
    assert_eq!(unredirected.into.0.as_str(), "root");
    assert_eq!(unredirected.into.1.as_str(), "unknown");
}

#[test]
fn expand_nested_composite_two_levels() {
    let inner_spec = DynamicTopology::new()
        .with_machine(machine("sub1"))
        .with_machine(machine("sub2"))
        .with_link(inline("sub1", "y", "sub2", "x"));
    let inner_comp = CompositeSpec::new(inner_spec)
        .with_input("in", "sub1", "x")
        .with_output("out", "sub2", "y");
    let outer_spec = DynamicTopology::new()
        .with_machine(MachineInstance::new("inner_inst", "inner_type", MachinePhysicalSpec::default()));
    let outer_comp = CompositeSpec::new(outer_spec)
        .with_input("in", "inner_inst", "in")
        .with_output("out", "inner_inst", "out");
    let mut composites = NameMap::new();
    composites.insert("inner_type", inner_comp);
    composites.insert("outer_type", outer_comp);
    let machines = vec![MachineInstance::new("root", "outer_type", MachinePhysicalSpec::default())];
    let (out_m, _out_l) = expand_composites(machines, vec![], &composites).expect("expand");
    assert_eq!(out_m.len(), 2);
    assert_eq!(out_m[0].name.as_str(), "root.inner_inst.sub1");
    assert_eq!(out_m[1].name.as_str(), "root.inner_inst.sub2");
}

#[test]
fn expand_self_referential_composite_reports_too_deep() {
    let loop_spec = DynamicTopology::new().with_machine(MachineInstance::new(
        "inner",
        "loop",
        MachinePhysicalSpec::default(),
    ));
    let loop_comp = CompositeSpec::new(loop_spec)
        .with_input("in", "inner", "in")
        .with_output("out", "inner", "out");
    let mut composites = NameMap::new();
    composites.insert("loop", loop_comp);
    let machines = vec![MachineInstance::new("root", "loop", MachinePhysicalSpec::default())];
    let err = expand_composites(machines, vec![], &composites).unwrap_err();
    match err {
        CompositeError::TooDeep { depth, .. } => {
            assert_eq!(depth, 64, "MAX_DEPTH = 64");
        }
        other => panic!("expected TooDeep, got {other:?}"),
    }
}

#[test]
fn expand_multiple_composites_in_parallel() {
    let mut composites = NameMap::new();
    composites.insert("comp", simple_composite());
    let machines = vec![
        MachineInstance::new("a", "comp", MachinePhysicalSpec::default()),
        MachineInstance::new("b", "comp", MachinePhysicalSpec::default()),
    ];
    let (out_m, out_l) = expand_composites(machines, vec![], &composites).expect("expand");
    assert_eq!(out_m.len(), 4, "2 composites × 2 sub-machines each");
    let names: Vec<&str> = out_m.iter().map(|m| m.name.as_str()).collect();
    assert!(names.contains(&"a.inner"));
    assert!(names.contains(&"a.inner2"));
    assert!(names.contains(&"b.inner"));
    assert!(names.contains(&"b.inner2"));
    assert_eq!(out_l.len(), 2);
}

#[test]
fn expand_empty_machines_returns_empty() {
    let composites: NameMap<CompositeSpec> = NameMap::new();
    let (out_m, out_l) = expand_composites(vec![], vec![], &composites).expect("expand");
    assert!(out_m.is_empty());
    assert!(out_l.is_empty());
}

#[test]
fn expand_unregistered_composite_type_passes_through() {
    let machines = vec![MachineInstance::new("x", "unknown_comp", MachinePhysicalSpec::default())];
    let composites: NameMap<CompositeSpec> = NameMap::new();
    let (out_m, _out_l) = expand_composites(machines, vec![], &composites).expect("expand");
    assert_eq!(out_m.len(), 1);
    assert_eq!(out_m[0].name.as_str(), "x");
    assert_eq!(out_m[0].machine_type.as_str(), "unknown_comp");
}

#[test]
fn expand_preserves_machine_physical_spec() {
    let mut inner_physical = MachinePhysicalSpec::default();
    inner_physical.execution = ExecutionHint::CpuBound;
    let inner = MachineInstance::new("inner", "test", inner_physical);
    let spec = DynamicTopology::new().with_machine(inner);
    let comp = CompositeSpec::new(spec);
    let mut composites = NameMap::new();
    composites.insert("comp", comp);
    let machines = vec![MachineInstance::new("root", "comp", MachinePhysicalSpec::default())];
    let (out_m, _) = expand_composites(machines, vec![], &composites).expect("expand");
    assert_eq!(out_m.len(), 1);
    assert!(matches!(out_m[0].physical.execution, ExecutionHint::CpuBound));
}

#[test]
fn expand_preserves_link_kind() {
    let bounded = LinkSpec::new(
        ("inner", "y"),
        ("inner2", "x"),
        LinkKind::BoundedBuf {
            capacity: 42,
            write_policy: WritePolicy::Dropping,
            read_policy: ReadPolicy::NonBlocking,
        },
    );
    let spec = DynamicTopology::new()
        .with_machine(machine("inner"))
        .with_machine(machine("inner2"))
        .with_link(bounded);
    let comp = CompositeSpec::new(spec);
    let mut composites = NameMap::new();
    composites.insert("comp", comp);
    let machines = vec![MachineInstance::new("root", "comp", MachinePhysicalSpec::default())];
    let (out_m, out_l) = expand_composites(machines, vec![], &composites).expect("expand");
    assert_eq!(out_m.len(), 2);
    assert_eq!(out_l.len(), 1);
    match &out_l[0].kind {
        LinkKind::BoundedBuf { capacity, write_policy, read_policy } => {
            assert_eq!(*capacity, 42);
            assert_eq!(*write_policy, WritePolicy::Dropping);
            assert_eq!(*read_policy, ReadPolicy::NonBlocking);
        }
        other => panic!("expected BoundedBuf, got {other:?}"),
    }
}

#[test]
fn builder_with_input_chains() {
    let spec = DynamicTopology::new()
        .with_machine(machine("a"))
        .with_machine(machine("b"));
    let comp = CompositeSpec::new(spec)
        .with_input("in1", "a", "x")
        .with_input("in2", "b", "x");
    assert_eq!(comp.input_map.len(), 2);
    assert!(comp.input_map.contains_key("in1"));
    assert!(comp.input_map.contains_key("in2"));
}

#[test]
fn builder_with_output_chains() {
    let spec = DynamicTopology::new()
        .with_machine(machine("a"))
        .with_machine(machine("b"));
    let comp = CompositeSpec::new(spec)
        .with_output("out1", "a", "y")
        .with_output("out2", "b", "y");
    assert_eq!(comp.output_map.len(), 2);
    assert!(comp.output_map.contains_key("out1"));
    assert!(comp.output_map.contains_key("out2"));
}

#[test]
fn builder_with_input_and_output() {
    let spec = DynamicTopology::new()
        .with_machine(machine("a"))
        .with_machine(machine("b"));
    let comp = CompositeSpec::new(spec)
        .with_input("in", "a", "x")
        .with_output("out", "b", "y");
    assert_eq!(comp.input_map.len(), 1);
    assert_eq!(comp.output_map.len(), 1);
    assert!(comp.validate().is_ok());
}

#[test]
fn error_display_dangling_input() {
    let err = CompositeError::DanglingInputMapping { ext_port: "in".into(), sub_machine: "ghost".into() };
    let s = err.message();
    assert!(s.contains("input_map"));
    assert!(s.contains("in"));
    assert!(s.contains("ghost"));
}

#[test]
fn error_display_dangling_output() {
    let err = CompositeError::DanglingOutputMapping { ext_port: "out".into(), sub_machine: "phantom".into() };
    let s = err.message();
    assert!(s.contains("output_map"));
    assert!(s.contains("out"));
    assert!(s.contains("phantom"));
}

#[test]
fn error_display_duplicate_port() {
    let err = CompositeError::DuplicatePortMapping { ext_port: "x".into() };
    let s = err.message();
    assert!(s.contains("x"));
    assert!(s.contains("both"));
}

#[test]
fn error_display_too_deep() {
    let err = CompositeError::TooDeep { depth: 64, hint: "self-referential".into() };
    let s = err.message();
    assert!(s.contains("64"));
    assert!(s.contains("self-referential"));
}

// ── Further cases ──

#[test]
fn composite_error_text_is_exact() {
    let err = CompositeError::DanglingInputMapping { ext_port: "in".into(), sub_machine: "ghost".into() };
    assert_eq!(
        err.message(),
        "composite input_map references non-existent sub-machine: ext_port `in` \u{2192} `ghost` (not in spec.machines)"
    );
    let err = CompositeError::TooDeep { depth: 64, hint: "h".into() };
    assert_eq!(err.message(), "composite expansion exceeded depth 64: h");
}

#[test]
fn name_map_keeps_keys_sorted_and_replaces() {
    let mut m: NameMap<(String, String)> = NameMap::new();
    m.insert("b", ("1".to_string(), "x".to_string()));
    m.insert("a", ("2".to_string(), "y".to_string()));
    m.insert("b", ("3".to_string(), "z".to_string()));
    assert_eq!(m.len(), 2);
    assert_eq!(m.key_at(0), "a");
    assert_eq!(m.key_at(1), "b");
    assert_eq!(m.get("b").unwrap().0, "3");
    assert!(m.get("c").is_none());
}

#[test]
fn validate_reports_first_dangling_input_in_port_order() {
    let spec = DynamicTopology::new().with_machine(machine("inner"));
    let comp = CompositeSpec::new(spec)
        .with_input("zeta", "ghost1", "x")
        .with_input("alpha", "ghost2", "x");
    match comp.validate().unwrap_err() {
        CompositeError::DanglingInputMapping { ext_port, sub_machine } => {
            assert_eq!(ext_port, "alpha");
            assert_eq!(sub_machine, "ghost2");
        }
        other => panic!("unexpected {other:?}"),
    }
}

/// Composites `t1` .. `tn`, each holding one machine `m` of the next type,
/// the last holding a machine of type `leaf`.
fn nested_chain(n: usize) -> NameMap<CompositeSpec> {
    let mut composites = NameMap::new();
    for i in 1..=n {
        let next = if i < n { format!("t{}", i + 1) } else { "leaf".to_string() };
        let spec = DynamicTopology::new().with_machine(MachineInstance::new("m", &next, MachinePhysicalSpec::default()));
        composites.insert(&format!("t{}", i), CompositeSpec::new(spec));
    }
    composites
}

#[test]
fn expand_nesting_of_exactly_the_limit_succeeds() {
    let composites = nested_chain(64);
    let machines = vec![MachineInstance::new("root", "t1", MachinePhysicalSpec::default())];
    let (ms, ls) = expand_composites(machines, vec![], &composites).expect("depth 64 expands");
    assert_eq!(ms.len(), 1);
    assert_eq!(ms[0].machine_type.as_str(), "leaf");
    assert!(ls.is_empty());
}

#[test]
fn expand_nesting_past_the_limit_is_too_deep() {
    let composites = nested_chain(65);
    let machines = vec![MachineInstance::new("root", "t1", MachinePhysicalSpec::default())];
    match expand_composites(machines, vec![], &composites) {
        Err(CompositeError::TooDeep { depth, .. }) => assert_eq!(depth, 64),
        _ => panic!("expected TooDeep"),
    }
}

#[test]
fn expand_leaves_no_composite_and_keeps_every_input_link() {
    let inner_comp = simple_composite();
    let outer_spec = DynamicTopology::new()
        .with_machine(MachineInstance::new("inner_inst", "inner_type", MachinePhysicalSpec::default()));
    let outer_comp = CompositeSpec::new(outer_spec)
        .with_input("in", "inner_inst", "in")
        .with_output("out", "inner_inst", "out");
    let mut composites = NameMap::new();
    composites.insert("inner_type", inner_comp);
    composites.insert("outer_type", outer_comp);
    let machines = vec![
        machine("src"),
        MachineInstance::new("root", "outer_type", MachinePhysicalSpec::default()),
        machine("dst"),
    ];
    let links = vec![inline("src", "out", "root", "in"), inline("root", "out", "dst", "in")];
    let (out_m, out_l) = expand_composites(machines, links, &composites).expect("expand");
    assert!(out_m.iter().all(|m| m.machine_type != "inner_type" && m.machine_type != "outer_type"));
    let n = out_l.len();
    assert!(n >= 2);
    assert_eq!(out_l[n - 2].out, ("src".into(), "out".into()));
    assert_eq!(out_l[n - 2].into, ("root.inner_inst.inner".into(), "x".into()));
    assert_eq!(out_l[n - 1].out, ("root.inner_inst.inner2".into(), "y".into()));
    assert_eq!(out_l[n - 1].into, ("dst".into(), "in".into()));
}
