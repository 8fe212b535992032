use flowgraph::analysis::{
    analyze, can_reach, critical_path_latency, degree_violations, feedback_loops, inline_cycle,
    inline_topological_order, observe_completeness, orphans, reachable_from, single_points_of_failure,
    topological_levels, TopologyWarning,
};
use flowgraph::deploy::{DeploySpec, MachineInstance};
use flowgraph::link::{LinkKind, LinkSpec, MemoryRegion, ReadPolicy, WritePolicy};
use flowgraph::port::{PortDecl, PortSchema, SchemaMap};
use flowgraph::resource::MachinePhysicalSpec;

fn level(levels: &[(String, usize)], name: &str) -> usize {
    levels.iter().find(|(n, _)| n == name).map(|(_, l)| *l).expect("machine has a level")
}


fn machine(name: &'static str) -> MachineInstance {
    MachineInstance::new(name, "test", MachinePhysicalSpec::default())
}

/// Machine with a declared per-message latency (microseconds).
fn machine_lat(name: &'static str, us: u64) -> MachineInstance {
    let mut physical = MachinePhysicalSpec::default();
    physical.per_message_latency_us = us;
    MachineInstance::new(name, "test", physical)
}

fn machine_moore(name: &'static str) -> MachineInstance {
    MachineInstance::new(name, "test", MachinePhysicalSpec::default()).moore()
}

fn inline(a: &'static str, pa: &'static str, b: &'static str, pb: &'static str) -> LinkSpec {
    LinkSpec::new((a, pa), (b, pb), LinkKind::Inline)
}

fn bounded(a: &'static str, pa: &'static str, b: &'static str, pb: &'static str) -> LinkSpec {
    LinkSpec::new((a, pa), (b, pb), LinkKind::BoundedBuf {
        capacity: 16,
        write_policy: WritePolicy::Blocking,
        read_policy: ReadPolicy::Blocking,
    })
}

fn channel(a: &'static str, pa: &'static str, b: &'static str, pb: &'static str) -> LinkSpec {
    LinkSpec::new((a, pa), (b, pb), LinkKind::Channel { capacity: 16, drop_when_full: false })
}

fn casfree(a: &'static str, pa: &'static str, b: &'static str, pb: &'static str) -> LinkSpec {
    LinkSpec::new((a, pa), (b, pb), LinkKind::CasFreeRing {
        capacity: 16,
        storage: MemoryRegion::Heap { size: 1024 },
    })
}

// ── Kahn topological sort ──────────────────────────────────────────

#[test]
fn test_kahn_dag() {
    let spec = DeploySpec::new()
        .with_machine(machine("a"))
        .with_machine(machine("b"))
        .with_machine(machine("c"))
        .with_link(inline("a", "out", "b", "in"))
        .with_link(inline("b", "out", "c", "in"));
    let order = inline_topological_order(&spec).unwrap();
    let pos = |name: &str| order.iter().position(|s| s == name).unwrap();
    assert!(pos("a") < pos("b"));
    assert!(pos("b") < pos("c"));
}

#[test]
fn test_kahn_cycle_detected() {
    let spec = DeploySpec::new()
        .with_machine(machine("a"))
        .with_machine(machine("b"))
        .with_link(inline("a", "out", "b", "in"))
        .with_link(inline("b", "out", "a", "in"));
    let cycle = inline_cycle(&spec);
    assert!(cycle.is_some());
    let cycle = cycle.unwrap();
    assert!(cycle.contains(&"a".to_string()));
    assert!(cycle.contains(&"b".to_string()));
}

#[test]
fn inline_cycle_names_only_the_machines_on_the_cycle() {
    let spec = DeploySpec::new()
        .with_machine(machine("a"))
        .with_machine(machine("b"))
        .with_machine(machine("c"))
        .with_link(inline("a", "out", "b", "in"))
        .with_link(inline("b", "out", "a", "in"))
        .with_link(inline("b", "out2", "c", "in"));
    assert_eq!(inline_cycle(&spec), Some(vec!["a".to_string(), "b".to_string()]));
}

#[test]
fn inline_topological_order_remainder_includes_what_follows_a_cycle() {
    let spec = DeploySpec::new()
        .with_machine(machine("a"))
        .with_machine(machine("b"))
        .with_machine(machine("c"))
        .with_link(inline("a", "out", "b", "in"))
        .with_link(inline("b", "out", "a", "in"))
        .with_link(inline("b", "out2", "c", "in"));
    assert_eq!(
        inline_topological_order(&spec),
        Err(vec!["a".to_string(), "b".to_string(), "c".to_string()])
    );
}

#[test]
fn test_inline_cycle_not_triggered_by_bounded() {
    // BoundedBuf cycle is allowed (sequential feedback).
    let spec = DeploySpec::new()
        .with_machine(machine("a"))
        .with_machine(machine("b"))
        .with_link(bounded("a", "out", "b", "in"))
        .with_link(bounded("b", "out", "a", "in"));
    assert!(inline_cycle(&spec).is_none());
}

// ── Tarjan SCC ─────────────────────────────────────────────────────

#[test]
fn test_scc_no_loops() {
    let spec = DeploySpec::new()
        .with_machine(machine("a"))
        .with_machine(machine("b"))
        .with_machine(machine("c"))
        .with_link(bounded("a", "out", "b", "in"))
        .with_link(bounded("b", "out", "c", "in"));
    let loops = feedback_loops(&spec);
    assert!(loops.is_empty());
}

#[test]
fn test_scc_feedback_loop() {
    let spec = DeploySpec::new()
        .with_machine(machine_moore("a"))
        .with_machine(machine_moore("b"))
        .with_link(bounded("a", "out", "b", "in"))
        .with_link(bounded("b", "out", "a", "in"));
    let loops = feedback_loops(&spec);
    assert_eq!(loops.len(), 1);
    assert!(loops[0].all_moore);
    assert!(!loops[0].has_inline);
}

#[test]
fn test_scc_has_inline() {
    let spec = DeploySpec::new()
        .with_machine(machine("a"))
        .with_machine(machine("b"))
        .with_link(inline("a", "out", "b", "in"))
        .with_link(bounded("b", "out", "a", "in"));
    let loops = feedback_loops(&spec);
    assert_eq!(loops.len(), 1);
    assert!(loops[0].has_inline);
}

// ── BFS reachability ───────────────────────────────────────────────

#[test]
fn test_reachable() {
    let spec = DeploySpec::new()
        .with_machine(machine("a"))
        .with_machine(machine("b"))
        .with_machine(machine("c"))
        .with_machine(machine("d"))
        .with_link(bounded("a", "out", "b", "in"))
        .with_link(bounded("b", "out", "c", "in"))
        .with_link(bounded("c", "out", "b", "in")); // cycle b→c
    let reach = reachable_from(&spec, "a");
    assert!(reach.contains(&"b".to_string()));
    assert!(reach.contains(&"c".to_string()));
    assert!(!reach.contains(&"d".to_string()));
    assert!(can_reach(&spec, "a", "c"));
    assert!(!can_reach(&spec, "a", "d"));
}

// ── Dominator analysis / SPOF ──────────────────────────────────────

#[test]
fn test_spof_linear() {
    // a → b → c → d  (b and c are SPOFs for d)
    let spec = DeploySpec::new()
        .with_machine(machine("a"))
        .with_machine(machine("b"))
        .with_machine(machine("c"))
        .with_machine(machine("d"))
        .with_link(bounded("a", "out", "b", "in"))
        .with_link(bounded("b", "out", "c", "in"))
        .with_link(bounded("c", "out", "d", "in"));
    let spofs = single_points_of_failure(&spec);
    let vertices: Vec<&str> = spofs.iter().map(|s| s.vertex.as_str()).collect();
    assert!(vertices.contains(&"b"));
    assert!(vertices.contains(&"c"));
    assert!(!vertices.contains(&"a")); // source, not a SPOF
    assert!(!vertices.contains(&"d")); // sink, not a SPOF
}

#[test]
fn test_spof_no_spof_with_redundancy() {
    // a → b → d
    // a → c → d  (b and c are NOT SPOFs — redundancy)
    let spec = DeploySpec::new()
        .with_machine(machine("a"))
        .with_machine(machine("b"))
        .with_machine(machine("c"))
        .with_machine(machine("d"))
        .with_link(bounded("a", "out", "b", "in"))
        .with_link(bounded("a", "out", "c", "in"))
        .with_link(bounded("b", "out", "d", "in"))
        .with_link(bounded("c", "out", "d", "in"));
    let spofs = single_points_of_failure(&spec);
    assert!(spofs.is_empty(), "redundant paths → no SPOF, got: {:?}", spofs);
}

// ── Degree constraints ─────────────────────────────────────────────

#[test]
fn test_degree_inline_ok() {
    let spec = DeploySpec::new()
        .with_machine(machine("a"))
        .with_machine(machine("b"))
        .with_link(inline("a", "out", "b", "in"));
    assert!(degree_violations(&spec).is_empty());
}

#[test]
fn test_degree_inline_violation() {
    // Two Inline links from the same output port → violation
    let spec = DeploySpec::new()
        .with_machine(machine("a"))
        .with_machine(machine("b"))
        .with_machine(machine("c"))
        .with_link(inline("a", "out", "b", "in"))
        .with_link(inline("a", "out", "c", "in"));
    let v = degree_violations(&spec);
    assert_eq!(v.len(), 1);
    assert_eq!(v[0].machine, "a");
    assert_eq!(v[0].link_kind, "Inline");
    assert_eq!(v[0].actual, 2);
}

#[test]
fn test_degree_channel_violation() {
    // Two Channel links into the same input port → violation
    let spec = DeploySpec::new()
        .with_machine(machine("a"))
        .with_machine(machine("b"))
        .with_machine(machine("c"))
        .with_link(channel("a", "out", "c", "in"))
        .with_link(channel("b", "out", "c", "in"));
    let v = degree_violations(&spec);
    assert_eq!(v.len(), 1);
    assert_eq!(v[0].machine, "c");
    assert_eq!(v[0].link_kind, "Channel");
}

#[test]
fn test_degree_casfree_spsc() {
    // CasFreeRing: both outdeg and indeg must be ≤ 1
    let spec = DeploySpec::new()
        .with_machine(machine("a"))
        .with_machine(machine("b"))
        .with_machine(machine("c"))
        .with_link(casfree("a", "out", "b", "in"))
        .with_link(casfree("c", "out", "b", "in")); // indeg violation
    let v = degree_violations(&spec);
    assert_eq!(v.len(), 1);
    assert_eq!(v[0].link_kind, "CasFreeRing");
    assert_eq!(v[0].direction, "input");
}

#[test]
fn test_degree_boundedbuf_no_constraint() {
    // BoundedBuf has no degree constraint — multiple links OK
    let spec = DeploySpec::new()
        .with_machine(machine("a"))
        .with_machine(machine("b"))
        .with_machine(machine("c"))
        .with_link(bounded("a", "out", "c", "in"))
        .with_link(bounded("b", "out", "c", "in"));
    assert!(degree_violations(&spec).is_empty());
}

// ── Orphan detection ───────────────────────────────────────────────

#[test]
fn test_orphans() {
    let spec = DeploySpec::new()
        .with_machine(machine("a"))   // root (no inbound)
        .with_machine(machine("b"))   // middle
        .with_machine(machine("c"))   // leaf (no outbound)
        .with_machine(machine("d"))   // isolated
        .with_link(bounded("a", "out", "b", "in"))
        .with_link(bounded("b", "out", "c", "in"));
    let warns = orphans(&spec);
    let names: Vec<String> = warns.iter().filter_map(|w| {
        match w {
            TopologyWarning::Orphan { machine, .. } => Some(machine.clone()),
            _ => None,
        }
    }).collect();
    assert!(names.contains(&"a".to_string())); // root
    assert!(names.contains(&"c".to_string())); // leaf
    assert!(names.contains(&"d".to_string())); // isolated
    assert!(!names.contains(&"b".to_string())); // middle — not orphan
}

// ── Observe completeness ───────────────────────────────────────────

#[test]
fn test_observe_disconnected() {
    let spec = DeploySpec::new()
        .with_machine(machine("sensor"))
        .with_machine(machine("store"));
    let mut schemas = SchemaMap::new();
    schemas.insert("sensor", PortSchema::new()
        .with(PortDecl::output::<i32>("out"))
        .with(PortDecl::observe::<i32>("metrics")));
    schemas.insert("store", PortSchema::new()
        .with(PortDecl::input::<i32>("in")));
    // No link from sensor::metrics to store → disconnected
    let warns = observe_completeness(&spec, &schemas);
    assert_eq!(warns.len(), 1);
    match &warns[0] {
        TopologyWarning::DisconnectedObserve { machine, port } => {
            assert_eq!(machine, "sensor");
            assert_eq!(port, "metrics");
        }
        _ => panic!("expected DisconnectedObserve"),
    }
}

#[test]
fn test_observe_connected() {
    let spec = DeploySpec::new()
        .with_machine(machine("sensor"))
        .with_machine(machine("store"))
        .with_link(bounded("sensor", "metrics", "store", "in"));
    let mut schemas = SchemaMap::new();
    schemas.insert("sensor", PortSchema::new()
        .with(PortDecl::observe::<i32>("metrics")));
    schemas.insert("store", PortSchema::new()
        .with(PortDecl::input::<i32>("in"))); // store is a collector (no observe out)
    let warns = observe_completeness(&spec, &schemas);
    assert!(warns.is_empty(), "observe port is connected, got: {:?}", warns);
}

// ── Full analyze ───────────────────────────────────────────────────

#[test]
fn test_analyze_clean() {
    let spec = DeploySpec::new()
        .with_machine(machine("a"))
        .with_machine(machine("b"))
        .with_link(bounded("a", "out", "b", "in"));
    let report = analyze(&spec, None);
    // a is root (orphan), b is leaf (orphan) — expected warnings
    assert!(!report.is_clean());
    assert!(report.warnings.iter().any(|w| matches!(w, TopologyWarning::Orphan { .. })));
}

// ── Critical-path latency ──────────────────────────────────────────

#[test]
fn critical_path_linear() {
    // A(1) → B(2) → C(3)：关键路径 = 1 + 2 + 3 = 6
    let spec = DeploySpec::new()
        .with_machine(machine_lat("a", 1))
        .with_machine(machine_lat("b", 2))
        .with_machine(machine_lat("c", 3))
        .with_link(bounded("a", "out", "b", "in"))
        .with_link(bounded("b", "out", "c", "in"));
    assert_eq!(critical_path_latency(&spec).unwrap(), 6);
}

#[test]
fn critical_path_diamond_takes_longer_branch() {
    // A(1) → (B(2), C(3)) → D(4)：关键路径 = 1 + max(2,3) + 4 = 8
    let spec = DeploySpec::new()
        .with_machine(machine_lat("a", 1))
        .with_machine(machine_lat("b", 2))
        .with_machine(machine_lat("c", 3))
        .with_machine(machine_lat("d", 4))
        .with_link(bounded("a", "out", "b", "in"))
        .with_link(bounded("a", "out", "c", "in"))
        .with_link(bounded("b", "out", "d", "in"))
        .with_link(bounded("c", "out", "d", "in"));
    assert_eq!(critical_path_latency(&spec).unwrap(), 8);
}

#[test]
fn critical_path_undeclared_latency_is_zero() {
    // 全部 latency=0（默认）：关键路径 = 0
    let spec = DeploySpec::new()
        .with_machine(machine("a"))
        .with_machine(machine("b"))
        .with_link(bounded("a", "out", "b", "in"));
    assert_eq!(critical_path_latency(&spec).unwrap(), 0);
}

#[test]
fn critical_path_cycle_is_unbounded() {
    // A → B → A（环）：关键路径无界，返回 Err
    let spec = DeploySpec::new()
        .with_machine(machine_lat("a", 1))
        .with_machine(machine_lat("b", 1))
        .with_link(bounded("a", "out", "b", "in"))
        .with_link(bounded("b", "out", "a", "in"));
    assert!(critical_path_latency(&spec).is_err());
}

// ── Topological levels（波次调度基础）───────────────────────────────

#[test]
fn levels_linear_chain() {
    // A → B → C：A=0, B=1, C=2
    let spec = DeploySpec::new()
        .with_machine(machine("a"))
        .with_machine(machine("b"))
        .with_machine(machine("c"))
        .with_link(bounded("a", "out", "b", "in"))
        .with_link(bounded("b", "out", "c", "in"));
    let levels = topological_levels(&spec).unwrap();
    assert_eq!(level(&levels, "a"), 0);
    assert_eq!(level(&levels, "b"), 1);
    assert_eq!(level(&levels, "c"), 2);
}

#[test]
fn levels_diamond() {
    // A → (B, C) → D：A=0, B=1, C=1, D=2
    let spec = DeploySpec::new()
        .with_machine(machine("a"))
        .with_machine(machine("b"))
        .with_machine(machine("c"))
        .with_machine(machine("d"))
        .with_link(bounded("a", "out", "b", "in"))
        .with_link(bounded("a", "out", "c", "in"))
        .with_link(bounded("b", "out", "d", "in"))
        .with_link(bounded("c", "out", "d", "in"));
    let levels = topological_levels(&spec).unwrap();
    assert_eq!(level(&levels, "a"), 0);
    assert_eq!(level(&levels, "b"), 1);
    assert_eq!(level(&levels, "c"), 1);
    assert_eq!(level(&levels, "d"), 2);
}

#[test]
fn levels_cycle_is_err() {
    let spec = DeploySpec::new()
        .with_machine(machine("a"))
        .with_machine(machine("b"))
        .with_link(bounded("a", "out", "b", "in"))
        .with_link(bounded("b", "out", "a", "in"));
    assert!(topological_levels(&spec).is_err());
}


// ── Further cases ──

#[test]
fn analyze_reports_feedback_loop_and_observe_warnings() {
    let spec = DeploySpec::new()
        .with_machine(machine_moore("a"))
        .with_machine(machine_moore("b"))
        .with_link(bounded("a", "out", "b", "in"))
        .with_link(bounded("b", "out", "a", "in"));
    let mut schemas = SchemaMap::new();
    schemas.insert("a", PortSchema::new().with(PortDecl::observe::<i32>("metrics")));
    schemas.insert("b", PortSchema::new().with(PortDecl::observe::<i32>("metrics")));
    let report = analyze(&spec, Some(&schemas));
    assert!(matches!(report.warnings[0], TopologyWarning::FeedbackLoop { .. }));
    let disconnected = report
        .warnings
        .iter()
        .filter(|w| matches!(w, TopologyWarning::DisconnectedObserve { .. }))
        .count();
    assert_eq!(disconnected, 2);
    assert_eq!(report.len(), report.iter().len());
}

#[test]
fn warning_messages_are_exact() {
    let w = TopologyWarning::Orphan { machine: "d".to_string(), has_inbound: false, has_outbound: false };
    assert_eq!(w.message(), "orphan machine 'd': isolated (no in, no out)");
    let w = TopologyWarning::FeedbackLoop {
        machines: vec!["a".to_string(), "b".to_string()],
        all_moore: true,
        has_inline: false,
    };
    assert_eq!(w.message(), "feedback loop: a \u{2192} b | all_moore=true has_inline=false");
    let w = TopologyWarning::SinglePointOfFailure { vertex: "b".to_string(), threatens: vec!["c".to_string(), "d".to_string()] };
    assert_eq!(w.message(), "SPOF 'b' threatens sinks: c, d");
    let w = TopologyWarning::DisconnectedObserve { machine: "s".to_string(), port: "m".to_string() };
    assert_eq!(w.message(), "disconnected observe port 's::m' \u{2014} no path to any collector");
}

#[test]
fn orphan_kinds_are_reported_in_name_order() {
    let spec = DeploySpec::new()
        .with_machine(machine("d"))
        .with_machine(machine("a"))
        .with_machine(machine("b"))
        .with_link(bounded("a", "out", "b", "in"));
    let warns = orphans(&spec);
    let got: Vec<(String, bool, bool)> = warns
        .iter()
        .map(|w| match w {
            TopologyWarning::Orphan { machine, has_inbound, has_outbound } => (machine.clone(), *has_inbound, *has_outbound),
            _ => panic!("only orphans expected"),
        })
        .collect();
    assert_eq!(
        got,
        vec![("a".to_string(), false, true), ("b".to_string(), true, false), ("d".to_string(), false, false)]
    );
}

#[test]
fn reachable_from_is_sorted_and_excludes_unreached() {
    let spec = DeploySpec::new()
        .with_machine(machine("z"))
        .with_machine(machine("b"))
        .with_machine(machine("a"))
        .with_link(bounded("a", "out", "z", "in"))
        .with_link(bounded("z", "out", "b", "in"));
    let reach = reachable_from(&spec, "a");
    assert_eq!(reach, vec!["b".to_string(), "z".to_string()]);
}

#[test]
fn inline_topological_order_err_on_inline_cycle() {
    let spec = DeploySpec::new()
        .with_machine(machine("a"))
        .with_machine(machine("b"))
        .with_link(inline("a", "out", "b", "in"))
        .with_link(inline("b", "out", "a", "in"));
    assert!(inline_topological_order(&spec).is_err());
}

#[test]
fn feedback_loops_follow_search_order() {
    let spec = DeploySpec::new()
        .with_machine(machine("a"))
        .with_machine(machine("b"))
        .with_machine(machine("c"))
        .with_machine(machine("d"))
        .with_machine(machine("e"))
        .with_link(bounded("a", "out", "b", "in"))
        .with_link(bounded("b", "out", "c", "in"))
        .with_link(bounded("c", "out", "a", "in"))
        .with_link(bounded("d", "out", "e", "in"))
        .with_link(bounded("e", "out", "d", "in"));
    let loops = feedback_loops(&spec);
    assert_eq!(loops.len(), 2);
    assert_eq!(loops[0].machines, vec!["c".to_string(), "b".to_string(), "a".to_string()]);
    assert_eq!(loops[1].machines, vec!["e".to_string(), "d".to_string()]);
}

#[test]
fn feedback_loop_of_two_lists_the_later_machine_first() {
    let spec = DeploySpec::new()
        .with_machine(machine_moore("a"))
        .with_machine(machine_moore("b"))
        .with_link(bounded("a", "out", "b", "in"))
        .with_link(bounded("b", "out", "a", "in"));
    let loops = feedback_loops(&spec);
    assert_eq!(loops[0].machines, vec!["b".to_string(), "a".to_string()]);
}
