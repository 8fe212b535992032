//! Architecture lint rules: heuristics over a deployment that name the
//! design principle it drifts from.
//!
//! A clean lint report is not required for a valid deployment; each finding
//! is advisory. Every rule has a stable id, a severity and a one-line
//! description, and reports its findings as structured violations whose
//! `rule_id` is the rule's id.
use vstd::prelude::*;
use vstd::string::StringExecFns;
use crate::deploy::{DynamicTopology, TopologyView};
use crate::flow::FlowKind;
use crate::link::{LinkKind, link_kind_name};
use crate::port::{PortDecl, PortDir, PortSchema, SchemaMap, schema_for};
use crate::resource::{ExecutionHint, MachinePhysicalSpec};
use crate::validate::{RuleViolation, RuleViolationView, ValidationReport, finding, findings_of};
use crate::analysis::{
    feedback_loops, inline_cycle, names_acyclic, inline_links, node_order, loops_of, schemas_view,
    lemma_node_order_unique,
};
use crate::strings::str_eq;

verus! {

/// How serious a finding of a rule is.
#[derive(Debug, Clone, Copy, PartialEq, Eq, Structural)]
pub enum Severity {
    /// Breaks a hard contract: fix before deploying.
    Error,
    /// Drifts from a documented principle: strongly consider fixing.
    Warning,
    /// Advisory: may well be right for a small system.
    Info,
}

/// A lint rule: its id, its severity and what it checks.
#[derive(Debug, Clone, Copy)]
pub struct LintRule {
    /// Stable identifier, used as the findings' `rule_id`.
    pub id: &'static str,
    pub severity: Severity,
    /// One line on the principle the rule checks.
    pub description: &'static str,
}

/// The ids of the built-in rules, in the order they run.
pub open spec fn rule_ids() -> Seq<Seq<char>> {
    seq![
        "orphan-machine"@, "unused-output-port"@, "no-observation"@, "no-control"@, "uniform-link-kind"@,
        "default-physical"@, "no-funcs"@, "no-moore-headroom"@,
    ]
}

/// The severities of the built-in rules, in the order they run.
pub open spec fn rule_severities() -> Seq<Severity> {
    seq![
        Severity::Warning, Severity::Warning, Severity::Warning, Severity::Info, Severity::Info, Severity::Warning,
        Severity::Info, Severity::Info,
    ]
}

/// The built-in rule set, in the order the rules run.
pub fn rules() -> (r: Vec<LintRule>)
    ensures
        r@.len() == 8,
        forall|i: int| 0 <= i < 8 ==> #[trigger] r@[i].id@ == rule_ids()[i] && r@[i].severity == rule_severities()[i],
{
    let r = vec![
        LintRule {
            id: "orphan-machine",
            severity: Severity::Warning,
            description: "machine with no incoming or outgoing links \u{2014} an island in the graph",
        },
        LintRule {
            id: "unused-output-port",
            severity: Severity::Warning,
            description: "declared output port is never consumed by any link \u{2014} the graph hides a produced value",
        },
        LintRule {
            id: "no-observation",
            severity: Severity::Warning,
            description: "no Observe-flow port anywhere \u{2014} the system cannot be observed (observability is a contract)",
        },
        LintRule {
            id: "no-control",
            severity: Severity::Info,
            description: "no Control-flow port anywhere \u{2014} the system cannot be steered at runtime",
        },
        LintRule {
            id: "uniform-link-kind",
            severity: Severity::Info,
            description: "every link uses the same LinkKind \u{2014} carrier choice does not reflect traffic shape",
        },
        LintRule {
            id: "default-physical",
            severity: Severity::Warning,
            description: "every MachinePhysicalSpec is left at default() \u{2014} physical decisions were not made explicit",
        },
        LintRule {
            id: "no-funcs",
            severity: Severity::Info,
            description: "no FuncBinding \u{2014} the pure-function layer is unused; everything is a stateful machine",
        },
        LintRule {
            id: "no-moore-headroom",
            severity: Severity::Info,
            description: "acyclic topology with no Moore machine \u{2014} adding a feedback loop later will fail validation",
        },
    ];
    proof {
        reveal_strlit("orphan-machine");
        reveal_strlit("unused-output-port");
        reveal_strlit("no-observation");
        reveal_strlit("no-control");
        reveal_strlit("uniform-link-kind");
        reveal_strlit("default-physical");
        reveal_strlit("no-funcs");
        reveal_strlit("no-moore-headroom");
    }
    r
}

// ── What each rule finds ────────────────────────────────────────────────

/// Whether some link starts or ends at machine `m`.
pub open spec fn machine_linked(t: TopologyView, m: Seq<char>) -> bool {
    exists|i: int| #![trigger t.links[i]] 0 <= i < t.links.len() && (t.links[i].out.0 == m || t.links[i].into.0 == m)
}

/// Orphan findings for the first `k` machines.
pub open spec fn orphan_findings(t: TopologyView, k: int) -> Seq<RuleViolationView>
    decreases k,
{
    if k <= 0 {
        Seq::empty()
    } else {
        let m = t.machines[k - 1].name;
        orphan_findings(t, k - 1) + if !machine_linked(t, m) {
            seq![finding("orphan-machine"@, "machines["@ + m + "]"@, "machine participates in at least one link"@,
                "no incoming or outgoing links"@)]
        } else {
            Seq::empty()
        }
    }
}

/// Whether some link reads port `(m, p)`.
pub open spec fn port_consumed(t: TopologyView, m: Seq<char>, p: Seq<char>) -> bool {
    exists|i: int| 0 <= i < t.links.len() && #[trigger] t.links[i].out == (m, p)
}

/// Unused-output findings for the first `j` ports of machine `m`'s schema `s`.
pub open spec fn unused_port_findings(t: TopologyView, m: Seq<char>, s: Seq<PortDecl>, j: int) -> Seq<RuleViolationView>
    decreases j,
{
    if j <= 0 {
        Seq::empty()
    } else {
        let p = s[j - 1];
        unused_port_findings(t, m, s, j - 1) + if p.dir == PortDir::Out && !port_consumed(t, m, p.name@) {
            seq![finding("unused-output-port"@, m + "."@ + p.name@, "output port is consumed by at least one link"@,
                "no link reads this port"@)]
        } else {
            Seq::empty()
        }
    }
}

/// Unused-output findings for the first `k` machines.
pub open spec fn unused_findings(t: TopologyView, sm: Seq<(Seq<char>, Seq<PortDecl>)>, k: int) -> Seq<RuleViolationView>
    decreases k,
{
    if k <= 0 {
        Seq::empty()
    } else {
        let m = t.machines[k - 1].name;
        unused_findings(t, sm, k - 1) + match schema_for(sm, m) {
            Some(s) => unused_port_findings(t, m, s, s.len() as int),
            None => Seq::empty(),
        }
    }
}

/// Whether some schema of `sm` declares a port of flow `f`.
pub open spec fn any_flow(sm: Seq<(Seq<char>, Seq<PortDecl>)>, f: FlowKind) -> bool {
    exists|i: int, j: int| 0 <= i < sm.len() && 0 <= j < sm[i].1.len() && #[trigger] sm[i].1[j].flow == f
}

/// Whether a physical spec looks untouched: the fields a designer decides
/// are at their defaults.
pub open spec fn looks_default(p: MachinePhysicalSpec) -> bool {
    &&& p.execution is Async
    &&& p.state_heap_bytes == 4096
    &&& !p.cache_line_align
    &&& !p.deterministic
    &&& p.max_cleanup_latency_us == 10_000
}

/// Whether a topology has a feedback loop.
pub open spec fn has_feedback(t: TopologyView) -> bool {
    exists|nodes: Seq<Seq<char>>| #[trigger] node_order(t, nodes) && loops_of(t, nodes).len() > 0
}

/// What rule `k` (in run order) finds, with the optional schemas `sm`.
pub open spec fn rule_findings(t: TopologyView, sm: Option<Seq<(Seq<char>, Seq<PortDecl>)>>, k: int) -> Seq<RuleViolationView> {
    if k == 0 {
        orphan_findings(t, t.machines.len() as int)
    } else if k == 1 {
        match sm {
            Some(sm) => unused_findings(t, sm, t.machines.len() as int),
            None => Seq::empty(),
        }
    } else if k == 2 {
        if sm is Some && t.machines.len() > 0 && !any_flow(sm->Some_0, FlowKind::Observe) {
            seq![finding("no-observation"@, "machines"@, "at least one Observe-flow port declared"@,
                "no Observe port anywhere in the topology"@)]
        } else {
            Seq::empty()
        }
    } else if k == 3 {
        if sm is Some && t.machines.len() > 0 && !any_flow(sm->Some_0, FlowKind::Control) {
            seq![finding("no-control"@, "machines"@, "at least one Control-flow port declared"@,
                "no Control port anywhere in the topology"@)]
        } else {
            Seq::empty()
        }
    } else if k == 4 {
        if t.links.len() > 1 && forall|i: int| 0 <= i < t.links.len() ==> #[trigger] link_kind_name(t.links[i].kind)
            == link_kind_name(t.links[0].kind) {
            seq![finding("uniform-link-kind"@, "links"@, "links use a mix of carriers matching traffic shape"@,
                "every link is "@ + link_kind_name(t.links[0].kind))]
        } else {
            Seq::empty()
        }
    } else if k == 5 {
        if t.machines.len() > 0 && forall|i: int| 0 <= i < t.machines.len() ==> #[trigger] looks_default(t.machines[i].physical) {
            seq![finding("default-physical"@, "machines[].physical"@,
                "physical decisions made explicit (execution, budget, alignment)"@, "every MachinePhysicalSpec is default()"@)]
        } else {
            Seq::empty()
        }
    } else if k == 6 {
        if t.funcs.len() == 0 && t.machines.len() > 0 {
            seq![finding("no-funcs"@, "funcs"@, "pure-function layer used for stateless transforms"@,
                "no FuncBinding declared"@)]
        } else {
            Seq::empty()
        }
    } else if k == 7 {
        if t.machines.len() > 0 && !(exists|i: int| 0 <= i < t.machines.len() && #[trigger] t.machines[i].is_moore)
            && !has_feedback(t) && names_acyclic(t, inline_links()) {
            seq![finding("no-moore-headroom"@, "machines[].is_moore"@,
                "at least one machine declared Moore (or a cycle exists already)"@, "acyclic topology, no Moore machine"@)]
        } else {
            Seq::empty()
        }
    } else {
        Seq::empty()
    }
}

/// The findings of the first `k` rules, in run order.
pub open spec fn lint_findings(t: TopologyView, sm: Option<Seq<(Seq<char>, Seq<PortDecl>)>>, k: int) -> Seq<RuleViolationView>
    decreases k,
{
    if k <= 0 {
        Seq::empty()
    } else {
        lint_findings(t, sm, k - 1) + rule_findings(t, sm, k - 1)
    }
}

// ── The checks ──────────────────────────────────────────────────────────

/// A single finding, or none.
pub open spec fn one_or_none(cond: bool, f: RuleViolationView) -> Seq<RuleViolationView> {
    if cond { seq![f] } else { Seq::empty() }
}

/// Whether some link starts or ends at machine `m`.
fn linked(spec: &DynamicTopology, m: &str) -> (r: bool)
    ensures
        r == machine_linked(spec@, m@),
{
    let mut i: usize = 0;
    while i < spec.links.len()
        invariant
            i <= spec.links.len(),
            forall|j: int| #![trigger spec@.links[j]] 0 <= j < i ==> !(spec@.links[j].out.0 == m@ || spec@.links[j].into.0 == m@),
        decreases spec.links.len() - i,
    {
        if str_eq(spec.links[i].out.0.as_str(), m) || str_eq(spec.links[i].into.0.as_str(), m) {
            proof {
                assert(spec@.links[i as int].out.0 == m@ || spec@.links[i as int].into.0 == m@);
            }
            return true;
        }
        i = i + 1;
    }
    false
}

/// Whether some link reads port `(m, p)`.
fn consumed(spec: &DynamicTopology, m: &str, p: &str) -> (r: bool)
    ensures
        r == port_consumed(spec@, m@, p@),
{
    let mut i: usize = 0;
    while i < spec.links.len()
        invariant
            i <= spec.links.len(),
            forall|j: int| 0 <= j < i ==> #[trigger] spec@.links[j].out != (m@, p@),
        decreases spec.links.len() - i,
    {
        if str_eq(spec.links[i].out.0.as_str(), m) && str_eq(spec.links[i].out.1.as_str(), p) {
            proof {
                assert(spec@.links[i as int].out == (m@, p@));
            }
            return true;
        }
        i = i + 1;
    }
    false
}

/// Machines with no link at all.
fn check_orphan_machine(spec: &DynamicTopology) -> (r: Vec<RuleViolation>)
    ensures
        findings_of(r) == orphan_findings(spec@, spec@.machines.len() as int),
{
    let ghost t = spec@;
    let mut r: Vec<RuleViolation> = Vec::new();
    let mut i: usize = 0;
    while i < spec.machines.len()
        invariant
            i <= spec.machines.len(),
            t == spec@,
            findings_of(r) == orphan_findings(t, i as int),
        decreases spec.machines.len() - i,
    {
        let name = spec.machines[i].name.as_str();
        proof {
            assert(t.machines[i as int].name == name@);
        }
        let ghost before = findings_of(r);
        if !linked(spec, name) {
            let path = String::from_str("machines[").concat(name).concat("]");
            r.push(RuleViolation::new("orphan-machine", path.as_str(), "machine participates in at least one link",
                "no incoming or outgoing links"));
            proof {
                assert(findings_of(r) =~= before + orphan_findings(t, i + 1).skip(before.len() as int));
            }
        }
        proof {
            assert(findings_of(r) =~= orphan_findings(t, i + 1));
        }
        i = i + 1;
    }
    r
}

/// Output ports that no link reads.
fn check_unused_output_port(spec: &DynamicTopology, schemas: Option<&SchemaMap>) -> (r: Vec<RuleViolation>)
    ensures
        findings_of(r) == rule_findings(spec@, schemas_view(schemas), 1),
{
    let ghost t = spec@;
    let mut r: Vec<RuleViolation> = Vec::new();
    let sm = match schemas {
        Some(sm) => sm,
        None => {
            return r;
        },
    };
    let mut i: usize = 0;
    while i < spec.machines.len()
        invariant
            i <= spec.machines.len(),
            t == spec@,
            findings_of(r) == unused_findings(t, sm@, i as int),
        decreases spec.machines.len() - i,
    {
        let name = spec.machines[i].name.as_str();
        proof {
            assert(t.machines[i as int].name == name@);
        }
        let ghost base = findings_of(r);
        match sm.get(name) {
            Some(schema) => {
                let ports = schema.ports();
                let mut j: usize = 0;
                while j < ports.len()
                    invariant
                        j <= ports.len(),
                        t == spec@,
                        ports@ == schema@,
                        findings_of(r) == base + unused_port_findings(t, name@, schema@, j as int),
                    decreases ports.len() - j,
                {
                    let p = &ports[j];
                    let ghost before = findings_of(r);
                    if p.dir == PortDir::Out && !consumed(spec, name, p.name) {
                        let path = String::from_str(name).concat(".").concat(p.name);
                        r.push(RuleViolation::new("unused-output-port", path.as_str(),
                            "output port is consumed by at least one link", "no link reads this port"));
                        proof {
                            assert(findings_of(r) =~= before.push(finding("unused-output-port"@, name@ + "."@ + p.name@,
                                "output port is consumed by at least one link"@, "no link reads this port"@)));
                        }
                    }
                    proof {
                        assert(ports@[j as int] == *p);
                        assert(findings_of(r) =~= base + unused_port_findings(t, name@, schema@, j + 1));
                    }
                    j = j + 1;
                }
            },
            None => {},
        }
        proof {
            assert(findings_of(r) =~= unused_findings(t, sm@, i + 1));
        }
        i = i + 1;
    }
    r
}

/// Whether some schema declares a port of flow `f`.
fn schemas_have_flow(sm: &SchemaMap, f: FlowKind) -> (r: bool)
    ensures
        r == any_flow(sm@, f),
{
    let mut i: usize = 0;
    while i < sm.len()
        invariant
            i <= sm@.len(),
            forall|a: int, b: int| 0 <= a < i && 0 <= b < sm@[a].1.len() ==> #[trigger] sm@[a].1[b].flow != f,
        decreases sm@.len() - i,
    {
        let ports = sm.schema_at(i).ports();
        let mut j: usize = 0;
        while j < ports.len()
            invariant
                j <= ports.len(),
                i < sm@.len(),
                ports@ == sm@[i as int].1,
                forall|a: int, b: int| 0 <= a < i && 0 <= b < sm@[a].1.len() ==> #[trigger] sm@[a].1[b].flow != f,
                forall|b: int| 0 <= b < j ==> #[trigger] sm@[i as int].1[b].flow != f,
            decreases ports.len() - j,
        {
            if ports[j].flow == f {
                proof {
                    assert(sm@[i as int].1[j as int].flow == f);
                }
                return true;
            }
            j = j + 1;
        }
        i = i + 1;
    }
    false
}

/// No port of flow `f` anywhere, reported as `id` with the given texts.
fn check_flow_presence(spec: &DynamicTopology, schemas: Option<&SchemaMap>, f: FlowKind, id: &'static str, expected: &str, actual: &str) -> (r: Vec<RuleViolation>)
    ensures
        findings_of(r) == one_or_none(
            schemas is Some && spec@.machines.len() > 0 && !any_flow(schemas_view(schemas)->Some_0, f),
            finding(id@, "machines"@, expected@, actual@),
        ),
{
    let mut r: Vec<RuleViolation> = Vec::new();
    match schemas {
        Some(sm) => {
            if spec.machines.len() > 0 && !schemas_have_flow(sm, f) {
                r.push(RuleViolation::new(id, "machines", expected, actual));
            }
        },
        None => {},
    }
    proof {
        reveal_strlit("machines");
        assert(findings_of(r) =~= one_or_none(
            schemas is Some && spec@.machines.len() > 0 && !any_flow(schemas_view(schemas)->Some_0, f),
            finding(id@, "machines"@, expected@, actual@),
        ));
    }
    r
}

/// Every link of the same kind, when there are several.
fn check_uniform_link_kind(spec: &DynamicTopology) -> (r: Vec<RuleViolation>)
    ensures
        findings_of(r) == rule_findings(spec@, None, 4),
{
    let ghost t = spec@;
    let mut r: Vec<RuleViolation> = Vec::new();
    if spec.links.len() > 1 {
        let first = spec.links[0].kind.name();
        let mut same = true;
        let mut i: usize = 0;
        while i < spec.links.len()
            invariant
                i <= spec.links.len(),
                t == spec@,
                t.links.len() > 1,
                first@ == link_kind_name(t.links[0].kind),
                same == forall|j: int| 0 <= j < i ==> #[trigger] link_kind_name(t.links[j].kind) == link_kind_name(t.links[0].kind),
            decreases spec.links.len() - i,
        {
            let k = spec.links[i].kind.name();
            proof {
                assert(t.links[i as int].kind == spec.links@[i as int].kind);
            }
            if !str_eq(k, first) {
                same = false;
            }
            i = i + 1;
        }
        if same {
            let actual = String::from_str("every link is ").concat(first);
            r.push(RuleViolation::new("uniform-link-kind", "links", "links use a mix of carriers matching traffic shape",
                actual.as_str()));
        }
    }
    proof {
        assert(findings_of(r) =~= rule_findings(t, None, 4));
    }
    r
}

/// Whether a physical spec looks untouched.
fn physical_looks_default(p: &MachinePhysicalSpec) -> (r: bool)
    ensures
        r == looks_default(*p),
{
    let asynchronous = match p.execution {
        ExecutionHint::Async => true,
        _ => false,
    };
    asynchronous && p.state_heap_bytes == 4096 && !p.cache_line_align && !p.deterministic && p.max_cleanup_latency_us == 10_000
}

/// Every machine's physical spec left untouched.
fn check_default_physical(spec: &DynamicTopology) -> (r: Vec<RuleViolation>)
    ensures
        findings_of(r) == rule_findings(spec@, None, 5),
{
    let ghost t = spec@;
    let mut r: Vec<RuleViolation> = Vec::new();
    if spec.machines.len() > 0 {
        let mut all = true;
        let mut i: usize = 0;
        while i < spec.machines.len()
            invariant
                i <= spec.machines.len(),
                t == spec@,
                all == forall|j: int| 0 <= j < i ==> #[trigger] looks_default(t.machines[j].physical),
            decreases spec.machines.len() - i,
        {
            proof {
                assert(t.machines[i as int].physical == spec.machines@[i as int].physical);
            }
            if !physical_looks_default(&spec.machines[i].physical) {
                all = false;
            }
            i = i + 1;
        }
        if all {
            r.push(RuleViolation::new("default-physical", "machines[].physical",
                "physical decisions made explicit (execution, budget, alignment)", "every MachinePhysicalSpec is default()"));
        }
    }
    proof {
        assert(findings_of(r) =~= rule_findings(t, None, 5));
    }
    r
}

/// Machines but no function binding.
fn check_no_funcs(spec: &DynamicTopology) -> (r: Vec<RuleViolation>)
    ensures
        findings_of(r) == rule_findings(spec@, None, 6),
{
    let mut r: Vec<RuleViolation> = Vec::new();
    if spec.funcs.len() == 0 && spec.machines.len() > 0 {
        r.push(RuleViolation::new("no-funcs", "funcs", "pure-function layer used for stateless transforms",
            "no FuncBinding declared"));
    }
    proof {
        assert(findings_of(r) =~= rule_findings(spec@, None, 6));
    }
    r
}

/// An acyclic topology with no Moore machine.
fn check_no_moore_headroom(spec: &DynamicTopology) -> (r: Vec<RuleViolation>)
    ensures
        findings_of(r) == rule_findings(spec@, None, 7),
{
    let ghost t = spec@;
    let mut r: Vec<RuleViolation> = Vec::new();
    if spec.machines.len() > 0 {
        let mut any_moore = false;
        let mut i: usize = 0;
        while i < spec.machines.len()
            invariant
                i <= spec.machines.len(),
                t == spec@,
                any_moore == exists|j: int| 0 <= j < i && #[trigger] t.machines[j].is_moore,
            decreases spec.machines.len() - i,
        {
            proof {
                assert(t.machines[i as int].is_moore == spec.machines@[i as int].is_moore);
            }
            if spec.machines[i].is_moore {
                any_moore = true;
            }
            i = i + 1;
        }
        let loops = feedback_loops(spec);
        let cyc = inline_cycle(spec);
        proof {
            let nodes = choose|nodes: Seq<Seq<char>>| #[trigger] node_order(t, nodes)
                && loops@.map_values(|f: crate::analysis::FeedbackLoop| f@) == loops_of(t, nodes);
            if has_feedback(t) {
                let n2 = choose|n2: Seq<Seq<char>>| #[trigger] node_order(t, n2) && loops_of(t, n2).len() > 0;
                lemma_node_order_unique(t, nodes, n2);
            }
            assert(has_feedback(t) == (loops@.len() > 0));
        }
        if !any_moore && loops.len() == 0 && cyc.is_none() {
            r.push(RuleViolation::new("no-moore-headroom", "machines[].is_moore",
                "at least one machine declared Moore (or a cycle exists already)", "acyclic topology, no Moore machine"));
        }
    }
    proof {
        assert(findings_of(r) =~= rule_findings(t, None, 7));
    }
    r
}

/// The findings of rule `k` (in run order).
fn run_rule(spec: &DynamicTopology, schemas: Option<&SchemaMap>, k: usize) -> (r: Vec<RuleViolation>)
    requires
        k < 8,
    ensures
        findings_of(r) == rule_findings(spec@, schemas_view(schemas), k as int),
{
    if k == 0 {
        check_orphan_machine(spec)
    } else if k == 1 {
        check_unused_output_port(spec, schemas)
    } else if k == 2 {
        let r = check_flow_presence(spec, schemas, FlowKind::Observe, "no-observation", "at least one Observe-flow port declared",
            "no Observe port anywhere in the topology");
        proof {
            reveal_strlit("no-observation");
        }
        r
    } else if k == 3 {
        let r = check_flow_presence(spec, schemas, FlowKind::Control, "no-control", "at least one Control-flow port declared",
            "no Control port anywhere in the topology");
        proof {
            reveal_strlit("no-control");
        }
        r
    } else if k == 4 {
        check_uniform_link_kind(spec)
    } else if k == 5 {
        check_default_physical(spec)
    } else if k == 6 {
        check_no_funcs(spec)
    } else {
        check_no_moore_headroom(spec)
    }
}

/// Runs every rule, in order. `schemas` enables the port-level rules
/// (`unused-output-port`, `no-observation`, `no-control`). No built-in rule
/// is an error, so every finding is a warning.
pub fn lint(spec: &DynamicTopology, schemas: Option<&SchemaMap>) -> (r: ValidationReport)
    ensures
        findings_of(r.violations) == Seq::<RuleViolationView>::empty(),
        findings_of(r.warnings) == lint_findings(spec@, schemas_view(schemas), 8),
{
    let mut report = ValidationReport { violations: Vec::new(), warnings: Vec::new() };
    proof {
        assert(findings_of(report.violations) =~= Seq::<RuleViolationView>::empty());
        assert(findings_of(report.warnings) =~= lint_findings(spec@, schemas_view(schemas), 0));
    }
    let mut k: usize = 0;
    while k < 8
        invariant
            k <= 8,
            findings_of(report.violations) == Seq::<RuleViolationView>::empty(),
            findings_of(report.warnings) == lint_findings(spec@, schemas_view(schemas), k as int),
        decreases 8 - k,
    {
        let found = run_rule(spec, schemas, k);
        let ghost base = findings_of(report.warnings);
        let mut j: usize = 0;
        while j < found.len()
            invariant
                j <= found.len(),
                findings_of(report.violations) == Seq::<RuleViolationView>::empty(),
                findings_of(report.warnings) == base + findings_of(found).take(j as int),
            decreases found.len() - j,
        {
            report.warn(found[j].clone());
            proof {
                assert(findings_of(found).take(j + 1) =~= findings_of(found).take(j as int).push(found@[j as int]@));
                assert(findings_of(report.warnings) =~= base + findings_of(found).take(j + 1));
            }
            j = j + 1;
        }
        proof {
            assert(findings_of(found).take(found.len() as int) =~= findings_of(found));
        }
        k = k + 1;
    }
    report
}

/// Whether `id` names the built-in rule at position `k`.
pub open spec fn rule_position(id: Seq<char>) -> int {
    if id == rule_ids()[0] { 0 }
    else if id == rule_ids()[1] { 1 }
    else if id == rule_ids()[2] { 2 }
    else if id == rule_ids()[3] { 3 }
    else if id == rule_ids()[4] { 4 }
    else if id == rule_ids()[5] { 5 }
    else if id == rule_ids()[6] { 6 }
    else if id == rule_ids()[7] { 7 }
    else { -1 }
}

/// Runs the one rule named `rule_id`; an unknown id finds nothing.
pub fn lint_rule(spec: &DynamicTopology, schemas: Option<&SchemaMap>, rule_id: &str) -> (r: Vec<RuleViolation>)
    ensures
        rule_position(rule_id@) >= 0 ==> findings_of(r) == rule_findings(spec@, schemas_view(schemas), rule_position(rule_id@)),
        rule_position(rule_id@) < 0 ==> r@.len() == 0,
{
    let all = rules();
    let mut k: usize = 0;
    while k < all.len()
        invariant
            k <= all@.len(),
            all@.len() == 8,
            forall|i: int| 0 <= i < 8 ==> #[trigger] all@[i].id@ == rule_ids()[i],
            forall|i: int| 0 <= i < k ==> rule_ids()[i] != rule_id@,
        decreases all@.len() - k,
    {
        if str_eq(all[k].id, rule_id) {
            proof {
                assert(all@[k as int].id@ == rule_ids()[k as int]);
                assert(rule_position(rule_id@) == k as int);
            }
            return run_rule(spec, schemas, k);
        }
        proof {
            assert(all@[k as int].id@ == rule_ids()[k as int]);
        }
        k = k + 1;
    }
    Vec::new()
}

} // verus!

verus! {

// ── Laws of the unused-output rule ──────────────────────────────────────

/// The finding that output port `p` of machine `m` has no reader.
pub open spec fn unused_port_finding(m: Seq<char>, p: Seq<char>) -> RuleViolationView {
    finding("unused-output-port"@, m + "."@ + p, "output port is consumed by at least one link"@, "no link reads this port"@)
}

/// Whether port `j` of machine `kk`'s schema is an output whose finding is
/// `x`, the port being read by no link.
spec fn flags_port(t: TopologyView, sm: Seq<(Seq<char>, Seq<PortDecl>)>, kk: int, j: int, x: RuleViolationView) -> bool {
    let m = t.machines[kk].name;
    &&& 0 <= kk < t.machines.len()
    &&& schema_for(sm, m) is Some
    &&& 0 <= j < schema_for(sm, m)->Some_0.len()
    &&& schema_for(sm, m)->Some_0[j].dir == PortDir::Out
    &&& !port_consumed(t, m, schema_for(sm, m)->Some_0[j].name@)
    &&& x == unused_port_finding(m, schema_for(sm, m)->Some_0[j].name@)
}

proof fn lemma_port_findings_members(t: TopologyView, m: Seq<char>, s: Seq<PortDecl>, n: int)
    requires
        0 <= n <= s.len(),
    ensures
        forall|x: RuleViolationView| #[trigger] unused_port_findings(t, m, s, n).contains(x) <==> exists|j: int|
            0 <= j < n && s[j].dir == PortDir::Out && !port_consumed(t, m, s[j].name@) && x == #[trigger] unused_port_finding(m, s[j].name@),
    decreases n,
{
    if n > 0 {
        lemma_port_findings_members(t, m, s, n - 1);
        let prev = unused_port_findings(t, m, s, n - 1);
        let p = s[n - 1];
        let tail: Seq<RuleViolationView> = if p.dir == PortDir::Out && !port_consumed(t, m, p.name@) {
            seq![unused_port_finding(m, p.name@)]
        } else {
            Seq::empty()
        };
        assert(unused_port_findings(t, m, s, n) == prev + tail);
        assert forall|x: RuleViolationView| #[trigger] unused_port_findings(t, m, s, n).contains(x) <==> exists|j: int|
            0 <= j < n && s[j].dir == PortDir::Out && !port_consumed(t, m, s[j].name@) && x == #[trigger] unused_port_finding(m, s[j].name@) by {
            if unused_port_findings(t, m, s, n).contains(x) {
                let q = choose|q: int| 0 <= q < (prev + tail).len() && (prev + tail)[q] == x;
                if q < prev.len() {
                    assert(prev[q] == x);
                    assert(prev.contains(x));
                } else {
                    assert(tail[q - prev.len()] == x);
                    assert(unused_port_finding(m, s[n - 1].name@) == x);
                }
            }
            if exists|j: int| 0 <= j < n && s[j].dir == PortDir::Out && !port_consumed(t, m, s[j].name@) && x == #[trigger] unused_port_finding(m, s[j].name@) {
                let j = choose|j: int| 0 <= j < n && s[j].dir == PortDir::Out && !port_consumed(t, m, s[j].name@) && x == #[trigger] unused_port_finding(m, s[j].name@);
                if j < n - 1 {
                    assert(prev.contains(x));
                    let q = choose|q: int| 0 <= q < prev.len() && prev[q] == x;
                    assert((prev + tail)[q] == x);
                } else {
                    assert((prev + tail)[prev.len() as int] == x);
                }
            }
        }
    }
}

proof fn lemma_unused_findings_members(t: TopologyView, sm: Seq<(Seq<char>, Seq<PortDecl>)>, k: int)
    requires
        0 <= k <= t.machines.len(),
    ensures
        forall|x: RuleViolationView| #[trigger] unused_findings(t, sm, k).contains(x) <==> exists|kk: int, j: int|
            kk < k && #[trigger] flags_port(t, sm, kk, j, x),
    decreases k,
{
    if k > 0 {
        lemma_unused_findings_members(t, sm, k - 1);
        let prev = unused_findings(t, sm, k - 1);
        let m = t.machines[k - 1].name;
        let tail = match schema_for(sm, m) {
            Some(s) => unused_port_findings(t, m, s, s.len() as int),
            None => Seq::empty(),
        };
        assert(unused_findings(t, sm, k) == prev + tail);
        if schema_for(sm, m) is Some {
            lemma_port_findings_members(t, m, schema_for(sm, m)->Some_0, schema_for(sm, m)->Some_0.len() as int);
        }
        assert forall|x: RuleViolationView| #[trigger] unused_findings(t, sm, k).contains(x) <==> exists|kk: int, j: int|
            kk < k && #[trigger] flags_port(t, sm, kk, j, x) by {
            if unused_findings(t, sm, k).contains(x) {
                let q = choose|q: int| 0 <= q < (prev + tail).len() && (prev + tail)[q] == x;
                if q < prev.len() {
                    assert(prev[q] == x);
                    assert(prev.contains(x));
                } else {
                    assert(tail[q - prev.len()] == x);
                    assert(tail.contains(x));
                    let s = schema_for(sm, m)->Some_0;
                    let j = choose|j: int| 0 <= j < s.len() && s[j].dir == PortDir::Out && !port_consumed(t, m, s[j].name@)
                        && x == #[trigger] unused_port_finding(m, s[j].name@);
                    assert(flags_port(t, sm, k - 1, j, x));
                }
            }
            if exists|kk: int, j: int| kk < k && #[trigger] flags_port(t, sm, kk, j, x) {
                let (kk, j) = choose|kk: int, j: int| kk < k && #[trigger] flags_port(t, sm, kk, j, x);
                if kk < k - 1 {
                    assert(prev.contains(x));
                    let q = choose|q: int| 0 <= q < prev.len() && prev[q] == x;
                    assert((prev + tail)[q] == x);
                } else {
                    let s = schema_for(sm, m)->Some_0;
                    assert(x == unused_port_finding(m, s[j].name@));
                    assert(tail.contains(x));
                    let q = choose|q: int| 0 <= q < tail.len() && tail[q] == x;
                    assert((prev + tail)[prev.len() + q] == x);
                }
            }
        }
    }
}

/// The unused-output rule reports exactly the output ports that no link
/// reads: an output port `p` of machine `m`'s schema with no link leaving
/// `(m, p)` is reported, and every finding names an output port of some
/// machine's schema that no link leaves. Whether a port is read depends on
/// the port, not only on its machine.
pub proof fn lemma_unused_output_ports(t: TopologyView, sm: Seq<(Seq<char>, Seq<PortDecl>)>)
    ensures
        forall|kk: int, j: int| 0 <= kk < t.machines.len() && schema_for(sm, t.machines[kk].name) is Some
            && 0 <= j < schema_for(sm, t.machines[kk].name)->Some_0.len()
            && schema_for(sm, t.machines[kk].name)->Some_0[j].dir == PortDir::Out
            && (forall|i: int| 0 <= i < t.links.len() ==> #[trigger] t.links[i].out
                != (t.machines[kk].name, schema_for(sm, t.machines[kk].name)->Some_0[j].name@))
            ==> rule_findings(t, Some(sm), 1).contains(
                #[trigger] unused_port_finding(t.machines[kk].name, schema_for(sm, t.machines[kk].name)->Some_0[j].name@)),
        forall|x: RuleViolationView| #[trigger] rule_findings(t, Some(sm), 1).contains(x) ==> exists|kk: int, j: int|
            0 <= kk < t.machines.len() && schema_for(sm, t.machines[kk].name) is Some
            && 0 <= j < schema_for(sm, t.machines[kk].name)->Some_0.len()
            && schema_for(sm, t.machines[kk].name)->Some_0[j].dir == PortDir::Out
            && (forall|i: int| 0 <= i < t.links.len() ==> t.links[i].out
                != (t.machines[kk].name, schema_for(sm, t.machines[kk].name)->Some_0[j].name@))
            && x == #[trigger] unused_port_finding(t.machines[kk].name, schema_for(sm, t.machines[kk].name)->Some_0[j].name@),
{
    lemma_unused_findings_members(t, sm, t.machines.len() as int);
    assert forall|kk: int, j: int| 0 <= kk < t.machines.len() && schema_for(sm, t.machines[kk].name) is Some
        && 0 <= j < schema_for(sm, t.machines[kk].name)->Some_0.len()
        && schema_for(sm, t.machines[kk].name)->Some_0[j].dir == PortDir::Out
        && (forall|i: int| 0 <= i < t.links.len() ==> #[trigger] t.links[i].out
            != (t.machines[kk].name, schema_for(sm, t.machines[kk].name)->Some_0[j].name@))
        implies rule_findings(t, Some(sm), 1).contains(
            #[trigger] unused_port_finding(t.machines[kk].name, schema_for(sm, t.machines[kk].name)->Some_0[j].name@)) by {
        let m = t.machines[kk].name;
        let x = unused_port_finding(m, schema_for(sm, m)->Some_0[j].name@);
        assert(flags_port(t, sm, kk, j, x));
    }
    assert forall|x: RuleViolationView| #[trigger] rule_findings(t, Some(sm), 1).contains(x) implies exists|kk: int, j: int|
        0 <= kk < t.machines.len() && schema_for(sm, t.machines[kk].name) is Some
        && 0 <= j < schema_for(sm, t.machines[kk].name)->Some_0.len()
        && schema_for(sm, t.machines[kk].name)->Some_0[j].dir == PortDir::Out
        && (forall|i: int| 0 <= i < t.links.len() ==> t.links[i].out
            != (t.machines[kk].name, schema_for(sm, t.machines[kk].name)->Some_0[j].name@))
        && x == #[trigger] unused_port_finding(t.machines[kk].name, schema_for(sm, t.machines[kk].name)->Some_0[j].name@) by {
        let (kk, j) = choose|kk: int, j: int| kk < t.machines.len() && #[trigger] flags_port(t, sm, kk, j, x);
        let m = t.machines[kk].name;
        let p = schema_for(sm, m)->Some_0[j].name@;
        assert forall|i: int| 0 <= i < t.links.len() implies t.links[i].out != (m, p) by {
            if t.links[i].out == (m, p) {
                assert(port_consumed(t, m, p));
            }
        }
    }
}

} // verus!
