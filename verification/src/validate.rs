//! Validation of a deployment: the structural checks, the deep checks that
//! need the machines' port schemas, and the report that collects every
//! violation instead of stopping at the first.
use vstd::prelude::*;
use vstd::string::StringExecFns;
use crate::deploy::{DynamicTopology, TopologyView};
use crate::flow::{CarrierCompatibility, CarrierCompatResult, FlowKind, flow_preference};
use crate::link::{LinkKind, LinkSpecView, WritePolicy};
use crate::analysis::{
    ranks_names, is_machine, inline_links, names_acyclic, non_moore_link, inline_link, is_name_cycle, on_cycle_names, node_order, first_non_moore_cycle,
    is_degree_violation, violation_before, degree_limited, degree_of, lists_violation, reports_violation,
    degree_violations, inline_cycle, DegreeViolation, DegreeViolationView, tag_name, dir_name,
};
use crate::deploy::CycleRule;
use crate::port::{PortDecl, PortDir, PortSchema, SchemaMap, LinkCompat, CompatVerdict, compat_view, compat_verdict, schema_for, port_named};
use crate::flow::flow_name;
use crate::link::link_kind_name;
use crate::resource::{ExecutionHint, dedicated_threads};
use crate::seq_util::{first_idx, lemma_first_idx_is, lemma_first_idx_none};
use crate::strings::{decimal, decimal_string, join, join_strings, str_debug, debug_str};

verus! {

// ── The materialization compatibility matrix ────────────────────────────

/// The `(FlowKind, LinkKind)` matrix. `Data` takes any carrier. `Observe`
/// must not back-pressure its source: a blocking `BoundedBuf` or a
/// non-dropping `Channel` violates it, `Inline` is permitted, the others
/// are recommended. `Control` is latest-wins: `Latest`, a dropping or
/// overwriting `BoundedBuf` and a dropping `Channel` are recommended, the
/// lossless and same-thread carriers permitted.
pub open spec fn carrier_verdict(flow: FlowKind, kind: LinkKind) -> CarrierCompatResult {
    match flow_preference(flow) {
        CarrierCompatibility::Any => CarrierCompatResult::Recommended,
        CarrierCompatibility::NonBlocking => match kind {
            LinkKind::BoundedBuf { write_policy, .. } => if write_policy == WritePolicy::Blocking {
                CarrierCompatResult::Violates
            } else {
                CarrierCompatResult::Recommended
            },
            LinkKind::Channel { drop_when_full, .. } => if drop_when_full {
                CarrierCompatResult::Recommended
            } else {
                CarrierCompatResult::Violates
            },
            LinkKind::Inline => CarrierCompatResult::Permitted,
            _ => CarrierCompatResult::Recommended,
        },
        CarrierCompatibility::LatestWins => match kind {
            LinkKind::Latest { .. } => CarrierCompatResult::Recommended,
            LinkKind::BoundedBuf { write_policy, .. } => if write_policy == WritePolicy::Blocking {
                CarrierCompatResult::Permitted
            } else {
                CarrierCompatResult::Recommended
            },
            LinkKind::Channel { drop_when_full, .. } => if drop_when_full {
                CarrierCompatResult::Recommended
            } else {
                CarrierCompatResult::Permitted
            },
            _ => CarrierCompatResult::Permitted,
        },
    }
}

/// Classifies carrier `kind` against the preference of flow kind `flow`.
pub fn carrier_compatible(flow: FlowKind, kind: &LinkKind) -> (r: CarrierCompatResult)
    ensures
        r == carrier_verdict(flow, *kind),
{
    match flow.carrier_compatibility() {
        CarrierCompatibility::Any => CarrierCompatResult::Recommended,
        CarrierCompatibility::NonBlocking => match kind {
            LinkKind::BoundedBuf { write_policy, .. } => match write_policy {
                WritePolicy::Blocking => CarrierCompatResult::Violates,
                WritePolicy::Dropping | WritePolicy::Overwriting => CarrierCompatResult::Recommended,
            },
            LinkKind::Channel { drop_when_full, .. } => {
                if *drop_when_full {
                    CarrierCompatResult::Recommended
                } else {
                    CarrierCompatResult::Violates
                }
            },
            LinkKind::Inline => CarrierCompatResult::Permitted,
            LinkKind::Latest { .. } | LinkKind::CasFreeRing { .. } | LinkKind::SharedState => CarrierCompatResult::Recommended,
        },
        CarrierCompatibility::LatestWins => match kind {
            LinkKind::Latest { .. } => CarrierCompatResult::Recommended,
            LinkKind::BoundedBuf { write_policy, .. } => match write_policy {
                WritePolicy::Blocking => CarrierCompatResult::Permitted,
                WritePolicy::Dropping | WritePolicy::Overwriting => CarrierCompatResult::Recommended,
            },
            LinkKind::Channel { drop_when_full, .. } => {
                if *drop_when_full {
                    CarrierCompatResult::Recommended
                } else {
                    CarrierCompatResult::Permitted
                }
            },
            LinkKind::Inline | LinkKind::CasFreeRing { .. } | LinkKind::SharedState => CarrierCompatResult::Permitted,
        },
    }
}

// ── Errors ──────────────────────────────────────────────────────────────

/// Why a deployment is invalid.
#[derive(Debug)]
pub enum ValidationError {
    /// A link or a deep check names a machine that is not declared (or has
    /// no schema).
    UnknownMachine(String),
    /// A machine name or a function name occurs twice.
    DuplicateName(String),
    /// A machine links to itself.
    SelfLoop(String),
    /// An output port links to more than one target; fan-out must go through
    /// an explicit Tee machine.
    FanOutViaTee { src_machine: String, src_port: String },
    /// A link names a port that the machine's schema does not declare.
    UnknownPort { machine: String, port: String },
    /// The two ends of a link cannot be linked.
    LinkTypeMismatch { out: (String, String), into: (String, String), reason: String },
    /// The dedicated threads exceed the CPU threads of the deployment.
    ResourceBudgetExceeded { requested_threads: usize, available_threads: usize },
    /// A cycle passes through no Moore machine: an algebraic loop.
    UnsafeCycle { cycle: Vec<String> },
    /// A port has more links of a kind than that kind allows.
    DegreeConstraintViolated {
        machine: String,
        port: String,
        link_kind: String,
        direction: String,
        limit: usize,
        actual: usize,
    },
    /// Inline links form a cycle: a synchronous call that never returns.
    InlineCycle { cycle: Vec<String> },
    /// An annotated edge's carrier contradicts its flow kind.
    CarrierViolatesSemantics {
        out: (String, String),
        into: (String, String),
        flow: &'static str,
        carrier: String,
        reason: String,
    },
}

/// The value of a validation error, names by their characters.
pub enum ValidationErrorView {
    UnknownMachine(Seq<char>),
    DuplicateName(Seq<char>),
    SelfLoop(Seq<char>),
    FanOutViaTee { src_machine: Seq<char>, src_port: Seq<char> },
    UnknownPort { machine: Seq<char>, port: Seq<char> },
    LinkTypeMismatch { out: (Seq<char>, Seq<char>), into: (Seq<char>, Seq<char>), reason: Seq<char> },
    ResourceBudgetExceeded { requested_threads: usize, available_threads: usize },
    UnsafeCycle { cycle: Seq<Seq<char>> },
    DegreeConstraintViolated {
        machine: Seq<char>,
        port: Seq<char>,
        link_kind: Seq<char>,
        direction: Seq<char>,
        limit: usize,
        actual: usize,
    },
    InlineCycle { cycle: Seq<Seq<char>> },
    CarrierViolatesSemantics {
        out: (Seq<char>, Seq<char>),
        into: (Seq<char>, Seq<char>),
        flow: Seq<char>,
        carrier: Seq<char>,
        reason: Seq<char>,
    },
}

/// The characters of a vector of names.
pub open spec fn strs(v: Vec<String>) -> Seq<Seq<char>> {
    v@.map_values(|s: String| s@)
}

impl View for ValidationError {
    type V = ValidationErrorView;

    open spec fn view(&self) -> ValidationErrorView {
        match self {
            ValidationError::UnknownMachine(n) => ValidationErrorView::UnknownMachine(n@),
            ValidationError::DuplicateName(n) => ValidationErrorView::DuplicateName(n@),
            ValidationError::SelfLoop(n) => ValidationErrorView::SelfLoop(n@),
            ValidationError::FanOutViaTee { src_machine, src_port } => ValidationErrorView::FanOutViaTee {
                src_machine: src_machine@,
                src_port: src_port@,
            },
            ValidationError::UnknownPort { machine, port } => ValidationErrorView::UnknownPort { machine: machine@, port: port@ },
            ValidationError::LinkTypeMismatch { out, into, reason } => ValidationErrorView::LinkTypeMismatch {
                out: (out.0@, out.1@),
                into: (into.0@, into.1@),
                reason: reason@,
            },
            ValidationError::ResourceBudgetExceeded { requested_threads, available_threads } =>
                ValidationErrorView::ResourceBudgetExceeded {
                requested_threads: *requested_threads,
                available_threads: *available_threads,
            },
            ValidationError::UnsafeCycle { cycle } => ValidationErrorView::UnsafeCycle { cycle: strs(*cycle) },
            ValidationError::DegreeConstraintViolated { machine, port, link_kind, direction, limit, actual } =>
                ValidationErrorView::DegreeConstraintViolated {
                machine: machine@,
                port: port@,
                link_kind: link_kind@,
                direction: direction@,
                limit: *limit,
                actual: *actual,
            },
            ValidationError::InlineCycle { cycle } => ValidationErrorView::InlineCycle { cycle: strs(*cycle) },
            ValidationError::CarrierViolatesSemantics { out, into, flow, carrier, reason } =>
                ValidationErrorView::CarrierViolatesSemantics {
                out: (out.0@, out.1@),
                into: (into.0@, into.1@),
                flow: flow@,
                carrier: carrier@,
                reason: reason@,
            },
        }
    }
}

/// The value of a validation result.
pub open spec fn verdict(r: Result<(), ValidationError>) -> Result<(), ValidationErrorView> {
    match r {
        Ok(()) => Ok(()),
        Err(e) => Err(e@),
    }
}

// ── Structural validation ───────────────────────────────────────────────

/// Whether the machine at `i` repeats the name of an earlier machine.
pub open spec fn machine_dup_at(t: TopologyView, i: int) -> bool {
    exists|j: int| 0 <= j < i && #[trigger] t.machines[j].name == t.machines[i].name
}

/// Whether the function binding at `i` repeats the name of a machine or of
/// an earlier function binding: names are unique over the machines and the
/// functions together.
pub open spec fn func_dup_at(t: TopologyView, i: int) -> bool {
    ||| is_machine(t, t.funcs[i].name)
    ||| exists|j: int| 0 <= j < i && #[trigger] t.funcs[j].name == t.funcs[i].name
}

/// Whether `name` is a declared function binding.
pub open spec fn is_func(t: TopologyView, name: Seq<char>) -> bool {
    exists|j: int| 0 <= j < t.funcs.len() && #[trigger] t.funcs[j].name == name
}

/// Whether `name` is a declared machine or function binding.
pub open spec fn is_known(t: TopologyView, name: Seq<char>) -> bool {
    is_machine(t, name) || is_func(t, name)
}

/// Whether the link at `i` loops on one machine or names an undeclared one.
pub open spec fn link_bad_at(t: TopologyView, i: int) -> bool {
    let l = t.links[i];
    l.out.0 == l.into.0 || !is_known(t, l.out.0) || !is_known(t, l.into.0)
}

/// The error of a bad link: its self-loop, else its unknown source, else
/// its unknown target.
pub open spec fn link_error(t: TopologyView, i: int) -> ValidationErrorView {
    let l = t.links[i];
    if l.out.0 == l.into.0 {
        ValidationErrorView::SelfLoop(l.out.0)
    } else if !is_known(t, l.out.0) {
        ValidationErrorView::UnknownMachine(l.out.0)
    } else {
        ValidationErrorView::UnknownMachine(l.into.0)
    }
}

/// Whether the link at `i` leaves an output port that an earlier link
/// already leaves.
pub open spec fn fanout_at(t: TopologyView, i: int) -> bool {
    exists|j: int| 0 <= j < i && #[trigger] t.links[j].out == t.links[i].out
}

/// The structural verdict, checking in order: duplicate machine names,
/// duplicate function names, each link for a self-loop or an unknown
/// source or target, and implicit fan-out.
pub open spec fn structural_verdict(t: TopologyView) -> Result<(), ValidationErrorView> {
    let dm = first_idx(t.machines.len() as int, |i: int| machine_dup_at(t, i), 0);
    let df = first_idx(t.funcs.len() as int, |i: int| func_dup_at(t, i), 0);
    let bl = first_idx(t.links.len() as int, |i: int| link_bad_at(t, i), 0);
    let fo = first_idx(t.links.len() as int, |i: int| fanout_at(t, i), 0);
    if dm >= 0 {
        Err(ValidationErrorView::DuplicateName(t.machines[dm].name))
    } else if df >= 0 {
        Err(ValidationErrorView::DuplicateName(t.funcs[df].name))
    } else if bl >= 0 {
        Err(link_error(t, bl))
    } else if fo >= 0 {
        Err(ValidationErrorView::FanOutViaTee { src_machine: t.links[fo].out.0, src_port: t.links[fo].out.1 })
    } else {
        Ok(())
    }
}

impl DynamicTopology {
    /// Whether `name` is a declared machine or function binding.
    fn knows(&self, name: &String) -> (r: bool)
        ensures
            r == is_known(self@, name@),
    {
        let ghost t = self@;
        let mut j: usize = 0;
        while j < self.machines.len()
            invariant
                j <= self.machines.len(),
                t == self@,
                forall|k: int| 0 <= k < j ==> #[trigger] t.machines[k].name != name@,
            decreases self.machines.len() - j,
        {
            proof {
                assert(t.machines[j as int] == self.machines@[j as int]@);
            }
            if self.machines[j].name == *name {
                proof {
                    assert(t.machines[j as int].name == name@);
                }
                return true;
            }
            j = j + 1;
        }
        let mut j: usize = 0;
        while j < self.funcs.len()
            invariant
                j <= self.funcs.len(),
                t == self@,
                forall|k: int| 0 <= k < t.machines.len() ==> #[trigger] t.machines[k].name != name@,
                forall|k: int| 0 <= k < j ==> #[trigger] t.funcs[k].name != name@,
            decreases self.funcs.len() - j,
        {
            proof {
                assert(t.funcs[j as int] == self.funcs@[j as int]@);
            }
            if self.funcs[j].name == *name {
                proof {
                    assert(t.funcs[j as int].name == name@);
                }
                return true;
            }
            j = j + 1;
        }
        false
    }

    /// Structural validation: machine and function names unique, every link
    /// between declared machines or functions and not a self-loop, and no
    /// output port linked twice (fan-out goes through an explicit Tee).
    /// Cycles between different machines are allowed here.
    pub fn validate(&self) -> (r: Result<(), ValidationError>)
        ensures
            verdict(r) == structural_verdict(self@),
    {
        let ghost t = self@;
        let ghost pm = |i: int| machine_dup_at(t, i);
        let ghost pf = |i: int| func_dup_at(t, i);
        let ghost pl = |i: int| link_bad_at(t, i);
        let ghost po = |i: int| fanout_at(t, i);
        // 1. Unique names.
        let mut i: usize = 0;
        while i < self.machines.len()
            invariant
                i <= self.machines.len(),
                t == self@,
                pm == (|i: int| machine_dup_at(t, i)),
                forall|k: int| 0 <= k < i ==> !#[trigger] pm(k),
            decreases self.machines.len() - i,
        {
            let mut j: usize = 0;
            while j < i
                invariant
                    j <= i < self.machines.len(),
                    t == self@,
                    pm == (|i: int| machine_dup_at(t, i)),
                    forall|k: int| 0 <= k < i ==> !#[trigger] pm(k),
                    forall|k: int| 0 <= k < j ==> #[trigger] t.machines[k].name != t.machines[i as int].name,
                decreases i - j,
            {
                proof {
                    assert(t.machines[j as int] == self.machines@[j as int]@);
                    assert(t.machines[i as int] == self.machines@[i as int]@);
                }
                if self.machines[j].name == self.machines[i].name {
                    proof {
                        assert(t.machines[j as int].name == t.machines[i as int].name);
                        assert(pm(i as int));
                        lemma_first_idx_is(t.machines.len() as int, pm, i as int);
                    }
                    return Err(ValidationError::DuplicateName(self.machines[i].name.clone()));
                }
                j = j + 1;
            }
            i = i + 1;
        }
        proof {
            lemma_first_idx_none(t.machines.len() as int, pm);
        }
        let mut i: usize = 0;
        while i < self.funcs.len()
            invariant
                i <= self.funcs.len(),
                t == self@,
                pm == (|i: int| machine_dup_at(t, i)),
                pf == (|i: int| func_dup_at(t, i)),
                first_idx(t.machines.len() as int, pm, 0) == -1,
                forall|k: int| 0 <= k < i ==> !#[trigger] pf(k),
            decreases self.funcs.len() - i,
        {
            proof {
                assert(t.funcs[i as int] == self.funcs@[i as int]@);
            }
            if crate::composite::has_machine(self, self.funcs[i].name.as_str()) {
                proof {
                    assert(pf(i as int));
                    lemma_first_idx_is(t.funcs.len() as int, pf, i as int);
                }
                return Err(ValidationError::DuplicateName(self.funcs[i].name.clone()));
            }
            let mut j: usize = 0;
            while j < i
                invariant
                    j <= i < self.funcs.len(),
                    t == self@,
                    pm == (|i: int| machine_dup_at(t, i)),
                    pf == (|i: int| func_dup_at(t, i)),
                    first_idx(t.machines.len() as int, pm, 0) == -1,
                    forall|k: int| 0 <= k < i ==> !#[trigger] pf(k),
                    !is_machine(t, t.funcs[i as int].name),
                    forall|k: int| 0 <= k < j ==> #[trigger] t.funcs[k].name != t.funcs[i as int].name,
                decreases i - j,
            {
                proof {
                    assert(t.funcs[j as int] == self.funcs@[j as int]@);
                    assert(t.funcs[i as int] == self.funcs@[i as int]@);
                }
                if self.funcs[j].name == self.funcs[i].name {
                    proof {
                        assert(t.funcs[j as int].name == t.funcs[i as int].name);
                        assert(pf(i as int));
                        lemma_first_idx_is(t.funcs.len() as int, pf, i as int);
                    }
                    return Err(ValidationError::DuplicateName(self.funcs[i].name.clone()));
                }
                j = j + 1;
            }
            i = i + 1;
        }
        proof {
            lemma_first_idx_none(t.funcs.len() as int, pf);
        }
        // 2. Declared ends, no self-loop.
        let mut i: usize = 0;
        while i < self.links.len()
            invariant
                i <= self.links.len(),
                t == self@,
                pm == (|i: int| machine_dup_at(t, i)),
                pf == (|i: int| func_dup_at(t, i)),
                pl == (|i: int| link_bad_at(t, i)),
                first_idx(t.machines.len() as int, pm, 0) == -1,
                first_idx(t.funcs.len() as int, pf, 0) == -1,
                forall|k: int| 0 <= k < i ==> !#[trigger] pl(k),
            decreases self.links.len() - i,
        {
            let l = &self.links[i];
            proof {
                assert(t.links[i as int] == l@);
            }
            let self_loop = l.out.0 == l.into.0;
            let src_known = self.knows(&l.out.0);
            let dst_known = self.knows(&l.into.0);
            if self_loop || !src_known || !dst_known {
                proof {
                    assert(pl(i as int));
                    lemma_first_idx_is(t.links.len() as int, pl, i as int);
                }
                if self_loop {
                    return Err(ValidationError::SelfLoop(l.out.0.clone()));
                }
                if !src_known {
                    return Err(ValidationError::UnknownMachine(l.out.0.clone()));
                }
                return Err(ValidationError::UnknownMachine(l.into.0.clone()));
            }
            i = i + 1;
        }
        proof {
            lemma_first_idx_none(t.links.len() as int, pl);
        }
        // 3. No implicit fan-out.
        let mut i: usize = 0;
        while i < self.links.len()
            invariant
                i <= self.links.len(),
                t == self@,
                pm == (|i: int| machine_dup_at(t, i)),
                pf == (|i: int| func_dup_at(t, i)),
                pl == (|i: int| link_bad_at(t, i)),
                po == (|i: int| fanout_at(t, i)),
                first_idx(t.machines.len() as int, pm, 0) == -1,
                first_idx(t.funcs.len() as int, pf, 0) == -1,
                first_idx(t.links.len() as int, pl, 0) == -1,
                forall|k: int| 0 <= k < i ==> !#[trigger] po(k),
            decreases self.links.len() - i,
        {
            let mut j: usize = 0;
            while j < i
                invariant
                    j <= i < self.links.len(),
                    t == self@,
                    pm == (|i: int| machine_dup_at(t, i)),
                    pf == (|i: int| func_dup_at(t, i)),
                    pl == (|i: int| link_bad_at(t, i)),
                    po == (|i: int| fanout_at(t, i)),
                    first_idx(t.machines.len() as int, pm, 0) == -1,
                    first_idx(t.funcs.len() as int, pf, 0) == -1,
                    first_idx(t.links.len() as int, pl, 0) == -1,
                    forall|k: int| 0 <= k < i ==> !#[trigger] po(k),
                    forall|k: int| 0 <= k < j ==> #[trigger] t.links[k].out != t.links[i as int].out,
                decreases i - j,
            {
                proof {
                    assert(t.links[j as int] == self.links@[j as int]@);
                    assert(t.links[i as int] == self.links@[i as int]@);
                }
                if self.links[j].out.0 == self.links[i].out.0 && self.links[j].out.1 == self.links[i].out.1 {
                    proof {
                        assert(t.links[j as int].out == t.links[i as int].out);
                        assert(po(i as int));
                        lemma_first_idx_is(t.links.len() as int, po, i as int);
                    }
                    return Err(ValidationError::FanOutViaTee {
                        src_machine: self.links[i].out.0.clone(),
                        src_port: self.links[i].out.1.clone(),
                    });
                }
                j = j + 1;
            }
            i = i + 1;
        }
        proof {
            lemma_first_idx_none(t.links.len() as int, po);
        }
        Ok(())
    }
}

// ── Deep validation ─────────────────────────────────────────────────────

/// The reason given when an Observe edge rides a blocking carrier.
pub open spec fn backpressure_reason(flow: FlowKind) -> Seq<char> {
    flow_name(flow) + " flow must not be back-pressured, but carrier blocks the producer"@
}

/// The error of link `i` against the schemas, checking in order: a schema
/// for the source machine, for the target machine, the source port, the
/// target port, the source port an output, the target port an input, the
/// ports compatible, and the carrier not violating the source's flow kind.
pub open spec fn link_deep_error(t: TopologyView, sm: Seq<(Seq<char>, Seq<PortDecl>)>, i: int) -> Option<ValidationErrorView> {
    let l = t.links[i];
    match schema_for(sm, l.out.0) {
        None => Some(ValidationErrorView::UnknownMachine(l.out.0)),
        Some(ss) => match schema_for(sm, l.into.0) {
            None => Some(ValidationErrorView::UnknownMachine(l.into.0)),
            Some(ds) => match port_named(ss, l.out.1) {
                None => Some(ValidationErrorView::UnknownPort { machine: l.out.0, port: l.out.1 }),
                Some(sp) => match port_named(ds, l.into.1) {
                    None => Some(ValidationErrorView::UnknownPort { machine: l.into.0, port: l.into.1 }),
                    Some(dp) => if sp.dir != PortDir::Out {
                        Some(ValidationErrorView::LinkTypeMismatch { out: l.out, into: l.into, reason: "source port is not an output"@ })
                    } else if dp.dir != PortDir::In {
                        Some(ValidationErrorView::LinkTypeMismatch { out: l.out, into: l.into, reason: "target port is not an input"@ })
                    } else if compat_verdict(sp, dp) is Incompatible {
                        Some(ValidationErrorView::LinkTypeMismatch { out: l.out, into: l.into, reason: compat_verdict(sp, dp)->Incompatible_0 })
                    } else if carrier_verdict(sp.flow, l.kind) == CarrierCompatResult::Violates {
                        Some(ValidationErrorView::CarrierViolatesSemantics {
                            out: l.out,
                            into: l.into,
                            flow: flow_name(sp.flow),
                            carrier: link_kind_name(l.kind),
                            reason: backpressure_reason(sp.flow),
                        })
                    } else {
                        None
                    },
                },
            },
        },
    }
}

/// Whether link `i` fails against the schemas.
pub open spec fn link_fails(t: TopologyView, sm: Seq<(Seq<char>, Seq<PortDecl>)>) -> spec_fn(int) -> bool {
    |i: int| link_deep_error(t, sm, i) is Some
}

/// The dedicated CPU threads of the first `k` machines.
pub open spec fn threads_below(t: TopologyView, k: int) -> nat
    decreases k,
{
    if k <= 0 {
        0
    } else {
        threads_below(t, k - 1) + dedicated_threads(t.machines[k - 1].physical.execution)
    }
}

/// The dedicated CPU threads of all machines.
pub open spec fn total_threads(t: TopologyView) -> nat {
    threads_below(t, t.machines.len() as int)
}

/// Whether some port exceeds the degree limit of some link kind.
pub open spec fn has_degree_violation(t: TopologyView) -> bool {
    exists|m: Seq<char>, p: Seq<char>, tag: int, out: bool| degree_limited(tag, out) && #[trigger] degree_of(t, m, p, out, tag) > 1
}

/// The stage at which deep validation fails, if any.
pub enum DeepFailure {
    /// A structural check fails, or a link fails against the schemas.
    Error(ValidationErrorView),
    /// The dedicated threads exceed the available ones.
    Budget(nat, usize),
    /// A cycle passes through no Moore machine.
    UnsafeCycle,
    /// A port exceeds a degree limit.
    Degree,
    /// Inline links form a cycle.
    InlineCycle,
    /// Every check passes.
    Valid,
}

/// The first failing stage of deep validation: the structural checks, each
/// link against the schemas, the thread budget, the Moore rule on cycles
/// (where `rule` requires it), the degree limits, acyclic Inline links.
pub open spec fn deep_failure(t: TopologyView, sm: Seq<(Seq<char>, Seq<PortDecl>)>, rule: CycleRule) -> DeepFailure {
    let le = first_idx(t.links.len() as int, link_fails(t, sm), 0);
    if structural_verdict(t) is Err {
        DeepFailure::Error(structural_verdict(t)->Err_0)
    } else if le >= 0 {
        DeepFailure::Error(link_deep_error(t, sm, le)->Some_0)
    } else if total_threads(t) > t.settings.cpu_threads {
        DeepFailure::Budget(total_threads(t), t.settings.cpu_threads)
    } else if rule == CycleRule::RequireMoore && !names_acyclic(t, non_moore_link(t)) {
        DeepFailure::UnsafeCycle
    } else if has_degree_violation(t) {
        DeepFailure::Degree
    } else if !names_acyclic(t, inline_links()) {
        DeepFailure::InlineCycle
    } else {
        DeepFailure::Valid
    }
}

/// Whether `v` is the first degree violation, in the order of machine,
/// port, kind and direction.
pub open spec fn first_degree_violation(t: TopologyView, v: DegreeViolationView) -> bool {
    &&& is_degree_violation(t, v)
    &&& forall|w: DegreeViolationView| #[trigger] is_degree_violation(t, w) && w != v ==> violation_before(v, w)
}

/// Whether `c` names the cycle among non-Moore machines that the
/// depth-first search over the machines in order of name meets first.
pub open spec fn first_cycle_is(t: TopologyView, c: Seq<Seq<char>>) -> bool {
    exists|nodes: Seq<Seq<char>>| #[trigger] node_order(t, nodes) && first_non_moore_cycle(t, nodes) == Some(c)
}

/// Whether deep validation answered `r` for the failing stage `f`.
pub open spec fn deep_answer(t: TopologyView, f: DeepFailure, r: Result<(), ValidationError>) -> bool {
    match f {
        DeepFailure::Error(e) => verdict(r) == Err::<(), ValidationErrorView>(e),
        DeepFailure::Budget(req, avail) => verdict(r) == Err::<(), ValidationErrorView>(
            ValidationErrorView::ResourceBudgetExceeded { requested_threads: req as usize, available_threads: avail },
        ),
        DeepFailure::UnsafeCycle => r matches Err(ValidationError::UnsafeCycle { cycle }) && is_name_cycle(t, non_moore_link(t), strs(cycle))
            && first_cycle_is(t, strs(cycle)),
        DeepFailure::Degree => r matches Err(ValidationError::DegreeConstraintViolated { machine, port, link_kind, direction, limit, actual })
            && first_degree_violation(t, DegreeViolationView {
                machine: machine@,
                port: port@,
                link_kind: link_kind@,
                direction: direction@,
                limit: limit,
                actual: actual,
            }),
        DeepFailure::InlineCycle => r matches Err(ValidationError::InlineCycle { cycle })
            && on_cycle_names(t, inline_links(), strs(cycle)),
        DeepFailure::Valid => r is Ok,
    }
}

/// The wording of a carrier that back-pressures an Observe edge.
fn backpressure_text(flow: FlowKind) -> (s: String)
    ensures
        s@ == backpressure_reason(flow),
{
    let s = String::from_str(flow.as_str());
    s.concat(" flow must not be back-pressured, but carrier blocks the producer")
}

impl DynamicTopology {
    /// The error of link `i` against the schemas, if any.
    fn link_check(&self, schemas: &SchemaMap, i: usize) -> (r: Option<ValidationError>)
        requires
            i < self.links.len(),
        ensures
            match r {
                Some(e) => link_deep_error(self@, schemas@, i as int) == Some(e@),
                None => link_deep_error(self@, schemas@, i as int) is None,
            },
    {
        let l = &self.links[i];
        proof {
            assert(self@.links[i as int] == l@);
        }
        let src_schema = match schemas.get(l.out.0.as_str()) {
            Some(s) => s,
            None => {
                return Some(ValidationError::UnknownMachine(l.out.0.clone()));
            },
        };
        let dst_schema = match schemas.get(l.into.0.as_str()) {
            Some(s) => s,
            None => {
                return Some(ValidationError::UnknownMachine(l.into.0.clone()));
            },
        };
        let src_port = match src_schema.find(l.out.1.as_str()) {
            Some(p) => p,
            None => {
                return Some(ValidationError::UnknownPort { machine: l.out.0.clone(), port: l.out.1.clone() });
            },
        };
        let dst_port = match dst_schema.find(l.into.1.as_str()) {
            Some(p) => p,
            None => {
                return Some(ValidationError::UnknownPort { machine: l.into.0.clone(), port: l.into.1.clone() });
            },
        };
        let out = (l.out.0.clone(), l.out.1.clone());
        let into = (l.into.0.clone(), l.into.1.clone());
        if src_port.dir != PortDir::Out {
            return Some(ValidationError::LinkTypeMismatch {
                out,
                into,
                reason: String::from_str("source port is not an output"),
            });
        }
        if dst_port.dir != PortDir::In {
            return Some(ValidationError::LinkTypeMismatch {
                out,
                into,
                reason: String::from_str("target port is not an input"),
            });
        }
        match src_port.can_link_to(dst_port) {
            LinkCompat::Incompatible { reason } => {
                return Some(ValidationError::LinkTypeMismatch { out, into, reason: String::from_str(reason) });
            },
            LinkCompat::Compatible | LinkCompat::Migrate { .. } => {},
        }
        match carrier_compatible(src_port.flow, &l.kind) {
            CarrierCompatResult::Violates => Some(ValidationError::CarrierViolatesSemantics {
                out,
                into,
                flow: src_port.flow.as_str(),
                carrier: String::from_str(l.kind.name()),
                reason: backpressure_text(src_port.flow),
            }),
            CarrierCompatResult::Recommended | CarrierCompatResult::Permitted => None,
        }
    }

    /// The dedicated CPU threads of all machines.
    fn dedicated_thread_total(&self) -> (n: usize)
        requires
            total_threads(self@) <= usize::MAX,
        ensures
            n == total_threads(self@),
    {
        let ghost t = self@;
        let mut n: usize = 0;
        let mut k: usize = 0;
        while k < self.machines.len()
            invariant
                k <= self.machines.len(),
                t == self@,
                total_threads(t) <= usize::MAX,
                n == threads_below(t, k as int),
            decreases self.machines.len() - k,
        {
            proof {
                assert(t.machines[k as int] == self.machines@[k as int]@);
                lemma_threads_mono(t, k as int + 1, t.machines.len() as int);
            }
            let add = match &self.machines[k].physical.execution {
                ExecutionHint::CpuBound => 1,
                ExecutionHint::CpuBoundN(c) => *c,
                ExecutionHint::ThreadPool(spec) => spec.max_threads,
                ExecutionHint::Async | ExecutionHint::Subprocess(_) => 0,
            };
            n = n + add;
            k = k + 1;
        }
        n
    }

    /// Deep validation with the strict cycle rule: every cycle must pass
    /// through a Moore machine.
    pub fn validate_deep(&self, schemas: &SchemaMap) -> (r: Result<(), ValidationError>)
        requires
            total_threads(self@) <= usize::MAX,
        ensures
            deep_answer(self@, deep_failure(self@, schemas@, CycleRule::RequireMoore), r),
    {
        self.validate_deep_for(schemas, CycleRule::RequireMoore)
    }

    /// Deep validation: the structural checks, then each link against the
    /// machines' port schemas (ports declared, directions, compatibility,
    /// carrier), the thread budget, the Moore rule on cycles where `rule`
    /// requires it, the degree limits, and acyclic Inline links; the first
    /// failure is returned.
    pub fn validate_deep_for(&self, schemas: &SchemaMap, rule: CycleRule) -> (r: Result<(), ValidationError>)
        requires
            total_threads(self@) <= usize::MAX,
        ensures
            deep_answer(self@, deep_failure(self@, schemas@, rule), r),
    {
        let ghost t = self@;
        let ghost sm = schemas@;
        let ghost pl = link_fails(t, sm);
        match self.validate() {
            Err(e) => {
                return Err(e);
            },
            Ok(()) => {},
        }
        let mut i: usize = 0;
        while i < self.links.len()
            invariant
                i <= self.links.len(),
                t == self@,
                sm == schemas@,
                t.links.len() == self.links.len(),
                pl == link_fails(t, sm),
                structural_verdict(t) is Ok,
                forall|k: int| 0 <= k < i ==> !#[trigger] pl(k),
            decreases self.links.len() - i,
        {
            match self.link_check(schemas, i) {
                Some(e) => {
                    proof {
                        lemma_first_idx_is(t.links.len() as int, pl, i as int);
                    }
                    return Err(e);
                },
                None => {},
            }
            i = i + 1;
        }
        proof {
            lemma_first_idx_none(t.links.len() as int, pl);
        }
        let total = self.dedicated_thread_total();
        if total > self.settings.cpu_threads {
            return Err(ValidationError::ResourceBudgetExceeded {
                requested_threads: total,
                available_threads: self.settings.cpu_threads,
            });
        }
        if rule == CycleRule::RequireMoore {
            match self.find_non_moore_cycle() {
                Some(cycle) => {
                    return Err(ValidationError::UnsafeCycle { cycle });
                },
                None => {},
            }
        }
        let dv = degree_violations(self);
        if dv.len() > 0 {
            let v = dv[0].clone();
            proof {
                lemma_first_of_sorted(t, dv@.map_values(|x: DegreeViolation| x@));
            }
            return Err(ValidationError::DegreeConstraintViolated {
                machine: v.machine,
                port: v.port,
                link_kind: v.link_kind,
                direction: v.direction,
                limit: v.limit,
                actual: v.actual,
            });
        }
        proof {
            if has_degree_violation(t) {
                let (m, p, tag, out) = choose|m: Seq<char>, p: Seq<char>, tag: int, out: bool| degree_limited(tag, out) && #[trigger] degree_of(t, m, p, out, tag) > 1;
                assert(lists_violation(dv@.map_values(|x: DegreeViolation| x@), m, p, tag, out));
            }
        }
        match inline_cycle(self) {
            Some(cycle) => Err(ValidationError::InlineCycle { cycle }),
            None => Ok(()),
        }
    }
}

proof fn lemma_threads_mono(t: TopologyView, a: int, b: int)
    requires
        a <= b,
    ensures
        threads_below(t, a) <= threads_below(t, b),
    decreases b - a,
{
    if a < b {
        lemma_threads_mono(t, a, b - 1);
    }
}

/// The first element of the complete sorted list of degree violations is
/// the first degree violation.
proof fn lemma_first_of_sorted(t: TopologyView, vs: Seq<DegreeViolationView>)
    requires
        vs.len() > 0,
        forall|i: int| 0 <= i < vs.len() ==> is_degree_violation(t, #[trigger] vs[i]),
        forall|i: int, j: int| 0 <= i < j < vs.len() ==> violation_before(#[trigger] vs[i], #[trigger] vs[j]),
        forall|m: Seq<char>, p: Seq<char>, tag: int, out: bool| degree_limited(tag, out) && #[trigger] degree_of(t, m, p, out, tag) > 1
            ==> lists_violation(vs, m, p, tag, out),
    ensures
        first_degree_violation(t, vs[0]),
{
    assert(is_degree_violation(t, vs[0]));
    assert forall|w: DegreeViolationView| #[trigger] is_degree_violation(t, w) && w != vs[0] implies violation_before(vs[0], w) by {
        let (tag, out) = choose|tag: int, out: bool| #[trigger] reports_violation(t, w, tag, out);
        assert(degree_of(t, w.machine, w.port, out, tag) > 1);
        assert(lists_violation(vs, w.machine, w.port, tag, out));
        let i = choose|i: int| 0 <= i < vs.len() && #[trigger] vs[i].machine == w.machine && vs[i].port == w.port
            && vs[i].link_kind == tag_name(tag) && vs[i].direction == dir_name(out);
        let (tag2, out2) = choose|tag2: int, out2: bool| #[trigger] reports_violation(t, vs[i], tag2, out2);
        lemma_tag_names_distinct(tag, out, tag2, out2);
        assert(vs[i] == w);
        if i == 0 {
        } else {
            assert(violation_before(vs[0], vs[i]));
        }
    }
}

/// Distinct degree-limited (kind, direction) pairs have distinct names.
proof fn lemma_tag_names_distinct(tag: int, out: bool, tag2: int, out2: bool)
    requires
        degree_limited(tag, out),
        degree_limited(tag2, out2),
        tag_name(tag) == tag_name(tag2),
        dir_name(out) == dir_name(out2),
    ensures
        tag == tag2,
        out == out2,
{
    reveal_strlit("CasFreeRing");
    reveal_strlit("Channel");
    reveal_strlit("Inline");
    reveal_strlit("input");
    reveal_strlit("output");
    assert("CasFreeRing"@.len() == 11);
    assert("Channel"@.len() == 7);
    assert("Inline"@.len() == 6);
    assert("input"@.len() == 5);
    assert("output"@.len() == 6);
}

// ── Messages ────────────────────────────────────────────────────────────

/// The `Debug` text of a pair of names, such as `("a", "out")`: the two
/// names in `Debug` form, in brackets and separated by a comma.
pub open spec fn pair_debug(p: (Seq<char>, Seq<char>)) -> Seq<char> {
    "("@ + str_debug(p.0) + ", "@ + str_debug(p.1) + ")"@
}

/// The `Debug` text of a pair of strings.
fn debug_pair(p: &(String, String)) -> (s: String)
    ensures
        s@ == pair_debug((p.0@, p.1@)),
{
    let mut s = String::from_str("(");
    let a = debug_str(p.0.as_str());
    let b = debug_str(p.1.as_str());
    s.append(a.as_str());
    s.append(", ");
    s.append(b.as_str());
    s.append(")");
    s
}

/// The human-readable description of a validation error.
pub open spec fn error_text(e: ValidationErrorView) -> Seq<char> {
    match e {
        ValidationErrorView::UnknownMachine(n) => "unknown machine: "@ + n,
        ValidationErrorView::DuplicateName(n) => "duplicate name: "@ + n,
        ValidationErrorView::SelfLoop(n) => "machine '"@ + n + "' links to itself"@,
        ValidationErrorView::FanOutViaTee { src_machine, src_port } => "output port '"@ + src_port + "' on machine '"@
            + src_machine + "' links to multiple targets \u{2014} fan-out must be explicit (Split/CloneSplit/Tee machine)"@,
        ValidationErrorView::UnknownPort { machine, port } => "unknown port '"@ + port + "' on machine '"@ + machine + "'"@,
        ValidationErrorView::LinkTypeMismatch { out, into, reason } => "link type mismatch "@ + pair_debug(out) + " \u{2192} "@
            + pair_debug(into) + ": "@ + reason,
        ValidationErrorView::ResourceBudgetExceeded { requested_threads, available_threads } =>
            "resource budget exceeded: requested "@ + decimal(requested_threads as nat) + " threads, "@ + decimal(
            available_threads as nat,
        ) + " available"@,
        ValidationErrorView::UnsafeCycle { cycle } => "unsafe cycle with no Moore machine: "@ + join(cycle, " \u{2192} "@),
        ValidationErrorView::DegreeConstraintViolated { machine, port, link_kind, direction, limit, actual } =>
            "degree constraint violated: "@ + machine + "::"@ + port + " "@ + link_kind + " "@ + direction + " links (limit "@
            + decimal(limit as nat) + ", actual "@ + decimal(actual as nat) + ")"@,
        ValidationErrorView::InlineCycle { cycle } => "Inline edge cycle (deadlock): "@ + join(cycle, " \u{2192} "@),
        ValidationErrorView::CarrierViolatesSemantics { out, into, flow, carrier, reason } => "flow-kind "@ + str_debug(flow)
            + " \u{2192} carrier "@ + str_debug(carrier) + " violates semantics on "@ + pair_debug(out) + " \u{2192} "@
            + pair_debug(into) + ": "@ + reason,
    }
}

impl ValidationError {
    /// The human-readable description of this error.
    pub fn message(&self) -> (m: String)
        ensures
            m@ == error_text(self@),
    {
        match self {
            ValidationError::UnknownMachine(n) => String::from_str("unknown machine: ").concat(n.as_str()),
            ValidationError::DuplicateName(n) => String::from_str("duplicate name: ").concat(n.as_str()),
            ValidationError::SelfLoop(n) => String::from_str("machine '").concat(n.as_str()).concat("' links to itself"),
            ValidationError::FanOutViaTee { src_machine, src_port } => String::from_str("output port '").concat(
                src_port.as_str(),
            ).concat("' on machine '").concat(src_machine.as_str()).concat(
                "' links to multiple targets \u{2014} fan-out must be explicit (Split/CloneSplit/Tee machine)",
            ),
            ValidationError::UnknownPort { machine, port } => String::from_str("unknown port '").concat(port.as_str()).concat(
                "' on machine '",
            ).concat(machine.as_str()).concat("'"),
            ValidationError::LinkTypeMismatch { out, into, reason } => {
                let a = debug_pair(out);
                let b = debug_pair(into);
                String::from_str("link type mismatch ").concat(a.as_str()).concat(" \u{2192} ").concat(b.as_str()).concat(
                    ": ",
                ).concat(reason.as_str())
            },
            ValidationError::ResourceBudgetExceeded { requested_threads, available_threads } => {
                let r = decimal_string(*requested_threads as u64);
                let a = decimal_string(*available_threads as u64);
                String::from_str("resource budget exceeded: requested ").concat(r.as_str()).concat(" threads, ").concat(
                    a.as_str(),
                ).concat(" available")
            },
            ValidationError::UnsafeCycle { cycle } => {
                let j = join_strings(cycle, " \u{2192} ");
                String::from_str("unsafe cycle with no Moore machine: ").concat(j.as_str())
            },
            ValidationError::DegreeConstraintViolated { machine, port, link_kind, direction, limit, actual } => {
                let l = decimal_string(*limit as u64);
                let a = decimal_string(*actual as u64);
                String::from_str("degree constraint violated: ").concat(machine.as_str()).concat("::").concat(
                    port.as_str(),
                ).concat(" ").concat(link_kind.as_str()).concat(" ").concat(direction.as_str()).concat(
                    " links (limit ",
                ).concat(l.as_str()).concat(", actual ").concat(a.as_str()).concat(")")
            },
            ValidationError::InlineCycle { cycle } => {
                let j = join_strings(cycle, " \u{2192} ");
                String::from_str("Inline edge cycle (deadlock): ").concat(j.as_str())
            },
            ValidationError::CarrierViolatesSemantics { out, into, flow, carrier, reason } => {
                let f = debug_str(flow);
                let c = debug_str(carrier.as_str());
                let a = debug_pair(out);
                let b = debug_pair(into);
                String::from_str("flow-kind ").concat(f.as_str()).concat(" \u{2192} carrier ").concat(c.as_str()).concat(
                    " violates semantics on ",
                ).concat(a.as_str()).concat(" \u{2192} ").concat(b.as_str()).concat(": ").concat(reason.as_str())
            },
        }
    }
}

// ── The structured report ───────────────────────────────────────────────

/// One violated rule: a stable rule identifier, where in the blueprint the
/// offending element is (a JSON-path-like location), and what was expected
/// and found there.
#[derive(Debug)]
pub struct RuleViolation {
    pub rule_id: &'static str,
    pub path: String,
    pub expected: String,
    pub actual: String,
}

/// The value of a rule violation.
pub struct RuleViolationView {
    pub rule_id: Seq<char>,
    pub path: Seq<char>,
    pub expected: Seq<char>,
    pub actual: Seq<char>,
}

impl View for RuleViolation {
    type V = RuleViolationView;

    open spec fn view(&self) -> RuleViolationView {
        RuleViolationView { rule_id: self.rule_id@, path: self.path@, expected: self.expected@, actual: self.actual@ }
    }
}

impl Clone for RuleViolation {
    fn clone(&self) -> (r: Self)
        ensures
            r@ == self@,
    {
        RuleViolation {
            rule_id: self.rule_id,
            path: self.path.clone(),
            expected: self.expected.clone(),
            actual: self.actual.clone(),
        }
    }
}

/// A rule violation with the given parts.
pub open spec fn finding(rule_id: Seq<char>, path: Seq<char>, expected: Seq<char>, actual: Seq<char>) -> RuleViolationView {
    RuleViolationView { rule_id, path, expected, actual }
}

impl RuleViolation {
    /// A violation of rule `rule_id` at `path`.
    pub fn new(rule_id: &'static str, path: &str, expected: &str, actual: &str) -> (v: Self)
        ensures
            v@ == finding(rule_id@, path@, expected@, actual@),
    {
        RuleViolation {
            rule_id,
            path: String::from_str(path),
            expected: String::from_str(expected),
            actual: String::from_str(actual),
        }
    }

    /// `[rule_id] path: expected ..., got ...`.
    pub fn message(&self) -> (m: String)
        ensures
            m@ == "["@ + self.rule_id@ + "] "@ + self.path@ + ": expected "@ + self.expected@ + ", got "@ + self.actual@,
    {
        String::from_str("[").concat(self.rule_id).concat("] ").concat(self.path.as_str()).concat(": expected ").concat(
            self.expected.as_str(),
        ).concat(", got ").concat(self.actual.as_str())
    }
}

/// The hard violations and the advisory warnings of a deployment.
#[derive(Debug)]
pub struct ValidationReport {
    /// Hard violations: the blueprint is invalid.
    pub violations: Vec<RuleViolation>,
    /// Advisory warnings: valid, but needs runtime support.
    pub warnings: Vec<RuleViolation>,
}

/// The values of a sequence of rule violations.
pub open spec fn findings_of(v: Vec<RuleViolation>) -> Seq<RuleViolationView> {
    v@.map_values(|x: RuleViolation| x@)
}

impl Default for ValidationReport {
    fn default() -> (r: Self)
        ensures
            findings_of(r.violations) == Seq::<RuleViolationView>::empty(),
            findings_of(r.warnings) == Seq::<RuleViolationView>::empty(),
    {
        let r = ValidationReport { violations: Vec::new(), warnings: Vec::new() };
        assert(findings_of(r.violations) =~= Seq::<RuleViolationView>::empty());
        assert(findings_of(r.warnings) =~= Seq::<RuleViolationView>::empty());
        r
    }
}

impl ValidationReport {
    /// True when there is no hard violation (warnings are allowed).
    pub fn is_ok(&self) -> (r: bool)
        ensures
            r == (self.violations.len() == 0),
    {
        self.violations.len() == 0
    }

    /// Records a hard violation.
    pub fn push(&mut self, v: RuleViolation)
        ensures
            findings_of(final(self).violations) == findings_of(old(self).violations).push(v@),
            findings_of(final(self).warnings) == findings_of(old(self).warnings),
    {
        let ghost old_v = self.violations@;
        self.violations.push(v);
        assert(findings_of(self.violations) =~= old_v.map_values(|x: RuleViolation| x@).push(v@));
    }

    /// Records an advisory warning.
    pub fn warn(&mut self, v: RuleViolation)
        ensures
            findings_of(final(self).warnings) == findings_of(old(self).warnings).push(v@),
            findings_of(final(self).violations) == findings_of(old(self).violations),
    {
        let ghost old_w = self.warnings@;
        self.warnings.push(v);
        assert(findings_of(self.warnings) =~= old_w.map_values(|x: RuleViolation| x@).push(v@));
    }
}

// ── What the report holds ───────────────────────────────────────────────

/// `'name'`.
pub open spec fn quoted(s: Seq<char>) -> Seq<char> {
    "'"@ + s + "'"@
}

/// `prefix[i]suffix`.
pub open spec fn indexed(prefix: Seq<char>, i: int, suffix: Seq<char>) -> Seq<char> {
    prefix + "["@ + decimal(i as nat) + "]"@ + suffix
}

/// The name-uniqueness findings of the first `k` machines.
pub open spec fn machine_name_findings(t: TopologyView, k: int) -> Seq<RuleViolationView>
    decreases k,
{
    if k <= 0 {
        Seq::empty()
    } else {
        machine_name_findings(t, k - 1) + if machine_dup_at(t, k - 1) {
            seq![finding("name-unique"@, indexed("machines"@, k - 1, ".name"@), "machine names unique within deployment"@,
                "duplicate "@ + quoted(t.machines[k - 1].name))]
        } else {
            Seq::empty()
        }
    }
}

/// The name-uniqueness findings of the first `k` function bindings.
pub open spec fn func_name_findings(t: TopologyView, k: int) -> Seq<RuleViolationView>
    decreases k,
{
    if k <= 0 {
        Seq::empty()
    } else {
        func_name_findings(t, k - 1) + if func_dup_at(t, k - 1) {
            seq![finding("name-unique"@, indexed("funcs"@, k - 1, ".name"@), "func names unique within deployment"@,
                "duplicate "@ + quoted(t.funcs[k - 1].name))]
        } else {
            Seq::empty()
        }
    }
}

/// The endpoint findings of link `i`: self-loop, unknown source, unknown
/// target, each that applies.
pub open spec fn resolve_findings_at(t: TopologyView, i: int) -> Seq<RuleViolationView> {
    let l = t.links[i];
    (if l.out.0 == l.into.0 {
        seq![finding("link-self-loop"@, indexed("links"@, i, ""@), "source and target machines distinct"@, quoted(l.out.0) + " links to itself"@)]
    } else {
        Seq::empty()
    }) + (if !is_known(t, l.out.0) {
        seq![finding("link-resolve-machine"@, indexed("links"@, i, ".out[0]"@), "source machine declared in machines or funcs"@, quoted(l.out.0) + " not found"@)]
    } else {
        Seq::empty()
    }) + (if !is_known(t, l.into.0) {
        seq![finding("link-resolve-machine"@, indexed("links"@, i, ".into[0]"@), "target machine declared in machines or funcs"@, quoted(l.into.0) + " not found"@)]
    } else {
        Seq::empty()
    })
}

/// The endpoint findings of the first `k` links.
pub open spec fn resolve_findings(t: TopologyView, k: int) -> Seq<RuleViolationView>
    decreases k,
{
    if k <= 0 {
        Seq::empty()
    } else {
        resolve_findings(t, k - 1) + resolve_findings_at(t, k - 1)
    }
}

/// The fan-out finding of link `i`: it leaves an output port that an
/// earlier link already leaves.
pub open spec fn fanout_findings_at(t: TopologyView, i: int) -> Seq<RuleViolationView> {
    let l = t.links[i];
    if fanout_at(t, i) {
        seq![finding("link-fan-out"@, indexed("links"@, i, ".out"@),
            "one target per output port (fan-out must be explicit: Split/CloneSplit/Tee machine)"@,
            "output port "@ + quoted(l.out.1) + " on machine "@ + quoted(l.out.0) + " already has a target"@)]
    } else {
        Seq::empty()
    }
}

/// The fan-out findings of the first `k` links.
pub open spec fn fanout_findings(t: TopologyView, k: int) -> Seq<RuleViolationView>
    decreases k,
{
    if k <= 0 {
        Seq::empty()
    } else {
        fanout_findings(t, k - 1) + fanout_findings_at(t, k - 1)
    }
}

/// The `Debug` name of a direction.
pub open spec fn dir_debug(d: PortDir) -> Seq<char> {
    match d {
        PortDir::In => "In"@,
        PortDir::Out => "Out"@,
    }
}

/// The port findings of link `i` against the schemas: a missing source or
/// target port (and nothing more for that link), otherwise a wrong source
/// direction, a wrong target direction, an incompatibility, and a carrier
/// that back-pressures an Observe edge, each that applies. Links whose
/// machines have no schema give none.
pub open spec fn port_findings_at(t: TopologyView, sm: Seq<(Seq<char>, Seq<PortDecl>)>, i: int) -> Seq<RuleViolationView> {
    let l = t.links[i];
    match (schema_for(sm, l.out.0), schema_for(sm, l.into.0)) {
        (Some(ss), Some(ds)) => match port_named(ss, l.out.1) {
            None => seq![finding("link-resolve-port"@, indexed("links"@, i, ".out[1]"@),
                quoted(l.out.0) + " declares port "@ + quoted(l.out.1), "port not found"@)],
            Some(sp) => match port_named(ds, l.into.1) {
                None => seq![finding("link-resolve-port"@, indexed("links"@, i, ".into[1]"@),
                    quoted(l.into.0) + " declares port "@ + quoted(l.into.1), "port not found"@)],
                Some(dp) => (if sp.dir != PortDir::Out {
                    seq![finding("link-direction"@, indexed("links"@, i, ".out[1]"@), "source port is an output"@,
                        quoted(l.out.1) + " is "@ + dir_debug(sp.dir))]
                } else {
                    Seq::empty()
                }) + (if dp.dir != PortDir::In {
                    seq![finding("link-direction"@, indexed("links"@, i, ".into[1]"@), "target port is an input"@,
                        quoted(l.into.1) + " is "@ + dir_debug(dp.dir))]
                } else {
                    Seq::empty()
                }) + (match compat_verdict(sp, dp) {
                    CompatVerdict::Incompatible(reason) => seq![finding("link-type"@, indexed("links"@, i, ""@),
                        "source port can link to target port"@, reason)],
                    _ => Seq::empty(),
                }) + (if carrier_verdict(sp.flow, l.kind) == CarrierCompatResult::Violates {
                    seq![finding("flow-carrier"@, indexed("links"@, i, ".kind"@), flow_name(sp.flow) + " flow on a non-back-pressuring carrier"@,
                        "carrier "@ + link_kind_name(l.kind) + " can block the producer ("@ + l.out.0 + " \u{2192} "@ + l.into.0 + ")"@)]
                } else {
                    Seq::empty()
                }),
            },
        },
        _ => Seq::empty(),
    }
}

/// The warning of link `i`: a link that needs a schema migration.
pub open spec fn port_warnings_at(t: TopologyView, sm: Seq<(Seq<char>, Seq<PortDecl>)>, i: int) -> Seq<RuleViolationView> {
    let l = t.links[i];
    match (schema_for(sm, l.out.0), schema_for(sm, l.into.0)) {
        (Some(ss), Some(ds)) => match (port_named(ss, l.out.1), port_named(ds, l.into.1)) {
            (Some(sp), Some(dp)) => match compat_verdict(sp, dp) {
                CompatVerdict::Migrate(from, to) => seq![finding("link-migrate"@, indexed("links"@, i, ""@),
                    "compatible via schema migration"@, "version "@ + decimal(from as nat) + " \u{2192} "@ + decimal(to as nat)
                    + " (runtime migrator required)"@)],
                _ => Seq::empty(),
            },
            _ => Seq::empty(),
        },
        _ => Seq::empty(),
    }
}

/// The port findings of the first `k` links.
pub open spec fn port_findings(t: TopologyView, sm: Seq<(Seq<char>, Seq<PortDecl>)>, k: int) -> Seq<RuleViolationView>
    decreases k,
{
    if k <= 0 {
        Seq::empty()
    } else {
        port_findings(t, sm, k - 1) + port_findings_at(t, sm, k - 1)
    }
}

/// The warnings of the first `k` links.
pub open spec fn port_warnings(t: TopologyView, sm: Seq<(Seq<char>, Seq<PortDecl>)>, k: int) -> Seq<RuleViolationView>
    decreases k,
{
    if k <= 0 {
        Seq::empty()
    } else {
        port_warnings(t, sm, k - 1) + port_warnings_at(t, sm, k - 1)
    }
}

/// The thread-budget finding, if the budget is exceeded.
pub open spec fn budget_findings(t: TopologyView) -> Seq<RuleViolationView> {
    if total_threads(t) > t.settings.cpu_threads {
        seq![finding("resource-budget"@, "settings.cpu_threads"@, "at least "@ + decimal(total_threads(t)) + " threads available"@,
            "cpu_threads = "@ + decimal(t.settings.cpu_threads as nat))]
    } else {
        Seq::empty()
    }
}

/// The finding of a cycle without a Moore machine.
pub open spec fn moore_cycle_finding(c: Seq<Seq<char>>) -> RuleViolationView {
    finding("cycle-no-moore"@, "links"@, "every cycle passes through \u{2265}1 Moore machine"@,
        "cycle without Moore machine: "@ + join(c, " \u{2192} "@))
}

/// The finding of a degree violation.
pub open spec fn degree_finding(v: DegreeViolationView) -> RuleViolationView {
    finding("degree-limit"@, v.machine + "."@ + v.port, v.direction + " degree \u{2264} "@ + decimal(v.limit as nat),
        "actual "@ + decimal(v.actual as nat))
}

/// The finding of an Inline cycle.
pub open spec fn inline_cycle_finding(c: Seq<Seq<char>>) -> RuleViolationView {
    finding("inline-cycle"@, "links"@, "Inline-edge subgraph is a DAG (no synchronous-call deadlock)"@,
        "Inline cycle: "@ + join(c, " \u{2192} "@))
}

/// Whether `vs` lists every degree violation once, in order.
pub open spec fn all_degree_violations(t: TopologyView, vs: Seq<DegreeViolationView>) -> bool {
    &&& forall|i: int| 0 <= i < vs.len() ==> is_degree_violation(t, #[trigger] vs[i])
    &&& forall|i: int, j: int| 0 <= i < j < vs.len() ==> violation_before(#[trigger] vs[i], #[trigger] vs[j])
    &&& forall|m: Seq<char>, p: Seq<char>, tag: int, out: bool| degree_limited(tag, out) && #[trigger] degree_of(t, m, p, out, tag) > 1
        ==> lists_violation(vs, m, p, tag, out)
}

/// Whether the last three parts of a report are right: the Moore-cycle
/// finding `x` (one, naming a cycle, exactly when such a cycle exists), the
/// degree violations `vs`, and the Inline-cycle finding `y` (one, naming
/// the machines on Inline cycles, exactly when Inline links cycle).
pub open spec fn report_tail(t: TopologyView, x: Seq<RuleViolationView>, vs: Seq<DegreeViolationView>, y: Seq<RuleViolationView>) -> bool {
    &&& (x.len() == 0) == names_acyclic(t, non_moore_link(t))
    &&& x.len() <= 1
    &&& x.len() == 1 ==> exists|c: Seq<Seq<char>>| is_name_cycle(t, non_moore_link(t), c) && first_cycle_is(t, c) && x[0] == #[trigger] moore_cycle_finding(c)
    &&& all_degree_violations(t, vs)
    &&& (y.len() == 0) == names_acyclic(t, inline_links())
    &&& y.len() <= 1
    &&& y.len() == 1 ==> exists|c: Seq<Seq<char>>| on_cycle_names(t, inline_links(), c) && y[0] == #[trigger] inline_cycle_finding(c)
}

/// The violations of a report, stage by stage: name uniqueness, link ends,
/// implicit fan-out, the ports of each link, the thread budget, then the
/// Moore-cycle finding `x`, the degree violations `vs` and the Inline-cycle
/// finding `y`.
pub open spec fn report_findings(
    t: TopologyView,
    sm: Seq<(Seq<char>, Seq<PortDecl>)>,
    x: Seq<RuleViolationView>,
    vs: Seq<DegreeViolationView>,
    y: Seq<RuleViolationView>,
) -> Seq<RuleViolationView> {
    machine_name_findings(t, t.machines.len() as int) + func_name_findings(t, t.funcs.len() as int)
        + resolve_findings(t, t.links.len() as int) + fanout_findings(t, t.links.len() as int)
        + port_findings(t, sm, t.links.len() as int) + budget_findings(t) + x
        + vs.map_values(|v: DegreeViolationView| degree_finding(v)) + y
}

// ── Building the report ─────────────────────────────────────────────────

fn quoted_text(s: &str) -> (r: String)
    ensures
        r@ == quoted(s@),
{
    String::from_str("'").concat(s).concat("'")
}

fn indexed_text(prefix: &str, i: usize, suffix: &str) -> (r: String)
    ensures
        r@ == indexed(prefix@, i as int, suffix@),
{
    let d = decimal_string(i as u64);
    String::from_str(prefix).concat("[").concat(d.as_str()).concat("]").concat(suffix)
}

fn dir_debug_text(d: PortDir) -> (r: &'static str)
    ensures
        r@ == dir_debug(d),
{
    match d {
        PortDir::In => "In",
        PortDir::Out => "Out",
    }
}

impl DynamicTopology {
    /// Adds the name-uniqueness findings.
    fn report_names(&self, rep: &mut ValidationReport)
        ensures
            findings_of(final(rep).violations) == findings_of(old(rep).violations) + machine_name_findings(self@, self@.machines.len() as int)
                + func_name_findings(self@, self@.funcs.len() as int),
            findings_of(final(rep).warnings) == findings_of(old(rep).warnings),
    {
        let ghost t = self@;
        let ghost base = findings_of(rep.violations);
        let mut i: usize = 0;
        while i < self.machines.len()
            invariant
                i <= self.machines.len(),
                t == self@,
                t.machines.len() == self.machines.len(),
                findings_of(rep.violations) == base + machine_name_findings(t, i as int),
                findings_of(rep.warnings) == findings_of(old(rep).warnings),
            decreases self.machines.len() - i,
        {
            let mut dup = false;
            let mut j: usize = 0;
            while j < i
                invariant
                    j <= i < self.machines.len(),
                    t == self@,
                    dup == exists|k: int| 0 <= k < j && #[trigger] t.machines[k].name == t.machines[i as int].name,
                decreases i - j,
            {
                proof {
                    assert(t.machines[j as int] == self.machines@[j as int]@);
                    assert(t.machines[i as int] == self.machines@[i as int]@);
                }
                let ghost d0 = dup;
                if self.machines[j].name == self.machines[i].name {
                    dup = true;
                }
                proof {
                    if t.machines[j as int].name == t.machines[i as int].name {
                        assert(t.machines[j as int].name == t.machines[i as int].name);
                    }
                    if exists|k: int| 0 <= k < j + 1 && #[trigger] t.machines[k].name == t.machines[i as int].name {
                        let k = choose|k: int| 0 <= k < j + 1 && #[trigger] t.machines[k].name == t.machines[i as int].name;
                        if k < j {
                            assert(d0);
                        }
                    }
                }
                j = j + 1;
            }
            if dup {
                let path = indexed_text("machines", i, ".name");
                let q = quoted_text(self.machines[i].name.as_str());
                let actual = String::from_str("duplicate ").concat(q.as_str());
                proof {
                    assert(t.machines[i as int] == self.machines@[i as int]@);
                }
                rep.push(RuleViolation {
                    rule_id: "name-unique",
                    path,
                    expected: String::from_str("machine names unique within deployment"),
                    actual,
                });
            }
            proof {
                assert(findings_of(rep.violations) =~= base + machine_name_findings(t, i as int + 1));
            }
            i = i + 1;
        }
        let ghost base2 = findings_of(rep.violations);
        let mut i: usize = 0;
        while i < self.funcs.len()
            invariant
                i <= self.funcs.len(),
                t == self@,
                t.funcs.len() == self.funcs.len(),
                findings_of(rep.violations) == base2 + func_name_findings(t, i as int),
                findings_of(rep.warnings) == findings_of(old(rep).warnings),
            decreases self.funcs.len() - i,
        {
            proof {
                assert(t.funcs[i as int] == self.funcs@[i as int]@);
            }
            let cross = crate::composite::has_machine(self, self.funcs[i].name.as_str());
            let mut dup = false;
            let mut j: usize = 0;
            while j < i
                invariant
                    j <= i < self.funcs.len(),
                    t == self@,
                    dup == exists|k: int| 0 <= k < j && #[trigger] t.funcs[k].name == t.funcs[i as int].name,
                decreases i - j,
            {
                proof {
                    assert(t.funcs[j as int] == self.funcs@[j as int]@);
                    assert(t.funcs[i as int] == self.funcs@[i as int]@);
                }
                let ghost d0 = dup;
                if self.funcs[j].name == self.funcs[i].name {
                    dup = true;
                }
                proof {
                    if t.funcs[j as int].name == t.funcs[i as int].name {
                        assert(t.funcs[j as int].name == t.funcs[i as int].name);
                    }
                    if exists|k: int| 0 <= k < j + 1 && #[trigger] t.funcs[k].name == t.funcs[i as int].name {
                        let k = choose|k: int| 0 <= k < j + 1 && #[trigger] t.funcs[k].name == t.funcs[i as int].name;
                        if k < j {
                            assert(d0);
                        }
                    }
                }
                j = j + 1;
            }
            if cross || dup {
                let path = indexed_text("funcs", i, ".name");
                let q = quoted_text(self.funcs[i].name.as_str());
                let actual = String::from_str("duplicate ").concat(q.as_str());
                proof {
                    assert(t.funcs[i as int] == self.funcs@[i as int]@);
                }
                rep.push(RuleViolation {
                    rule_id: "name-unique",
                    path,
                    expected: String::from_str("func names unique within deployment"),
                    actual,
                });
            }
            proof {
                assert(findings_of(rep.violations) =~= base2 + func_name_findings(t, i as int + 1));
            }
            i = i + 1;
        }
        proof {
            assert(findings_of(rep.violations) =~= base + machine_name_findings(t, t.machines.len() as int) + func_name_findings(
                t,
                t.funcs.len() as int,
            ));
        }
    }

    /// Adds the endpoint findings of every link.
    fn report_resolve(&self, rep: &mut ValidationReport)
        ensures
            findings_of(final(rep).violations) == findings_of(old(rep).violations) + resolve_findings(self@, self@.links.len() as int),
            findings_of(final(rep).warnings) == findings_of(old(rep).warnings),
    {
        let ghost t = self@;
        let ghost base = findings_of(rep.violations);
        let mut i: usize = 0;
        while i < self.links.len()
            invariant
                i <= self.links.len(),
                t == self@,
                t.links.len() == self.links.len(),
                findings_of(rep.violations) == base + resolve_findings(t, i as int),
                findings_of(rep.warnings) == findings_of(old(rep).warnings),
            decreases self.links.len() - i,
        {
            let l = &self.links[i];
            proof {
                assert(t.links[i as int] == l@);
            }
            let ghost before = findings_of(rep.violations);
            if l.out.0 == l.into.0 {
                let path = indexed_text("links", i, "");
                let actual = quoted_text(l.out.0.as_str()).concat(" links to itself");
                rep.push(RuleViolation {
                    rule_id: "link-self-loop",
                    path,
                    expected: String::from_str("source and target machines distinct"),
                    actual,
                });
            }
            let ghost after1 = findings_of(rep.violations);
            if !self.knows(&l.out.0) {
                let path = indexed_text("links", i, ".out[0]");
                let actual = quoted_text(l.out.0.as_str()).concat(" not found");
                rep.push(RuleViolation {
                    rule_id: "link-resolve-machine",
                    path,
                    expected: String::from_str("source machine declared in machines or funcs"),
                    actual,
                });
            }
            let ghost after2 = findings_of(rep.violations);
            if !self.knows(&l.into.0) {
                let path = indexed_text("links", i, ".into[0]");
                let actual = quoted_text(l.into.0.as_str()).concat(" not found");
                rep.push(RuleViolation {
                    rule_id: "link-resolve-machine",
                    path,
                    expected: String::from_str("target machine declared in machines or funcs"),
                    actual,
                });
            }
            proof {
                assert(findings_of(rep.violations) =~= before + resolve_findings_at(t, i as int));
                assert(findings_of(rep.violations) =~= base + resolve_findings(t, i as int + 1));
            }
            i = i + 1;
        }
    }

    /// Adds a finding for each link that leaves an output port an earlier
    /// link already leaves.
    fn report_fanout(&self, rep: &mut ValidationReport)
        ensures
            findings_of(final(rep).violations) == findings_of(old(rep).violations) + fanout_findings(self@, self@.links.len() as int),
            findings_of(final(rep).warnings) == findings_of(old(rep).warnings),
    {
        let ghost t = self@;
        let ghost base = findings_of(rep.violations);
        let mut i: usize = 0;
        while i < self.links.len()
            invariant
                i <= self.links.len(),
                t == self@,
                t.links.len() == self.links.len(),
                findings_of(rep.violations) == base + fanout_findings(t, i as int),
                findings_of(rep.warnings) == findings_of(old(rep).warnings),
            decreases self.links.len() - i,
        {
            proof {
                assert(t.links[i as int] == self.links@[i as int]@);
            }
            let mut dup = false;
            let mut j: usize = 0;
            while j < i
                invariant
                    j <= i < self.links.len(),
                    t == self@,
                    dup == exists|k: int| 0 <= k < j && #[trigger] t.links[k].out == t.links[i as int].out,
                decreases i - j,
            {
                proof {
                    assert(t.links[j as int] == self.links@[j as int]@);
                    assert(t.links[i as int] == self.links@[i as int]@);
                }
                let ghost d0 = dup;
                let same = self.links[j].out.0 == self.links[i].out.0 && self.links[j].out.1 == self.links[i].out.1;
                if same {
                    dup = true;
                }
                proof {
                    if same {
                        assert(t.links[j as int].out == t.links[i as int].out);
                    }
                    if exists|k: int| 0 <= k < j + 1 && #[trigger] t.links[k].out == t.links[i as int].out {
                        let k = choose|k: int| 0 <= k < j + 1 && #[trigger] t.links[k].out == t.links[i as int].out;
                        if k < j {
                            assert(d0);
                        }
                    }
                }
                j = j + 1;
            }
            let ghost before = findings_of(rep.violations);
            if dup {
                let l = &self.links[i];
                let path = indexed_text("links", i, ".out");
                let actual = String::from_str("output port ").concat(quoted_text(l.out.1.as_str()).as_str()).concat(
                    " on machine ",
                ).concat(quoted_text(l.out.0.as_str()).as_str()).concat(" already has a target");
                rep.push(RuleViolation {
                    rule_id: "link-fan-out",
                    path,
                    expected: String::from_str("one target per output port (fan-out must be explicit: Split/CloneSplit/Tee machine)"),
                    actual,
                });
            }
            proof {
                assert(findings_of(rep.violations) =~= before + fanout_findings_at(t, i as int));
                assert(findings_of(rep.violations) =~= base + fanout_findings(t, i as int + 1));
            }
            i = i + 1;
        }
    }

    /// Adds the port findings and the migration warning of link `i`.
    fn report_link_ports(&self, schemas: &SchemaMap, i: usize, rep: &mut ValidationReport)
        requires
            i < self.links.len(),
        ensures
            findings_of(final(rep).violations) == findings_of(old(rep).violations) + port_findings_at(self@, schemas@, i as int),
            findings_of(final(rep).warnings) == findings_of(old(rep).warnings) + port_warnings_at(self@, schemas@, i as int),
    {
        let ghost t = self@;
        let ghost v0 = findings_of(rep.violations);
        let ghost w0 = findings_of(rep.warnings);
        let l = &self.links[i];
        proof {
            assert(t.links[i as int] == l@);
        }
        let src_schema = match schemas.get(l.out.0.as_str()) {
            Some(s) => s,
            None => {
                proof {
                    assert(findings_of(rep.violations) =~= v0 + port_findings_at(t, schemas@, i as int));
                    assert(findings_of(rep.warnings) =~= w0 + port_warnings_at(t, schemas@, i as int));
                }
                return;
            },
        };
        let dst_schema = match schemas.get(l.into.0.as_str()) {
            Some(s) => s,
            None => {
                proof {
                    assert(findings_of(rep.violations) =~= v0 + port_findings_at(t, schemas@, i as int));
                    assert(findings_of(rep.warnings) =~= w0 + port_warnings_at(t, schemas@, i as int));
                }
                return;
            },
        };
        let src_port = match src_schema.find(l.out.1.as_str()) {
            Some(p) => p,
            None => {
                let path = indexed_text("links", i, ".out[1]");
                let expected = quoted_text(l.out.0.as_str()).concat(" declares port ").concat(quoted_text(l.out.1.as_str()).as_str());
                rep.push(RuleViolation { rule_id: "link-resolve-port", path, expected, actual: String::from_str("port not found") });
                proof {
                    assert(findings_of(rep.violations) =~= v0 + port_findings_at(t, schemas@, i as int));
                    assert(findings_of(rep.warnings) =~= w0 + port_warnings_at(t, schemas@, i as int));
                }
                return;
            },
        };
        let dst_port = match dst_schema.find(l.into.1.as_str()) {
            Some(p) => p,
            None => {
                let path = indexed_text("links", i, ".into[1]");
                let expected = quoted_text(l.into.0.as_str()).concat(" declares port ").concat(quoted_text(l.into.1.as_str()).as_str());
                rep.push(RuleViolation { rule_id: "link-resolve-port", path, expected, actual: String::from_str("port not found") });
                proof {
                    assert(findings_of(rep.violations) =~= v0 + port_findings_at(t, schemas@, i as int));
                    assert(findings_of(rep.warnings) =~= w0 + port_warnings_at(t, schemas@, i as int));
                }
                return;
            },
        };
        if src_port.dir != PortDir::Out {
            let path = indexed_text("links", i, ".out[1]");
            let actual = quoted_text(l.out.1.as_str()).concat(" is ").concat(dir_debug_text(src_port.dir));
            rep.push(RuleViolation { rule_id: "link-direction", path, expected: String::from_str("source port is an output"), actual });
        }
        let ghost v1 = findings_of(rep.violations);
        if dst_port.dir != PortDir::In {
            let path = indexed_text("links", i, ".into[1]");
            let actual = quoted_text(l.into.1.as_str()).concat(" is ").concat(dir_debug_text(dst_port.dir));
            rep.push(RuleViolation { rule_id: "link-direction", path, expected: String::from_str("target port is an input"), actual });
        }
        let ghost v2 = findings_of(rep.violations);
        match src_port.can_link_to(dst_port) {
            LinkCompat::Compatible => {},
            LinkCompat::Migrate { from_ver, to_ver } => {
                let path = indexed_text("links", i, "");
                let f = decimal_string(from_ver as u64);
                let tv = decimal_string(to_ver as u64);
                let actual = String::from_str("version ").concat(f.as_str()).concat(" \u{2192} ").concat(tv.as_str()).concat(
                    " (runtime migrator required)",
                );
                rep.warn(RuleViolation { rule_id: "link-migrate", path, expected: String::from_str("compatible via schema migration"), actual });
            },
            LinkCompat::Incompatible { reason } => {
                let path = indexed_text("links", i, "");
                rep.push(RuleViolation {
                    rule_id: "link-type",
                    path,
                    expected: String::from_str("source port can link to target port"),
                    actual: String::from_str(reason),
                });
            },
        }
        let ghost v3 = findings_of(rep.violations);
        match carrier_compatible(src_port.flow, &l.kind) {
            CarrierCompatResult::Violates => {
                let path = indexed_text("links", i, ".kind");
                let expected = String::from_str(src_port.flow.as_str()).concat(" flow on a non-back-pressuring carrier");
                let actual = String::from_str("carrier ").concat(l.kind.name()).concat(" can block the producer (").concat(
                    l.out.0.as_str(),
                ).concat(" \u{2192} ").concat(l.into.0.as_str()).concat(")");
                rep.push(RuleViolation { rule_id: "flow-carrier", path, expected, actual });
            },
            CarrierCompatResult::Recommended | CarrierCompatResult::Permitted => {},
        }
        proof {
            assert(findings_of(rep.violations) =~= v0 + port_findings_at(t, schemas@, i as int));
            assert(findings_of(rep.warnings) =~= w0 + port_warnings_at(t, schemas@, i as int));
        }
    }

    /// Adds the port findings and migration warnings of every link.
    fn report_ports(&self, schemas: &SchemaMap, rep: &mut ValidationReport)
        ensures
            findings_of(final(rep).violations) == findings_of(old(rep).violations) + port_findings(self@, schemas@, self@.links.len() as int),
            findings_of(final(rep).warnings) == findings_of(old(rep).warnings) + port_warnings(self@, schemas@, self@.links.len() as int),
    {
        let ghost t = self@;
        let ghost v0 = findings_of(rep.violations);
        let ghost w0 = findings_of(rep.warnings);
        let mut i: usize = 0;
        while i < self.links.len()
            invariant
                i <= self.links.len(),
                t == self@,
                t.links.len() == self.links.len(),
                findings_of(rep.violations) == v0 + port_findings(t, schemas@, i as int),
                findings_of(rep.warnings) == w0 + port_warnings(t, schemas@, i as int),
            decreases self.links.len() - i,
        {
            self.report_link_ports(schemas, i, rep);
            proof {
                assert(findings_of(rep.violations) =~= v0 + port_findings(t, schemas@, i as int + 1));
                assert(findings_of(rep.warnings) =~= w0 + port_warnings(t, schemas@, i as int + 1));
            }
            i = i + 1;
        }
    }

    /// Collects every structural and deep violation instead of stopping at
    /// the first, each with a stable rule identifier, a JSON-path-like
    /// location and what was expected and found; a link that needs a
    /// schema migration is a warning. In order: name uniqueness, link ends,
    /// implicit fan-out, ports of each link, thread budget, the first cycle without a Moore
    /// machine, every degree violation, the first Inline cycle.
    pub fn validate_report(&self, schemas: &SchemaMap) -> (rep: ValidationReport)
        requires
            total_threads(self@) <= usize::MAX,
        ensures
            findings_of(rep.warnings) == port_warnings(self@, schemas@, self@.links.len() as int),
            exists|x: Seq<RuleViolationView>, vs: Seq<DegreeViolationView>, y: Seq<RuleViolationView>|
                #[trigger] report_tail(self@, x, vs, y) && findings_of(rep.violations) == report_findings(self@, schemas@, x, vs, y),
    {
        let ghost t = self@;
        let mut rep = ValidationReport::default();
        self.report_names(&mut rep);
        self.report_resolve(&mut rep);
        self.report_fanout(&mut rep);
        self.report_ports(schemas, &mut rep);
        let ghost before_budget = findings_of(rep.violations);
        let total = self.dedicated_thread_total();
        if total > self.settings.cpu_threads {
            let a = decimal_string(total as u64);
            let c = decimal_string(self.settings.cpu_threads as u64);
            rep.push(RuleViolation {
                rule_id: "resource-budget",
                path: String::from_str("settings.cpu_threads"),
                expected: String::from_str("at least ").concat(a.as_str()).concat(" threads available"),
                actual: String::from_str("cpu_threads = ").concat(c.as_str()),
            });
        }
        let ghost after_budget = findings_of(rep.violations);
        proof {
            assert(after_budget =~= before_budget + budget_findings(t));
        }
        let ghost mut x: Seq<RuleViolationView> = Seq::empty();
        match self.find_non_moore_cycle() {
            Some(cycle) => {
                let j = join_strings(&cycle, " \u{2192} ");
                let v = RuleViolation {
                    rule_id: "cycle-no-moore",
                    path: String::from_str("links"),
                    expected: String::from_str("every cycle passes through \u{2265}1 Moore machine"),
                    actual: String::from_str("cycle without Moore machine: ").concat(j.as_str()),
                };
                proof {
                    x = seq![v@];
                    assert(x[0] == moore_cycle_finding(strs(cycle)));
                }
                rep.push(v);
            },
            None => {},
        }
        let ghost after_cycle = findings_of(rep.violations);
        proof {
            assert(after_cycle =~= after_budget + x);
        }
        let dv = degree_violations(self);
        let mut k: usize = 0;
        while k < dv.len()
            invariant
                k <= dv.len(),
                findings_of(rep.violations) == after_cycle + dv@.map_values(|v: DegreeViolation| v@).take(k as int).map_values(
                    |v: DegreeViolationView| degree_finding(v),
                ),
                findings_of(rep.warnings) == port_warnings(t, schemas@, t.links.len() as int),
            decreases dv.len() - k,
        {
            let v = &dv[k];
            let path = v.machine.clone().concat(".").concat(v.port.as_str());
            let l = decimal_string(v.limit as u64);
            let a = decimal_string(v.actual as u64);
            let expected = v.direction.clone().concat(" degree \u{2264} ").concat(l.as_str());
            let actual = String::from_str("actual ").concat(a.as_str());
            let ghost before = findings_of(rep.violations);
            rep.push(RuleViolation { rule_id: "degree-limit", path, expected, actual });
            proof {
                let dvv = dv@.map_values(|v: DegreeViolation| v@);
                assert(dvv.take(k as int + 1) =~= dvv.take(k as int).push(dvv[k as int]));
                assert(findings_of(rep.violations) =~= after_cycle + dvv.take(k as int + 1).map_values(
                    |v: DegreeViolationView| degree_finding(v),
                ));
            }
            k = k + 1;
        }
        let ghost after_degree = findings_of(rep.violations);
        let ghost vs = dv@.map_values(|v: DegreeViolation| v@);
        proof {
            assert(vs.take(vs.len() as int) =~= vs);
        }
        let ghost mut y: Seq<RuleViolationView> = Seq::empty();
        match inline_cycle(self) {
            Some(cycle) => {
                let j = join_strings(&cycle, " \u{2192} ");
                let v = RuleViolation {
                    rule_id: "inline-cycle",
                    path: String::from_str("links"),
                    expected: String::from_str("Inline-edge subgraph is a DAG (no synchronous-call deadlock)"),
                    actual: String::from_str("Inline cycle: ").concat(j.as_str()),
                };
                proof {
                    y = seq![v@];
                    assert(y[0] == inline_cycle_finding(strs(cycle)));
                }
                rep.push(v);
            },
            None => {},
        }
        proof {
            assert(findings_of(rep.violations) =~= after_degree + y);
            assert(report_tail(t, x, vs, y));
            assert(findings_of(rep.violations) =~= report_findings(t, schemas@, x, vs, y));
        }
        rep
    }
}


// ── Laws ────────────────────────────────────────────────────────────────

/// Whether both ends of every link have a port schema.
pub open spec fn links_have_schemas(t: TopologyView, sm: Seq<(Seq<char>, Seq<PortDecl>)>) -> bool {
    forall|i: int| 0 <= i < t.links.len() ==> (#[trigger] schema_for(sm, t.links[i].out.0)) is Some
        && schema_for(sm, t.links[i].into.0) is Some
}

proof fn lemma_machine_findings_empty(t: TopologyView, k: int)
    requires
        0 <= k <= t.machines.len(),
    ensures
        machine_name_findings(t, k).len() == 0 <==> forall|i: int| 0 <= i < k ==> !#[trigger] machine_dup_at(t, i),
    decreases k,
{
    if k > 0 {
        lemma_machine_findings_empty(t, k - 1);
    }
}

proof fn lemma_func_findings_empty(t: TopologyView, k: int)
    requires
        0 <= k <= t.funcs.len(),
    ensures
        func_name_findings(t, k).len() == 0 <==> forall|i: int| 0 <= i < k ==> !#[trigger] func_dup_at(t, i),
    decreases k,
{
    if k > 0 {
        lemma_func_findings_empty(t, k - 1);
    }
}

proof fn lemma_resolve_findings_empty(t: TopologyView, k: int)
    requires
        0 <= k <= t.links.len(),
    ensures
        resolve_findings(t, k).len() == 0 <==> forall|i: int| 0 <= i < k ==> !#[trigger] link_bad_at(t, i),
    decreases k,
{
    if k > 0 {
        lemma_resolve_findings_empty(t, k - 1);
        lemma_resolve_at_empty(t, k - 1);
    }
}

/// A link has no endpoint finding exactly when it is not bad.
#[verifier::spinoff_prover]
proof fn lemma_resolve_at_empty(t: TopologyView, i: int)
    ensures
        resolve_findings_at(t, i).len() == 0 <==> !link_bad_at(t, i),
{
    let l = t.links[i];
    let a: Seq<RuleViolationView> = if l.out.0 == l.into.0 {
        seq![finding("link-self-loop"@, indexed("links"@, i, ""@), "source and target machines distinct"@, quoted(l.out.0) + " links to itself"@)]
    } else {
        Seq::empty()
    };
    let b: Seq<RuleViolationView> = if !is_known(t, l.out.0) {
        seq![finding("link-resolve-machine"@, indexed("links"@, i, ".out[0]"@), "source machine declared in machines or funcs"@, quoted(l.out.0) + " not found"@)]
    } else {
        Seq::empty()
    };
    let c: Seq<RuleViolationView> = if !is_known(t, l.into.0) {
        seq![finding("link-resolve-machine"@, indexed("links"@, i, ".into[0]"@), "target machine declared in machines or funcs"@, quoted(l.into.0) + " not found"@)]
    } else {
        Seq::empty()
    };
    assert(resolve_findings_at(t, i) == a + b + c);
    assert((a + b + c).len() == a.len() + b.len() + c.len());
}

proof fn lemma_fanout_findings_empty(t: TopologyView, k: int)
    requires
        0 <= k <= t.links.len(),
    ensures
        fanout_findings(t, k).len() == 0 <==> forall|i: int| 0 <= i < k ==> !#[trigger] fanout_at(t, i),
    decreases k,
{
    if k > 0 {
        lemma_fanout_findings_empty(t, k - 1);
    }
}

proof fn lemma_port_findings_empty(t: TopologyView, sm: Seq<(Seq<char>, Seq<PortDecl>)>, k: int)
    requires
        0 <= k <= t.links.len(),
        links_have_schemas(t, sm),
    ensures
        port_findings(t, sm, k).len() == 0 <==> forall|i: int| 0 <= i < k ==> !#[trigger] link_fails(t, sm)(i),
    decreases k,
{
    if k > 0 {
        lemma_port_findings_empty(t, sm, k - 1);
        let i = k - 1;
        assert(schema_for(sm, t.links[i].out.0) is Some);
        assert(port_findings_at(t, sm, i).len() == 0 <==> !link_fails(t, sm)(i));
    }
}

/// The structural verdict is `Ok` exactly when no name repeats, no link is
/// bad and no output port is linked twice.
proof fn lemma_structural_ok(t: TopologyView)
    ensures
        structural_verdict(t) is Ok <==> (forall|i: int| 0 <= i < t.machines.len() ==> !#[trigger] machine_dup_at(t, i))
            && (forall|i: int| 0 <= i < t.funcs.len() ==> !#[trigger] func_dup_at(t, i))
            && (forall|i: int| 0 <= i < t.links.len() ==> !#[trigger] link_bad_at(t, i))
            && (forall|i: int| 0 <= i < t.links.len() ==> !#[trigger] fanout_at(t, i)),
{
    let pm = |i: int| machine_dup_at(t, i);
    let pf = |i: int| func_dup_at(t, i);
    let pl = |i: int| link_bad_at(t, i);
    let po = |i: int| fanout_at(t, i);
    lemma_none_iff(t.machines.len() as int, pm);
    lemma_none_iff(t.funcs.len() as int, pf);
    lemma_none_iff(t.links.len() as int, pl);
    lemma_none_iff(t.links.len() as int, po);
    assert((forall|i: int| 0 <= i < t.machines.len() ==> !#[trigger] pm(i)) <==> (forall|i: int| 0 <= i < t.machines.len() ==> !#[trigger] machine_dup_at(t, i))) by {
        if forall|i: int| 0 <= i < t.machines.len() ==> !#[trigger] pm(i) {
            assert forall|i: int| 0 <= i < t.machines.len() implies !#[trigger] machine_dup_at(t, i) by { assert(!pm(i)); }
        }
    }
    assert((forall|i: int| 0 <= i < t.funcs.len() ==> !#[trigger] pf(i)) <==> (forall|i: int| 0 <= i < t.funcs.len() ==> !#[trigger] func_dup_at(t, i))) by {
        if forall|i: int| 0 <= i < t.funcs.len() ==> !#[trigger] pf(i) {
            assert forall|i: int| 0 <= i < t.funcs.len() implies !#[trigger] func_dup_at(t, i) by { assert(!pf(i)); }
        }
    }
    assert((forall|i: int| 0 <= i < t.links.len() ==> !#[trigger] pl(i)) <==> (forall|i: int| 0 <= i < t.links.len() ==> !#[trigger] link_bad_at(t, i))) by {
        if forall|i: int| 0 <= i < t.links.len() ==> !#[trigger] pl(i) {
            assert forall|i: int| 0 <= i < t.links.len() implies !#[trigger] link_bad_at(t, i) by { assert(!pl(i)); }
        }
    }
    assert((forall|i: int| 0 <= i < t.links.len() ==> !#[trigger] po(i)) <==> (forall|i: int| 0 <= i < t.links.len() ==> !#[trigger] fanout_at(t, i))) by {
        if forall|i: int| 0 <= i < t.links.len() ==> !#[trigger] po(i) {
            assert forall|i: int| 0 <= i < t.links.len() implies !#[trigger] fanout_at(t, i) by { assert(!po(i)); }
        }
    }
}

/// `first_idx` finds nothing exactly when no index satisfies the predicate.
proof fn lemma_none_iff(n: int, pred: spec_fn(int) -> bool)
    requires
        0 <= n,
    ensures
        first_idx(n, pred, 0) < 0 <==> forall|i: int| 0 <= i < n ==> !#[trigger] pred(i),
{
    crate::seq_util::lemma_first_idx(n, pred, 0);
    let r = first_idx(n, pred, 0);
    if r >= 0 {
        assert(pred(r));
    }
}

/// The degree part of a report is empty exactly when no port exceeds a
/// degree limit.
proof fn lemma_degree_findings_empty(t: TopologyView, vs: Seq<DegreeViolationView>)
    requires
        all_degree_violations(t, vs),
    ensures
        vs.len() == 0 <==> !has_degree_violation(t),
{
    if has_degree_violation(t) {
        let (m, p, tag, out) = choose|m: Seq<char>, p: Seq<char>, tag: int, out: bool| degree_limited(tag, out) && #[trigger] degree_of(t, m, p, out, tag) > 1;
        assert(lists_violation(vs, m, p, tag, out));
    }
    if vs.len() > 0 {
        let v = vs[0];
        assert(is_degree_violation(t, v));
        let (tag, out) = choose|tag: int, out: bool| #[trigger] reports_violation(t, v, tag, out);
        assert(degree_limited(tag, out) && degree_of(t, v.machine, v.port, out, tag) > 1);
    }
}

/// The report mirrors deep validation: when both ends of every link have a
/// port schema, the report lists no violation exactly when deep validation
/// (with the strict cycle rule) passes. A link to a machine without a
/// schema fails deep validation but is left out of the report's port
/// checks, so there the two differ.
pub proof fn lemma_report_clean_iff_deep_ok(
    t: TopologyView,
    sm: Seq<(Seq<char>, Seq<PortDecl>)>,
    x: Seq<RuleViolationView>,
    vs: Seq<DegreeViolationView>,
    y: Seq<RuleViolationView>,
)
    requires
        report_tail(t, x, vs, y),
        links_have_schemas(t, sm),
    ensures
        report_findings(t, sm, x, vs, y).len() == 0 <==> deep_failure(t, sm, CycleRule::RequireMoore) is Valid,
{
    lemma_machine_findings_empty(t, t.machines.len() as int);
    lemma_func_findings_empty(t, t.funcs.len() as int);
    lemma_resolve_findings_empty(t, t.links.len() as int);
    lemma_fanout_findings_empty(t, t.links.len() as int);
    lemma_port_findings_empty(t, sm, t.links.len() as int);
    lemma_structural_ok(t);
    lemma_degree_findings_empty(t, vs);
    crate::seq_util::lemma_first_idx(t.links.len() as int, link_fails(t, sm), 0);
    let d = vs.map_values(|v: DegreeViolationView| degree_finding(v));
    assert(d.len() == vs.len());
}

/// The relaxed cycle rule only drops the Moore check: deep validation under
/// `AnyDelay` never fails on a cycle without a Moore machine, and wherever
/// the strict rule does not fail there, both rules fail at the same stage
/// and give the same answer.
pub proof fn lemma_any_delay_relaxes_moore(
    t: TopologyView,
    sm: Seq<(Seq<char>, Seq<PortDecl>)>,
    r_any: Result<(), ValidationError>,
    r_strict: Result<(), ValidationError>,
)
    requires
        deep_answer(t, deep_failure(t, sm, CycleRule::AnyDelay), r_any),
        deep_answer(t, deep_failure(t, sm, CycleRule::RequireMoore), r_strict),
    ensures
        !(deep_failure(t, sm, CycleRule::AnyDelay) is UnsafeCycle),
        !(r_any matches Err(ValidationError::UnsafeCycle { .. })),
        !(r_strict matches Err(ValidationError::UnsafeCycle { .. })) ==> deep_failure(t, sm, CycleRule::AnyDelay)
            == deep_failure(t, sm, CycleRule::RequireMoore) && verdict(r_any) == verdict(r_strict),
{
    let f = deep_failure(t, sm, CycleRule::AnyDelay);
    let le = first_idx(t.links.len() as int, link_fails(t, sm), 0);
    if structural_verdict(t) is Err {
        assert(!(structural_verdict(t)->Err_0 is UnsafeCycle));
    } else if le >= 0 {
        crate::seq_util::lemma_first_idx(t.links.len() as int, link_fails(t, sm), 0);
        assert(link_fails(t, sm)(le));
        assert(link_deep_error(t, sm, le) is Some);
        assert(!(link_deep_error(t, sm, le)->Some_0 is UnsafeCycle));
    }
    if !(r_strict matches Err(ValidationError::UnsafeCycle { .. })) {
        assert(!(deep_failure(t, sm, CycleRule::RequireMoore) is UnsafeCycle));
        lemma_deep_answer_unique(t, f, r_any, r_strict);
    }
}

/// Deep validation passes exactly when its failing stage is `Valid`.
pub proof fn lemma_deep_ok_iff_valid(t: TopologyView, f: DeepFailure, r: Result<(), ValidationError>)
    requires
        deep_answer(t, f, r),
    ensures
        r is Ok <==> f is Valid,
{
}


/// Two degree violations of one port, kind and direction are the same
/// violation: the limit and the count follow from those.
proof fn lemma_violation_keys(t: TopologyView, v: DegreeViolationView, w: DegreeViolationView)
    requires
        is_degree_violation(t, v),
        is_degree_violation(t, w),
        v.machine == w.machine,
        v.port == w.port,
        v.link_kind == w.link_kind,
        v.direction == w.direction,
    ensures
        v == w,
{
    let (tv, ov) = choose|tag: int, out: bool| #[trigger] reports_violation(t, v, tag, out);
    let (tw, ow) = choose|tag: int, out: bool| #[trigger] reports_violation(t, w, tag, out);
    crate::order::lemma_kind_names_ordered();
    crate::order::lemma_lt_irreflexive("Inline"@);
    crate::order::lemma_lt_irreflexive("Channel"@);
    crate::order::lemma_lt_irreflexive("CasFreeRing"@);
    crate::order::lemma_lt_irreflexive("input"@);
    assert(tv == tw);
    assert(ov == ow);
}

/// The first degree violation is unique.
pub proof fn lemma_first_degree_violation_unique(t: TopologyView, v: DegreeViolationView, w: DegreeViolationView)
    requires
        first_degree_violation(t, v),
        first_degree_violation(t, w),
    ensures
        v == w,
{
    if v != w {
        let kv = (v.machine, v.port);
        let kw = (w.machine, w.port);
        crate::order::lemma_pair_lt_props(kv, kw, kv);
        crate::order::lemma_pair_lt_props(kw, kv, kw);
        crate::order::lemma_lt_total(v.link_kind, w.link_kind);
        crate::order::lemma_lt_irreflexive(v.link_kind);
        crate::order::lemma_lt_total(v.direction, w.direction);
        crate::order::lemma_lt_irreflexive(v.direction);
        assert(violation_before(v, w));
        assert(violation_before(w, v));
        if kv == kw && v.link_kind == w.link_kind && v.direction == w.direction {
            lemma_violation_keys(t, v, w);
        }
    }
}

/// The answer of deep validation is fixed by its failing stage: two
/// answers for the same stage agree.
pub proof fn lemma_deep_answer_unique(t: TopologyView, f: DeepFailure, r1: Result<(), ValidationError>, r2: Result<(), ValidationError>)
    requires
        deep_answer(t, f, r1),
        deep_answer(t, f, r2),
    ensures
        verdict(r1) == verdict(r2),
{
    match f {
        DeepFailure::Degree => {
            match (r1, r2) {
                (
                    Err(ValidationError::DegreeConstraintViolated { machine: m1, port: p1, link_kind: k1, direction: d1, limit: l1, actual: a1 }),
                    Err(ValidationError::DegreeConstraintViolated { machine: m2, port: p2, link_kind: k2, direction: d2, limit: l2, actual: a2 }),
                ) => {
                    lemma_first_degree_violation_unique(
                        t,
                        DegreeViolationView { machine: m1@, port: p1@, link_kind: k1@, direction: d1@, limit: l1, actual: a1 },
                        DegreeViolationView { machine: m2@, port: p2@, link_kind: k2@, direction: d2@, limit: l2, actual: a2 },
                    );
                },
                _ => {},
            }
        },
        DeepFailure::UnsafeCycle => {
            match (r1, r2) {
                (Err(ValidationError::UnsafeCycle { cycle: c1 }), Err(ValidationError::UnsafeCycle { cycle: c2 })) => {
                    let n1 = choose|nodes: Seq<Seq<char>>| #[trigger] node_order(t, nodes) && first_non_moore_cycle(t, nodes) == Some(strs(c1));
                    let n2 = choose|nodes: Seq<Seq<char>>| #[trigger] node_order(t, nodes) && first_non_moore_cycle(t, nodes) == Some(strs(c2));
                    crate::order::lemma_sorted_unique(n1, n2);
                },
                _ => {},
            }
        },
        DeepFailure::InlineCycle => {
            match (r1, r2) {
                (Err(ValidationError::InlineCycle { cycle: c1 }), Err(ValidationError::InlineCycle { cycle: c2 })) => {
                    crate::order::lemma_sorted_unique(strs(c1), strs(c2));
                },
                _ => {},
            }
        },
        _ => {},
    }
}

} // verus!

verus! {

// ── Laws of link resolution ─────────────────────────────────────────────

/// Whether a machine or a function binding of `t` is named `x`.
pub open spec fn declared(t: TopologyView, x: Seq<char>) -> bool {
    ||| exists|j: int| 0 <= j < t.machines.len() && #[trigger] t.machines[j].name == x
    ||| exists|j: int| 0 <= j < t.funcs.len() && #[trigger] t.funcs[j].name == x
}

/// Whether link `l` joins two distinct declared names.
pub open spec fn joins_declared(t: TopologyView, l: LinkSpecView) -> bool {
    l.out.0 != l.into.0 && declared(t, l.out.0) && declared(t, l.into.0)
}

/// A link between two distinct declared names, machines or function
/// bindings alike, resolves: it is not a bad link and the report has no
/// endpoint finding for it.
pub proof fn lemma_declared_link_resolves(t: TopologyView, i: int)
    requires
        0 <= i < t.links.len(),
        t.links[i].out.0 != t.links[i].into.0,
        declared(t, t.links[i].out.0),
        declared(t, t.links[i].into.0),
    ensures
        !link_bad_at(t, i),
        resolve_findings_at(t, i).len() == 0,
{
    lemma_resolve_at_empty(t, i);
}

/// Structural validation accepts exactly the topologies it promises to: when
/// names are unique over machines and functions, every link joins two
/// distinct declared names (a function binding counts as much as a machine),
/// and no output port is linked twice, `validate` answers `Ok`.
pub proof fn lemma_declared_links_validate(t: TopologyView)
    requires
        forall|i: int| 0 <= i < t.machines.len() ==> !#[trigger] machine_dup_at(t, i),
        forall|i: int| 0 <= i < t.funcs.len() ==> !#[trigger] func_dup_at(t, i),
        forall|i: int| 0 <= i < t.links.len() ==> #[trigger] joins_declared(t, t.links[i]),
        forall|i: int| 0 <= i < t.links.len() ==> !#[trigger] fanout_at(t, i),
    ensures
        structural_verdict(t) == Ok::<(), ValidationErrorView>(()),
{
    assert forall|i: int| 0 <= i < t.links.len() implies !#[trigger] link_bad_at(t, i) by {
        assert(joins_declared(t, t.links[i]));
        lemma_declared_link_resolves(t, i);
    }
    lemma_structural_ok(t);
}


/// Structural validation rejects a link that loops on one name or names
/// something that is neither a machine nor a function binding.
pub proof fn lemma_undeclared_link_rejected(t: TopologyView, i: int)
    requires
        0 <= i < t.links.len(),
        t.links[i].out.0 == t.links[i].into.0 || !declared(t, t.links[i].out.0) || !declared(t, t.links[i].into.0),
    ensures
        structural_verdict(t) is Err,
        resolve_findings_at(t, i).len() > 0,
{
    lemma_resolve_at_empty(t, i);
    lemma_structural_ok(t);
    assert(link_bad_at(t, i));
}

} // verus!
