//! Composite machines: a sub-topology with a port-mapping table, registered
//! as a machine type and expanded into a flat topology before deployment.
//!
//! Expanding an instance namespaces its sub-machines as `parent.sub`,
//! namespaces both ends of its sub-links the same way, and redirects the
//! external links that reach the instance through its port mappings.
//! Nested composites expand round by round until none is left.
use vstd::prelude::*;
use vstd::string::StringExecFns;
use crate::deploy::{DynamicTopology, TopologyView, MachineInstance, MachineInstanceView};
use crate::link::{LinkSpec, LinkSpecView};
use crate::name_map::{NameMap, lookup, map_insert, key_is};
use crate::analysis::is_machine;
use crate::strings::{str_eq, decimal, decimal_string};
use crate::seq_util::{first_where, lemma_first_where, lemma_first_where_is, lemma_first_where_none};

verus! {

/// The deepest nesting of composite instances that expands; deeper nesting
/// is deemed runaway. Expansion runs one round per level, and one more
/// round that finds no composite left.
pub const MAX_COMPOSITE_DEPTH: usize = 64;

/// A composite machine definition: a sub-topology and its port mappings.
#[derive(Debug)]
pub struct CompositeSpec {
    /// The sub-topology.
    pub spec: DynamicTopology,
    /// External input port → (sub-machine, sub-port).
    pub input_map: NameMap<(String, String)>,
    /// External output port → (sub-machine, sub-port).
    pub output_map: NameMap<(String, String)>,
}

/// A port mapping by its characters.
pub type PortMapView = Seq<(Seq<char>, (Seq<char>, Seq<char>))>;

/// The mathematical value of a composite definition.
pub struct CompositeSpecView {
    pub spec: TopologyView,
    pub input_map: Seq<(Seq<char>, (Seq<char>, Seq<char>))>,
    pub output_map: Seq<(Seq<char>, (Seq<char>, Seq<char>))>,
}

impl View for CompositeSpec {
    type V = CompositeSpecView;

    open spec fn view(&self) -> CompositeSpecView {
        CompositeSpecView { spec: self.spec@, input_map: self.input_map@, output_map: self.output_map@ }
    }
}

/// An error of a composite definition or of its expansion.
#[derive(Debug)]
pub enum CompositeError {
    /// The input mapping names a sub-machine the sub-topology lacks.
    DanglingInputMapping { ext_port: String, sub_machine: String },
    /// The output mapping names a sub-machine the sub-topology lacks.
    DanglingOutputMapping { ext_port: String, sub_machine: String },
    /// An external port is mapped as an input and as an output.
    DuplicatePortMapping { ext_port: String },
    /// Expansion did not finish within the depth limit.
    TooDeep { depth: usize, hint: String },
}

/// The mathematical value of a composite error.
pub enum CompositeErrorView {
    DanglingInputMapping { ext_port: Seq<char>, sub_machine: Seq<char> },
    DanglingOutputMapping { ext_port: Seq<char>, sub_machine: Seq<char> },
    DuplicatePortMapping { ext_port: Seq<char> },
    TooDeep { depth: usize, hint: Seq<char> },
}

impl View for CompositeError {
    type V = CompositeErrorView;

    open spec fn view(&self) -> CompositeErrorView {
        match self {
            CompositeError::DanglingInputMapping { ext_port, sub_machine } => CompositeErrorView::DanglingInputMapping {
                ext_port: ext_port@,
                sub_machine: sub_machine@,
            },
            CompositeError::DanglingOutputMapping { ext_port, sub_machine } => CompositeErrorView::DanglingOutputMapping {
                ext_port: ext_port@,
                sub_machine: sub_machine@,
            },
            CompositeError::DuplicatePortMapping { ext_port } => CompositeErrorView::DuplicatePortMapping { ext_port: ext_port@ },
            CompositeError::TooDeep { depth, hint } => CompositeErrorView::TooDeep { depth: *depth, hint: hint@ },
        }
    }
}

// ── Building and checking a definition ─────────────────────────────────

/// Whether a mapping entry names a sub-machine that `t` lacks.
pub open spec fn dangling(t: TopologyView) -> spec_fn((Seq<char>, (Seq<char>, Seq<char>))) -> bool {
    |e: (Seq<char>, (Seq<char>, Seq<char>))| !is_machine(t, e.1.0)
}

/// Whether an input entry's external port is also an output.
pub open spec fn also_output(outputs: PortMapView) -> spec_fn((Seq<char>, (Seq<char>, Seq<char>))) -> bool {
    |e: (Seq<char>, (Seq<char>, Seq<char>))| lookup(outputs, e.0) is Some
}

/// The verdict on a definition: the first dangling input (in order of
/// port name), else the first dangling output, else the first port mapped
/// both ways, else success.
pub open spec fn composite_verdict(c: CompositeSpecView) -> Result<(), CompositeErrorView> {
    let di = first_where(c.input_map, dangling(c.spec), 0);
    let d_o = first_where(c.output_map, dangling(c.spec), 0);
    let dup = first_where(c.input_map, also_output(c.output_map), 0);
    if di >= 0 {
        Err(CompositeErrorView::DanglingInputMapping { ext_port: c.input_map[di].0, sub_machine: c.input_map[di].1.0 })
    } else if d_o >= 0 {
        Err(CompositeErrorView::DanglingOutputMapping { ext_port: c.output_map[d_o].0, sub_machine: c.output_map[d_o].1.0 })
    } else if dup >= 0 {
        Err(CompositeErrorView::DuplicatePortMapping { ext_port: c.input_map[dup].0 })
    } else {
        Ok(())
    }
}

/// Whether some machine of `spec` is named `name`.
pub(crate) fn has_machine(spec: &DynamicTopology, name: &str) -> (r: bool)
    ensures
        r == is_machine(spec@, name@),
{
    let mut i: usize = 0;
    while i < spec.machines.len()
        invariant
            i <= spec.machines.len(),
            forall|j: int| 0 <= j < i ==> #[trigger] spec@.machines[j].name != name@,
        decreases spec.machines.len() - i,
    {
        if str_eq(spec.machines[i].name.as_str(), name) {
            proof {
                assert(spec@.machines[i as int].name == name@);
            }
            return true;
        }
        i = i + 1;
    }
    false
}

/// The first entry of `m` whose sub-machine `spec` lacks.
fn first_dangling(spec: &DynamicTopology, m: &NameMap<(String, String)>) -> (r: Option<usize>)
    ensures
        match r {
            Some(i) => i < m@.len() && first_where(m@, dangling(spec@), 0) == i,
            None => first_where(m@, dangling(spec@), 0) == -1,
        },
{
    let ghost p = dangling(spec@);
    let mut i: usize = 0;
    while i < m.len()
        invariant
            i <= m@.len(),
            p == dangling(spec@),
            forall|j: int| 0 <= j < i ==> !p(#[trigger] m@[j]),
        decreases m@.len() - i,
    {
        let e = m.value_at(i);
        if !has_machine(spec, e.0.as_str()) {
            proof {
                lemma_first_where_is(m@, p, i as int);
            }
            return Some(i);
        }
        i = i + 1;
    }
    proof {
        lemma_first_where_none(m@, p);
    }
    None
}

impl CompositeSpec {
    /// A definition with empty port mappings.
    pub fn new(spec: DynamicTopology) -> (c: Self)
        ensures
            c@ == (CompositeSpecView { spec: spec@, input_map: Seq::empty(), output_map: Seq::empty() }),
    {
        CompositeSpec { spec, input_map: NameMap::new(), output_map: NameMap::new() }
    }

    /// The same definition with external input `ext_port` mapped to
    /// `(sub_machine, sub_port)`.
    pub fn with_input(self, ext_port: &str, sub_machine: &str, sub_port: &str) -> (c: Self)
        ensures
            c@ == (CompositeSpecView {
                input_map: map_insert(self@.input_map, ext_port@, (sub_machine@, sub_port@)),
                ..self@
            }),
    {
        let mut c = self;
        c.input_map.insert(ext_port, (sub_machine.to_owned(), sub_port.to_owned()));
        c
    }

    /// The same definition with external output `ext_port` mapped to
    /// `(sub_machine, sub_port)`.
    pub fn with_output(self, ext_port: &str, sub_machine: &str, sub_port: &str) -> (c: Self)
        ensures
            c@ == (CompositeSpecView {
                output_map: map_insert(self@.output_map, ext_port@, (sub_machine@, sub_port@)),
                ..self@
            }),
    {
        let mut c = self;
        c.output_map.insert(ext_port, (sub_machine.to_owned(), sub_port.to_owned()));
        c
    }

    /// Checks that every mapping names an existing sub-machine and that no
    /// external port is mapped both as an input and as an output.
    pub fn validate(&self) -> (r: Result<(), CompositeError>)
        ensures
            match r {
                Ok(()) => composite_verdict(self@) == Ok::<(), CompositeErrorView>(()),
                Err(e) => composite_verdict(self@) == Err::<(), CompositeErrorView>(e@),
            },
    {
        match first_dangling(&self.spec, &self.input_map) {
            Some(i) => {
                let e = self.input_map.value_at(i);
                return Err(CompositeError::DanglingInputMapping {
                    ext_port: self.input_map.key_at(i).to_owned(),
                    sub_machine: e.0.clone(),
                });
            },
            None => {},
        }
        match first_dangling(&self.spec, &self.output_map) {
            Some(i) => {
                let e = self.output_map.value_at(i);
                return Err(CompositeError::DanglingOutputMapping {
                    ext_port: self.output_map.key_at(i).to_owned(),
                    sub_machine: e.0.clone(),
                });
            },
            None => {},
        }
        let ghost p = also_output(self.output_map@);
        let mut i: usize = 0;
        while i < self.input_map.len()
            invariant
                i <= self.input_map@.len(),
                p == also_output(self.output_map@),
                first_where(self.input_map@, dangling(self.spec@), 0) == -1,
                first_where(self.output_map@, dangling(self.spec@), 0) == -1,
                forall|j: int| 0 <= j < i ==> !p(#[trigger] self.input_map@[j]),
            decreases self.input_map@.len() - i,
        {
            let k = self.input_map.key_at(i);
            if self.output_map.contains_key(k) {
                proof {
                    lemma_first_where_is(self.input_map@, p, i as int);
                }
                return Err(CompositeError::DuplicatePortMapping { ext_port: k.to_owned() });
            }
            i = i + 1;
        }
        proof {
            lemma_first_where_none(self.input_map@, p);
        }
        Ok(())
    }
}

// ── Expansion ───────────────────────────────────────────────────────────

/// The registry of composite definitions by machine type.
pub type CompositeRegistryView = Seq<(Seq<char>, CompositeSpecView)>;

/// `prefix.name`.
pub open spec fn prefixed(prefix: Seq<char>, name: Seq<char>) -> Seq<char> {
    prefix + "."@ + name
}

/// A sub-machine of instance `prefix`, renamed into its namespace.
pub open spec fn sub_machine(prefix: Seq<char>, m: MachineInstanceView) -> MachineInstanceView {
    MachineInstanceView { name: prefixed(prefix, m.name), ..m }
}

/// A sub-link of instance `prefix`, both ends renamed into its namespace.
pub open spec fn sub_link(prefix: Seq<char>, l: LinkSpecView) -> LinkSpecView {
    LinkSpecView { out: (prefixed(prefix, l.out.0), l.out.1), into: (prefixed(prefix, l.into.0), l.into.1), kind: l.kind }
}

/// The machines that one round makes of machine `m`: the renamed
/// sub-machines of its definition, or `m` itself.
pub open spec fn machine_expansion(m: MachineInstanceView, comps: CompositeRegistryView) -> Seq<MachineInstanceView> {
    match lookup(comps, m.machine_type) {
        Some(c) => c.spec.machines.map_values(|s: MachineInstanceView| sub_machine(m.name, s)),
        None => seq![m],
    }
}

/// The renamed sub-links that one round makes of machine `m`.
pub open spec fn machine_sublinks(m: MachineInstanceView, comps: CompositeRegistryView) -> Seq<LinkSpecView> {
    match lookup(comps, m.machine_type) {
        Some(c) => c.spec.links.map_values(|l: LinkSpecView| sub_link(m.name, l)),
        None => Seq::empty(),
    }
}

/// The machines after one round.
pub open spec fn round_machines(ms: Seq<MachineInstanceView>, comps: CompositeRegistryView) -> Seq<MachineInstanceView>
    decreases ms.len(),
{
    if ms.len() == 0 {
        Seq::empty()
    } else {
        round_machines(ms.drop_last(), comps) + machine_expansion(ms.last(), comps)
    }
}

/// The sub-links that one round adds, instance by instance.
pub open spec fn round_sublinks(ms: Seq<MachineInstanceView>, comps: CompositeRegistryView) -> Seq<LinkSpecView>
    decreases ms.len(),
{
    if ms.len() == 0 {
        Seq::empty()
    } else {
        round_sublinks(ms.drop_last(), comps) + machine_sublinks(ms.last(), comps)
    }
}

/// The definition of the last instance named `name` that a round expands.
pub open spec fn instance_of(ms: Seq<MachineInstanceView>, comps: CompositeRegistryView, name: Seq<char>) -> Option<CompositeSpecView>
    decreases ms.len(),
{
    if ms.len() == 0 {
        None
    } else if ms.last().name == name && lookup(comps, ms.last().machine_type) is Some {
        lookup(comps, ms.last().machine_type)
    } else {
        instance_of(ms.drop_last(), comps, name)
    }
}

/// Where a link's source goes: through the output mapping of the instance
/// it leaves, when that mapping has the port.
pub open spec fn redirect_out(ms: Seq<MachineInstanceView>, comps: CompositeRegistryView, e: (Seq<char>, Seq<char>)) -> (Seq<char>, Seq<char>) {
    match instance_of(ms, comps, e.0) {
        Some(c) => match lookup(c.output_map, e.1) {
            Some(t) => (prefixed(e.0, t.0), t.1),
            None => e,
        },
        None => e,
    }
}

/// Where a link's target goes: through the input mapping of the instance
/// it reaches, when that mapping has the port.
pub open spec fn redirect_into(ms: Seq<MachineInstanceView>, comps: CompositeRegistryView, e: (Seq<char>, Seq<char>)) -> (Seq<char>, Seq<char>) {
    match instance_of(ms, comps, e.0) {
        Some(c) => match lookup(c.input_map, e.1) {
            Some(t) => (prefixed(e.0, t.0), t.1),
            None => e,
        },
        None => e,
    }
}

/// An external link after one round.
pub open spec fn redirect(ms: Seq<MachineInstanceView>, comps: CompositeRegistryView, l: LinkSpecView) -> LinkSpecView {
    LinkSpecView { out: redirect_out(ms, comps, l.out), into: redirect_into(ms, comps, l.into), kind: l.kind }
}

/// The links after one round: the new sub-links, then the external links
/// redirected.
pub open spec fn round_links(ms: Seq<MachineInstanceView>, ls: Seq<LinkSpecView>, comps: CompositeRegistryView) -> Seq<LinkSpecView> {
    round_sublinks(ms, comps) + ls.map_values(|l: LinkSpecView| redirect(ms, comps, l))
}

/// Whether some machine is an instance of a registered composite.
pub open spec fn has_composite(ms: Seq<MachineInstanceView>, comps: CompositeRegistryView) -> bool {
    exists|i: int| 0 <= i < ms.len() && #[trigger] lookup(comps, ms[i].machine_type) is Some
}

/// The outcome of at most `rounds` rounds of expansion: the flat topology
/// after the first round that found no composite, or `None` when every
/// round found one.
pub open spec fn expansion(ms: Seq<MachineInstanceView>, ls: Seq<LinkSpecView>, comps: CompositeRegistryView, rounds: nat) -> Option<(Seq<MachineInstanceView>, Seq<LinkSpecView>)>
    decreases rounds,
{
    if rounds == 0 {
        None
    } else if !has_composite(ms, comps) {
        Some((round_machines(ms, comps), round_links(ms, ls, comps)))
    } else {
        expansion(round_machines(ms, comps), round_links(ms, ls, comps), comps, (rounds - 1) as nat)
    }
}

/// The values of a sequence of machine instances.
pub open spec fn machines_view(v: Seq<MachineInstance>) -> Seq<MachineInstanceView> {
    v.map_values(|m: MachineInstance| m@)
}

/// The values of a sequence of links.
pub open spec fn links_view(v: Seq<LinkSpec>) -> Seq<LinkSpecView> {
    v.map_values(|l: LinkSpec| l@)
}

/// The hint of a runaway expansion.
pub open spec fn too_deep_hint() -> Seq<char> {
    "composite machine_type may be self-referential (its sub-topology contains an instance of itself). Check composite definitions for cycles."@
}

/// `prefix.name` as a string.
fn join_name(prefix: &str, name: &str) -> (r: String)
    ensures
        r@ == prefixed(prefix@, name@),
{
    String::from_str(prefix).concat(".").concat(name)
}

/// The definition of the last instance named `name` that a round expands.
fn find_instance<'a>(machines: &Vec<MachineInstance>, composites: &'a NameMap<CompositeSpec>, name: &str) -> (r: Option<&'a CompositeSpec>)
    ensures
        match r {
            Some(c) => instance_of(machines_view(machines@), composites@, name@) == Some(c@),
            None => instance_of(machines_view(machines@), composites@, name@) is None,
        },
{
    let ghost ms = machines_view(machines@);
    let mut j: usize = machines.len();
    assert(ms.take(j as int) =~= ms);
    while j > 0
        invariant
            j <= machines.len(),
            ms == machines_view(machines@),
            instance_of(ms, composites@, name@) == instance_of(ms.take(j as int), composites@, name@),
        decreases j,
    {
        let m = &machines[j - 1];
        proof {
            assert(ms.take(j as int).last() == m@);
            assert(ms.take(j as int).drop_last() =~= ms.take(j - 1));
        }
        if str_eq(m.name.as_str(), name) {
            match composites.get(m.machine_type.as_str()) {
                Some(c) => {
                    return Some(c);
                },
                None => {},
            }
        }
        j = j - 1;
    }
    None
}

/// One round of expansion: the new machines, the new links, and whether
/// any machine was an instance of a registered composite.
fn expand_round(machines: &Vec<MachineInstance>, links: &Vec<LinkSpec>, composites: &NameMap<CompositeSpec>) -> (r: (
    Vec<MachineInstance>,
    Vec<LinkSpec>,
    bool,
))
    ensures
        machines_view(r.0@) == round_machines(machines_view(machines@), composites@),
        links_view(r.1@) == round_links(machines_view(machines@), links_view(links@), composites@),
        r.2 == has_composite(machines_view(machines@), composites@),
{
    let ghost ms = machines_view(machines@);
    let ghost comps = composites@;
    let mut nm: Vec<MachineInstance> = Vec::new();
    let mut nl: Vec<LinkSpec> = Vec::new();
    let mut found = false;
    let mut i: usize = 0;
    while i < machines.len()
        invariant
            i <= machines.len(),
            ms == machines_view(machines@),
            comps == composites@,
            machines_view(nm@) == round_machines(ms.take(i as int), comps),
            links_view(nl@) == round_sublinks(ms.take(i as int), comps),
            found == exists|j: int| 0 <= j < i && #[trigger] lookup(comps, ms[j].machine_type) is Some,
        decreases machines.len() - i,
    {
        let m = &machines[i];
        proof {
            assert(ms.take(i + 1).last() == m@);
            assert(ms.take(i + 1).drop_last() =~= ms.take(i as int));
            assert(ms[i as int] == m@);
        }
        let ghost nm0 = machines_view(nm@);
        let ghost nl0 = links_view(nl@);
        match composites.get(m.machine_type.as_str()) {
            Some(comp) => {
                found = true;
                let ghost c = comp@;
                let mut k: usize = 0;
                while k < comp.spec.machines.len()
                    invariant
                        k <= comp.spec.machines.len(),
                        c == comp@,
                        machines_view(nm@) == nm0 + c.spec.machines.take(k as int).map_values(|s: MachineInstanceView| sub_machine(m.name@, s)),
                    decreases comp.spec.machines.len() - k,
                {
                    let sub = &comp.spec.machines[k];
                    let mut e = sub.clone();
                    e.name = join_name(m.name.as_str(), sub.name.as_str());
                    let ghost before = nm@;
                    nm.push(e);
                    proof {
                        assert(c.spec.machines[k as int] == sub@);
                        assert(machines_view(nm@) =~= machines_view(before).push(sub_machine(m.name@, sub@)));
                        assert(c.spec.machines.take(k + 1).map_values(|s: MachineInstanceView| sub_machine(m.name@, s))
                            =~= c.spec.machines.take(k as int).map_values(|s: MachineInstanceView| sub_machine(m.name@, s)).push(sub_machine(m.name@, sub@)));
                    }
                    k = k + 1;
                }
                let mut k: usize = 0;
                while k < comp.spec.links.len()
                    invariant
                        k <= comp.spec.links.len(),
                        c == comp@,
                        links_view(nl@) == nl0 + c.spec.links.take(k as int).map_values(|l: LinkSpecView| sub_link(m.name@, l)),
                    decreases comp.spec.links.len() - k,
                {
                    let sub = &comp.spec.links[k];
                    let l = LinkSpec {
                        out: (join_name(m.name.as_str(), sub.out.0.as_str()), sub.out.1.clone()),
                        into: (join_name(m.name.as_str(), sub.into.0.as_str()), sub.into.1.clone()),
                        kind: sub.kind,
                    };
                    let ghost before = nl@;
                    nl.push(l);
                    proof {
                        assert(c.spec.links[k as int] == sub@);
                        assert(links_view(nl@) =~= links_view(before).push(sub_link(m.name@, sub@)));
                        assert(c.spec.links.take(k + 1).map_values(|l: LinkSpecView| sub_link(m.name@, l))
                            =~= c.spec.links.take(k as int).map_values(|l: LinkSpecView| sub_link(m.name@, l)).push(sub_link(m.name@, sub@)));
                    }
                    k = k + 1;
                }
                proof {
                    assert(c.spec.machines.take(c.spec.machines.len() as int) =~= c.spec.machines);
                    assert(c.spec.links.take(c.spec.links.len() as int) =~= c.spec.links);
                }
            },
            None => {
                let ghost before = nm@;
                nm.push(m.clone());
                proof {
                    assert(machines_view(nm@) =~= machines_view(before).push(m@));
                    assert(machines_view(nm@) =~= nm0 + seq![m@]);
                    assert(nl0 + Seq::<LinkSpecView>::empty() =~= nl0);
                }
            },
        }
        i = i + 1;
    }
    proof {
        assert(ms.take(machines.len() as int) =~= ms);
    }
    // The external links, redirected through the expanded instances.
    let ghost sl = links_view(nl@);
    let mut j: usize = 0;
    while j < links.len()
        invariant
            j <= links.len(),
            ms == machines_view(machines@),
            comps == composites@,
            links_view(nl@) == sl + links_view(links@).take(j as int).map_values(|l: LinkSpecView| redirect(ms, comps, l)),
        decreases links.len() - j,
    {
        let l = &links[j];
        let out = match find_instance(machines, composites, l.out.0.as_str()) {
            Some(c) => match c.output_map.get(l.out.1.as_str()) {
                Some(t) => (join_name(l.out.0.as_str(), t.0.as_str()), t.1.clone()),
                None => (l.out.0.clone(), l.out.1.clone()),
            },
            None => (l.out.0.clone(), l.out.1.clone()),
        };
        let into = match find_instance(machines, composites, l.into.0.as_str()) {
            Some(c) => match c.input_map.get(l.into.1.as_str()) {
                Some(t) => (join_name(l.into.0.as_str(), t.0.as_str()), t.1.clone()),
                None => (l.into.0.clone(), l.into.1.clone()),
            },
            None => (l.into.0.clone(), l.into.1.clone()),
        };
        let nlink = LinkSpec { out, into, kind: l.kind };
        let ghost before = nl@;
        proof {
            assert(links_view(links@)[j as int] == l@);
            assert(nlink@ == redirect(ms, comps, l@));
        }
        nl.push(nlink);
        proof {
            assert(links_view(nl@) =~= links_view(before).push(redirect(ms, comps, l@)));
            assert(links_view(links@).take(j + 1).map_values(|l: LinkSpecView| redirect(ms, comps, l))
                =~= links_view(links@).take(j as int).map_values(|l: LinkSpecView| redirect(ms, comps, l)).push(redirect(ms, comps, l@)));
        }
        j = j + 1;
    }
    proof {
        assert(links_view(links@).take(links.len() as int) =~= links_view(links@));
    }
    (nm, nl, found)
}

/// Expands every composite instance, round by round, until none is left.
/// Fails when the rounds run past the depth limit, which a definition that
/// contains an instance of itself always does.
pub fn expand_composites(machines: Vec<MachineInstance>, links: Vec<LinkSpec>, composites: &NameMap<CompositeSpec>) -> (r: Result<
    (Vec<MachineInstance>, Vec<LinkSpec>),
    CompositeError,
>)
    ensures
        match r {
            Ok((m, l)) => expansion(machines_view(machines@), links_view(links@), composites@, (MAX_COMPOSITE_DEPTH + 1) as nat)
                == Some((machines_view(m@), links_view(l@)))
                && !has_composite(machines_view(m@), composites@)
                && keeps_links(links_view(links@), links_view(l@)),
            Err(e) => expansion(machines_view(machines@), links_view(links@), composites@, (MAX_COMPOSITE_DEPTH + 1) as nat) is None
                && e@ == (CompositeErrorView::TooDeep { depth: MAX_COMPOSITE_DEPTH, hint: too_deep_hint() }),
        },
{
    let ghost target = expansion(machines_view(machines@), links_view(links@), composites@, (MAX_COMPOSITE_DEPTH + 1) as nat);
    let mut cur_m = machines;
    let mut cur_l = links;
    let mut depth: usize = 0;
    while depth <= MAX_COMPOSITE_DEPTH
        invariant
            depth <= MAX_COMPOSITE_DEPTH + 1,
            target == expansion(machines_view(machines@), links_view(links@), composites@, (MAX_COMPOSITE_DEPTH + 1) as nat),
            target == expansion(machines_view(cur_m@), links_view(cur_l@), composites@, (MAX_COMPOSITE_DEPTH + 1 - depth) as nat),
        decreases MAX_COMPOSITE_DEPTH + 1 - depth,
    {
        let ghost m0 = machines_view(cur_m@);
        let ghost l0 = links_view(cur_l@);
        let (nm, nl, found) = expand_round(&cur_m, &cur_l, composites);
        cur_m = nm;
        cur_l = nl;
        if !found {
            proof {
                assert(expansion(m0, l0, composites@, (MAX_COMPOSITE_DEPTH + 1 - depth) as nat)
                    == Some((round_machines(m0, composites@), round_links(m0, l0, composites@))));
                lemma_expansion_complete(machines_view(machines@), links_view(links@), composites@, (MAX_COMPOSITE_DEPTH + 1) as nat);
            }
            return Ok((cur_m, cur_l));
        }
        depth = depth + 1;
    }
    Err(CompositeError::TooDeep {
        depth: MAX_COMPOSITE_DEPTH,
        hint: String::from_str(
            "composite machine_type may be self-referential (its sub-topology contains an instance of itself). Check composite definitions for cycles.",
        ),
    })
}

// ── Error text ──────────────────────────────────────────────────────────

/// The text of a composite error.
pub open spec fn composite_error_text(e: CompositeErrorView) -> Seq<char> {
    match e {
        CompositeErrorView::DanglingInputMapping { ext_port, sub_machine } =>
            "composite input_map references non-existent sub-machine: ext_port `"@ + ext_port + "` \u{2192} `"@ + sub_machine
            + "` (not in spec.machines)"@,
        CompositeErrorView::DanglingOutputMapping { ext_port, sub_machine } =>
            "composite output_map references non-existent sub-machine: ext_port `"@ + ext_port + "` \u{2192} `"@ + sub_machine
            + "` (not in spec.machines)"@,
        CompositeErrorView::DuplicatePortMapping { ext_port } => "external port `"@ + ext_port
            + "` appears in both input_map and output_map (a port cannot be both input and output)"@,
        CompositeErrorView::TooDeep { depth, hint } => "composite expansion exceeded depth "@ + decimal(depth as nat) + ": "@ + hint,
    }
}

impl CompositeError {
    /// The human-readable text of the error.
    pub fn message(&self) -> (m: String)
        ensures
            m@ == composite_error_text(self@),
    {
        match self {
            CompositeError::DanglingInputMapping { ext_port, sub_machine } => String::from_str(
                "composite input_map references non-existent sub-machine: ext_port `",
            ).concat(ext_port.as_str()).concat("` \u{2192} `").concat(sub_machine.as_str()).concat("` (not in spec.machines)"),
            CompositeError::DanglingOutputMapping { ext_port, sub_machine } => String::from_str(
                "composite output_map references non-existent sub-machine: ext_port `",
            ).concat(ext_port.as_str()).concat("` \u{2192} `").concat(sub_machine.as_str()).concat("` (not in spec.machines)"),
            CompositeError::DuplicatePortMapping { ext_port } => String::from_str("external port `").concat(ext_port.as_str()).concat(
                "` appears in both input_map and output_map (a port cannot be both input and output)",
            ),
            CompositeError::TooDeep { depth, hint } => {
                let d = decimal_string(*depth as u64);
                String::from_str("composite expansion exceeded depth ").concat(d.as_str()).concat(": ").concat(hint.as_str())
            },
        }
    }
}

/// Expansion leaves a topology with no composite instance as it is: the
/// same machines and the same links, in the same order.
pub proof fn lemma_expand_without_composites(ms: Seq<MachineInstanceView>, ls: Seq<LinkSpecView>, comps: CompositeRegistryView)
    requires
        !has_composite(ms, comps),
    ensures
        expansion(ms, ls, comps, (MAX_COMPOSITE_DEPTH + 1) as nat) == Some((ms, ls)),
{
    lemma_round_identity(ms, comps);
    assert forall|i: int| 0 <= i < ls.len() implies #[trigger] redirect(ms, comps, ls[i]) == ls[i] by {
        lemma_no_instance(ms, comps, ls[i].out.0);
        lemma_no_instance(ms, comps, ls[i].into.0);
    }
    assert(ls.map_values(|l: LinkSpecView| redirect(ms, comps, l)) =~= ls);
    assert(round_links(ms, ls, comps) =~= ls);
}

proof fn lemma_round_identity(ms: Seq<MachineInstanceView>, comps: CompositeRegistryView)
    requires
        !has_composite(ms, comps),
    ensures
        round_machines(ms, comps) == ms,
        round_sublinks(ms, comps) == Seq::<LinkSpecView>::empty(),
    decreases ms.len(),
{
    if ms.len() > 0 {
        let p = ms.drop_last();
        assert forall|i: int| 0 <= i < p.len() implies !(#[trigger] lookup(comps, p[i].machine_type) is Some) by {
            assert(p[i] == ms[i]);
        }
        lemma_round_identity(p, comps);
        assert(lookup(comps, ms[ms.len() - 1].machine_type) is None);
        assert(ms =~= p + seq![ms.last()]);
        assert(round_sublinks(ms, comps) =~= Seq::<LinkSpecView>::empty());
    }
}

proof fn lemma_no_instance(ms: Seq<MachineInstanceView>, comps: CompositeRegistryView, name: Seq<char>)
    requires
        !has_composite(ms, comps),
    ensures
        instance_of(ms, comps, name) is None,
    decreases ms.len(),
{
    if ms.len() > 0 {
        let p = ms.drop_last();
        assert forall|i: int| 0 <= i < p.len() implies !(#[trigger] lookup(comps, p[i].machine_type) is Some) by {
            assert(p[i] == ms[i]);
        }
        lemma_no_instance(p, comps, name);
        assert(lookup(comps, ms[ms.len() - 1].machine_type) is None);
    }
}

/// Whether `out` ends with the links `ls`, each kept with its kind (its
/// ends possibly redirected into sub-machines).
pub open spec fn keeps_links(ls: Seq<LinkSpecView>, out: Seq<LinkSpecView>) -> bool {
    &&& out.len() >= ls.len()
    &&& forall|i: int| 0 <= i < ls.len() ==> out[out.len() - ls.len() + i].kind == (#[trigger] ls[i]).kind
}

proof fn lemma_round_keeps_links(ms: Seq<MachineInstanceView>, ls: Seq<LinkSpecView>, comps: CompositeRegistryView)
    ensures
        keeps_links(ls, round_links(ms, ls, comps)),
{
    let sub = round_sublinks(ms, comps);
    let red = ls.map_values(|l: LinkSpecView| redirect(ms, comps, l));
    let out = round_links(ms, ls, comps);
    assert forall|i: int| 0 <= i < ls.len() implies out[out.len() - ls.len() + i].kind == (#[trigger] ls[i]).kind by {
        assert(out[out.len() - ls.len() + i] == red[i]);
    }
}

proof fn lemma_keeps_links_trans(a: Seq<LinkSpecView>, b: Seq<LinkSpecView>, c: Seq<LinkSpecView>)
    requires
        keeps_links(a, b),
        keeps_links(b, c),
    ensures
        keeps_links(a, c),
{
    assert forall|i: int| 0 <= i < a.len() implies c[c.len() - a.len() + i].kind == (#[trigger] a[i]).kind by {
        let j = b.len() - a.len() + i;
        assert(b[j].kind == a[i].kind);
        assert(c[c.len() - b.len() + j].kind == b[j].kind);
        assert(c.len() - b.len() + j == c.len() - a.len() + i);
    }
}

/// Expansion runs until no composite instance remains, and keeps every
/// link it was given: when it succeeds, no machine of the result is an
/// instance of a registered composite, and the result's links end with the
/// input links, in order and each of its kind, their ends redirected into
/// the sub-topologies.
pub proof fn lemma_expansion_complete(ms: Seq<MachineInstanceView>, ls: Seq<LinkSpecView>, comps: CompositeRegistryView, rounds: nat)
    requires
        expansion(ms, ls, comps, rounds) is Some,
    ensures
        !has_composite(expansion(ms, ls, comps, rounds)->Some_0.0, comps),
        keeps_links(ls, expansion(ms, ls, comps, rounds)->Some_0.1),
    decreases rounds,
{
    lemma_round_keeps_links(ms, ls, comps);
    if !has_composite(ms, comps) {
        lemma_round_identity(ms, comps);
    } else {
        let m1 = round_machines(ms, comps);
        let l1 = round_links(ms, ls, comps);
        lemma_expansion_complete(m1, l1, comps, (rounds - 1) as nat);
        lemma_keeps_links_trans(ls, l1, expansion(m1, l1, comps, (rounds - 1) as nat)->Some_0.1);
    }
}

/// Whether some machine of `ms` is of type `ty`.
pub open spec fn has_type(ms: Seq<MachineInstanceView>, ty: Seq<char>) -> bool {
    exists|i: int| 0 <= i < ms.len() && #[trigger] ms[i].machine_type == ty
}

/// A definition whose sub-topology holds an instance of its own type never
/// finishes expanding: a topology with an instance of it fails with the
/// depth limit, however many rounds are allowed.
pub proof fn lemma_self_reference_too_deep(ms: Seq<MachineInstanceView>, ls: Seq<LinkSpecView>, comps: CompositeRegistryView, ty: Seq<char>, rounds: nat)
    requires
        lookup(comps, ty) is Some,
        has_type(lookup(comps, ty)->Some_0.spec.machines, ty),
        has_type(ms, ty),
    ensures
        expansion(ms, ls, comps, rounds) is None,
    decreases rounds,
{
    if rounds > 0 {
        let i = choose|i: int| 0 <= i < ms.len() && #[trigger] ms[i].machine_type == ty;
        assert(lookup(comps, ms[i].machine_type) is Some);
        lemma_round_keeps_type(ms, comps, ty);
        lemma_self_reference_too_deep(round_machines(ms, comps), round_links(ms, ls, comps), comps, ty, (rounds - 1) as nat);
    }
}

proof fn lemma_round_keeps_type(ms: Seq<MachineInstanceView>, comps: CompositeRegistryView, ty: Seq<char>)
    requires
        lookup(comps, ty) is Some,
        has_type(lookup(comps, ty)->Some_0.spec.machines, ty),
        has_type(ms, ty),
    ensures
        has_type(round_machines(ms, comps), ty),
    decreases ms.len(),
{
    let last = ms.last();
    let p = ms.drop_last();
    let front = round_machines(p, comps);
    let tail = machine_expansion(last, comps);
    assert(round_machines(ms, comps) == front + tail);
    if last.machine_type == ty {
        let c = lookup(comps, ty)->Some_0;
        let j = choose|j: int| 0 <= j < c.spec.machines.len() && #[trigger] c.spec.machines[j].machine_type == ty;
        assert(tail[j] == sub_machine(last.name, c.spec.machines[j]));
        assert((front + tail)[front.len() + j] == tail[j]);
        assert((front + tail)[front.len() + j].machine_type == ty);
    } else {
        let i = choose|i: int| 0 <= i < ms.len() && #[trigger] ms[i].machine_type == ty;
        assert(i < p.len());
        assert(p[i] == ms[i]);
        lemma_round_keeps_type(p, comps, ty);
        let k = choose|k: int| 0 <= k < front.len() && #[trigger] front[k].machine_type == ty;
        assert((front + tail)[k] == front[k]);
        assert((front + tail)[k].machine_type == ty);
    }
}

} // verus!
