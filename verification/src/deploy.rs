//! Deployment specification: which machines and functions exist, how they
//! are linked, and with what physical resources each machine runs; the
//! incremental patches that edit it and the checks that validate it.
use vstd::prelude::*;
use crate::link::{LinkKind, LinkSpec, LinkSpecView, WritePolicy};
use crate::flow::{CarrierCompatibility, CarrierCompatResult, FlowKind, flow_preference};
use crate::resource::MachinePhysicalSpec;
use crate::runtime_contract::LinkDelay;
use crate::seq_util::{first_where, lemma_first_where, lemma_filter_push, lemma_filter_idempotent, lemma_filter_elements};

verus! {

// ── Machine instance, function binding, settings ────────────────────────

/// A machine instance of the deployment.
#[derive(Debug)]
pub struct MachineInstance {
    /// Unique name within the deployment (referenced by links).
    pub name: String,
    /// Type name registered with the runtime factory.
    pub machine_type: String,
    /// Physical resource specification.
    pub physical: MachinePhysicalSpec,
    /// Initial configuration overrides (key, JSON value).
    pub config_overrides: Vec<(String, String)>,
    /// Whether the machine has Moore semantics (output depends only on the
    /// pre-update state).
    pub is_moore: bool,
}

/// The mathematical value of a machine instance.
pub struct MachineInstanceView {
    pub name: Seq<char>,
    pub machine_type: Seq<char>,
    pub physical: MachinePhysicalSpec,
    pub config_overrides: Seq<(Seq<char>, Seq<char>)>,
    pub is_moore: bool,
}

/// The value of a pair of strings.
pub open spec fn pair_view(p: (String, String)) -> (Seq<char>, Seq<char>) {
    (p.0@, p.1@)
}

impl View for MachineInstance {
    type V = MachineInstanceView;

    open spec fn view(&self) -> MachineInstanceView {
        MachineInstanceView {
            name: self.name@,
            machine_type: self.machine_type@,
            physical: self.physical,
            config_overrides: self.config_overrides@.map_values(|p: (String, String)| pair_view(p)),
            is_moore: self.is_moore,
        }
    }
}

fn clone_pairs(v: &Vec<(String, String)>) -> (r: Vec<(String, String)>)
    ensures
        r@.map_values(|p: (String, String)| pair_view(p)) == v@.map_values(|p: (String, String)| pair_view(p)),
{
    let mut r: Vec<(String, String)> = Vec::new();
    let mut k: usize = 0;
    while k < v.len()
        invariant
            k <= v.len(),
            r.len() == k,
            forall|t: int| 0 <= t < k ==> #[trigger] pair_view(r@[t]) == pair_view(v@[t]),
        decreases v.len() - k,
    {
        let a = v[k].0.clone();
        let b = v[k].1.clone();
        r.push((a, b));
        k = k + 1;
    }
    assert(r@.map_values(|p: (String, String)| pair_view(p)) =~= v@.map_values(|p: (String, String)| pair_view(p)));
    r
}

impl Clone for MachineInstance {
    fn clone(&self) -> (r: Self)
        ensures
            r@ == self@,
    {
        MachineInstance {
            name: self.name.clone(),
            machine_type: self.machine_type.clone(),
            physical: self.physical.clone(),
            config_overrides: clone_pairs(&self.config_overrides),
            is_moore: self.is_moore,
        }
    }
}

impl MachineInstance {
    /// A non-Moore instance with no configuration overrides.
    pub fn new(name: &str, machine_type: &str, physical: MachinePhysicalSpec) -> (m: Self)
        ensures
            m@ == (MachineInstanceView {
                name: name@,
                machine_type: machine_type@,
                physical,
                config_overrides: Seq::empty(),
                is_moore: false,
            }),
    {
        let m = MachineInstance {
            name: name.to_owned(),
            machine_type: machine_type.to_owned(),
            physical,
            config_overrides: Vec::new(),
            is_moore: false,
        };
        assert(m@.config_overrides =~= Seq::<(Seq<char>, Seq<char>)>::empty());
        m
    }

    /// The same instance, declared Moore.
    pub fn moore(self) -> (m: Self)
        ensures
            m@ == (MachineInstanceView { is_moore: true, ..self@ }),
    {
        MachineInstance { is_moore: true, ..self }
    }
}

/// A function type referenced by the deployment.
#[derive(Debug)]
pub struct FuncBinding {
    /// Unique name within the deployment.
    pub name: String,
    /// Type name registered with the runtime factory.
    pub func_type: String,
}

/// The mathematical value of a function binding.
pub struct FuncBindingView {
    pub name: Seq<char>,
    pub func_type: Seq<char>,
}

impl View for FuncBinding {
    type V = FuncBindingView;

    open spec fn view(&self) -> FuncBindingView {
        FuncBindingView { name: self.name@, func_type: self.func_type@ }
    }
}

impl Clone for FuncBinding {
    fn clone(&self) -> (r: Self)
        ensures
            r@ == self@,
    {
        FuncBinding { name: self.name.clone(), func_type: self.func_type.clone() }
    }
}

impl FuncBinding {
    /// A binding named `name` of type `func_type`.
    pub fn new(name: &str, func_type: &str) -> (f: Self)
        ensures
            f@ == (FuncBindingView { name: name@, func_type: func_type@ }),
    {
        FuncBinding { name: name.to_owned(), func_type: func_type.to_owned() }
    }
}

/// Global deployment settings.
#[derive(Debug, Clone, Copy, PartialEq, Eq, Structural)]
pub struct DeploySettings {
    /// CPU-bound threads in the shared pool.
    pub cpu_threads: usize,
    /// IO threads of the async runtime.
    pub io_threads: usize,
}

impl Default for DeploySettings {
    fn default() -> (s: Self)
        ensures
            s == (DeploySettings { cpu_threads: 1, io_threads: 2 }),
    {
        DeploySettings { cpu_threads: 1, io_threads: 2 }
    }
}

// ── Patches ─────────────────────────────────────────────────────────────

/// An idempotent incremental edit of a topology.
#[derive(Debug)]
pub enum Patch {
    /// Replace the first machine of the same name, or add it.
    UpsertMachine(MachineInstance),
    /// Remove every machine of that name and every link touching it.
    RemoveMachine(String),
    /// Replace the kind of the first link with the same endpoints, or add it.
    UpsertLink(LinkSpec),
    /// Remove every link with these endpoints.
    RemoveLink { out: (String, String), into: (String, String) },
}

/// The mathematical value of a patch.
pub enum PatchView {
    UpsertMachine(MachineInstanceView),
    RemoveMachine(Seq<char>),
    UpsertLink(LinkSpecView),
    RemoveLink((Seq<char>, Seq<char>), (Seq<char>, Seq<char>)),
}

impl View for Patch {
    type V = PatchView;

    open spec fn view(&self) -> PatchView {
        match self {
            Patch::UpsertMachine(m) => PatchView::UpsertMachine(m@),
            Patch::RemoveMachine(n) => PatchView::RemoveMachine(n@),
            Patch::UpsertLink(l) => PatchView::UpsertLink(l@),
            Patch::RemoveLink { out, into } => PatchView::RemoveLink(pair_view(*out), pair_view(*into)),
        }
    }
}

// ── Topology ────────────────────────────────────────────────────────────

/// A complete deployment specification.
#[derive(Debug)]
pub struct DynamicTopology {
    pub machines: Vec<MachineInstance>,
    pub funcs: Vec<FuncBinding>,
    pub links: Vec<LinkSpec>,
    pub settings: DeploySettings,
}

/// The name under which the deployment specification is also known.
pub type DeploySpec = DynamicTopology;

/// The mathematical value of a topology.
pub struct TopologyView {
    pub machines: Seq<MachineInstanceView>,
    pub funcs: Seq<FuncBindingView>,
    pub links: Seq<LinkSpecView>,
    pub settings: DeploySettings,
}

impl View for DynamicTopology {
    type V = TopologyView;

    open spec fn view(&self) -> TopologyView {
        TopologyView {
            machines: self.machines@.map_values(|m: MachineInstance| m@),
            funcs: self.funcs@.map_values(|f: FuncBinding| f@),
            links: self.links@.map_values(|l: LinkSpec| l@),
            settings: self.settings,
        }
    }
}

impl Clone for Patch {
    fn clone(&self) -> (r: Self)
        ensures
            r@ == self@,
    {
        match self {
            Patch::UpsertMachine(m) => Patch::UpsertMachine(m.clone()),
            Patch::RemoveMachine(n) => Patch::RemoveMachine(n.clone()),
            Patch::UpsertLink(l) => Patch::UpsertLink(l.clone()),
            Patch::RemoveLink { out, into } => Patch::RemoveLink {
                out: (out.0.clone(), out.1.clone()),
                into: (into.0.clone(), into.1.clone()),
            },
        }
    }
}

fn clone_machines(v: &Vec<MachineInstance>) -> (r: Vec<MachineInstance>)
    ensures
        r@.map_values(|m: MachineInstance| m@) == v@.map_values(|m: MachineInstance| m@),
{
    let mut r: Vec<MachineInstance> = Vec::new();
    let mut k: usize = 0;
    while k < v.len()
        invariant
            k <= v.len(),
            r.len() == k,
            forall|t: int| 0 <= t < k ==> #[trigger] r@[t]@ == v@[t]@,
        decreases v.len() - k,
    {
        r.push(v[k].clone());
        k = k + 1;
    }
    assert(r@.map_values(|m: MachineInstance| m@) =~= v@.map_values(|m: MachineInstance| m@));
    r
}

fn clone_funcs(v: &Vec<FuncBinding>) -> (r: Vec<FuncBinding>)
    ensures
        r@.map_values(|f: FuncBinding| f@) == v@.map_values(|f: FuncBinding| f@),
{
    let mut r: Vec<FuncBinding> = Vec::new();
    let mut k: usize = 0;
    while k < v.len()
        invariant
            k <= v.len(),
            r.len() == k,
            forall|t: int| 0 <= t < k ==> #[trigger] r@[t]@ == v@[t]@,
        decreases v.len() - k,
    {
        r.push(v[k].clone());
        k = k + 1;
    }
    assert(r@.map_values(|f: FuncBinding| f@) =~= v@.map_values(|f: FuncBinding| f@));
    r
}

fn clone_links(v: &Vec<LinkSpec>) -> (r: Vec<LinkSpec>)
    ensures
        r@.map_values(|l: LinkSpec| l@) == v@.map_values(|l: LinkSpec| l@),
{
    let mut r: Vec<LinkSpec> = Vec::new();
    let mut k: usize = 0;
    while k < v.len()
        invariant
            k <= v.len(),
            r.len() == k,
            forall|t: int| 0 <= t < k ==> #[trigger] r@[t]@ == v@[t]@,
        decreases v.len() - k,
    {
        r.push(v[k].clone());
        k = k + 1;
    }
    assert(r@.map_values(|l: LinkSpec| l@) =~= v@.map_values(|l: LinkSpec| l@));
    r
}

impl Clone for DynamicTopology {
    fn clone(&self) -> (r: Self)
        ensures
            r@ == self@,
    {
        DynamicTopology {
            machines: clone_machines(&self.machines),
            funcs: clone_funcs(&self.funcs),
            links: clone_links(&self.links),
            settings: self.settings,
        }
    }
}

/// Whether every cycle must pass through a Moore machine.
#[derive(Debug, Clone, Copy, PartialEq, Eq, Structural)]
pub enum CycleRule {
    /// Every cycle must pass through at least one Moore machine.
    RequireMoore,
    /// Per-link delay breaks cycles; no Moore requirement.
    AnyDelay,
}

impl CycleRule {
    /// Zero link delay requires Moore machines; a one-tick delay allows any cycle.
    pub fn from_link_delay(delay: LinkDelay) -> (r: Self)
        ensures
            r == (if delay == LinkDelay::Zero { CycleRule::RequireMoore } else { CycleRule::AnyDelay }),
    {
        match delay {
            LinkDelay::Zero => CycleRule::RequireMoore,
            LinkDelay::OneTick => CycleRule::AnyDelay,
        }
    }
}

/// Whether a machine has the given name.
pub open spec fn machine_named(m: MachineInstanceView, name: Seq<char>) -> bool {
    m.name == name
}

/// Whether a link has the given endpoints.
pub open spec fn link_between(l: LinkSpecView, out: (Seq<char>, Seq<char>), into: (Seq<char>, Seq<char>)) -> bool {
    l.out == out && l.into == into
}

/// Whether a link touches (starts or ends at) machine `name`.
pub open spec fn link_touches(l: LinkSpecView, name: Seq<char>) -> bool {
    l.out.0 == name || l.into.0 == name
}

/// The topology after applying a patch.
pub open spec fn patch_spec(t: TopologyView, p: PatchView) -> TopologyView {
    match p {
        PatchView::UpsertMachine(m) => {
            let i = first_where(t.machines, |x: MachineInstanceView| machine_named(x, m.name), 0);
            if i >= 0 {
                TopologyView { machines: t.machines.update(i, m), ..t }
            } else {
                TopologyView { machines: t.machines.push(m), ..t }
            }
        },
        PatchView::RemoveMachine(name) => TopologyView {
            machines: t.machines.filter(|x: MachineInstanceView| !machine_named(x, name)),
            links: t.links.filter(|l: LinkSpecView| !link_touches(l, name)),
            ..t
        },
        PatchView::UpsertLink(l) => {
            let i = first_where(t.links, |x: LinkSpecView| link_between(x, l.out, l.into), 0);
            if i >= 0 {
                TopologyView { links: t.links.update(i, LinkSpecView { kind: l.kind, ..t.links[i] }), ..t }
            } else {
                TopologyView { links: t.links.push(l), ..t }
            }
        },
        PatchView::RemoveLink(out, into) => TopologyView {
            links: t.links.filter(|l: LinkSpecView| !link_between(l, out, into)),
            ..t
        },
    }
}

/// The topology after applying patches in order.
pub open spec fn patches_spec(t: TopologyView, ps: Seq<PatchView>) -> TopologyView
    decreases ps.len(),
{
    if ps.len() == 0 {
        t
    } else {
        patches_spec(patch_spec(t, ps[0]), ps.drop_first())
    }
}

/// Applying patches in two batches is applying them all in one: so a list of
/// patches applied together does what applying each in turn does.
pub proof fn lemma_patches_split(t: TopologyView, ps: Seq<PatchView>, qs: Seq<PatchView>)
    ensures
        patches_spec(t, ps + qs) == patches_spec(patches_spec(t, ps), qs),
    decreases ps.len(),
{
    if ps.len() > 0 {
        assert((ps + qs).drop_first() =~= ps.drop_first() + qs);
        lemma_patches_split(patch_spec(t, ps[0]), ps.drop_first(), qs);
    } else {
        assert(ps + qs =~= qs);
    }
}

/// `apply_patches` does what `apply_patch` does on each patch in turn:
/// given the topologies `ts` that applying the patches one by one passes
/// through, starting from `t`, applying them all at once ends at the last.
pub proof fn lemma_patches_in_turn(t: TopologyView, ps: Seq<PatchView>, ts: Seq<TopologyView>)
    requires
        ts.len() == ps.len() + 1,
        ts[0] == t,
        forall|i: int| 0 <= i < ps.len() ==> #[trigger] ts[i + 1] == patch_spec(ts[i], ps[i]),
    ensures
        patches_spec(t, ps) == ts[ps.len() as int],
    decreases ps.len(),
{
    if ps.len() > 0 {
        let rest = ts.drop_first();
        assert forall|i: int| 0 <= i < ps.drop_first().len() implies #[trigger] rest[i + 1] == patch_spec(rest[i], ps.drop_first()[i]) by {
            assert(ts[(i + 1) + 1] == patch_spec(ts[i + 1], ps[i + 1]));
        }
        assert(ts[0int + 1] == patch_spec(ts[0], ps[0]));
        lemma_patches_in_turn(patch_spec(t, ps[0]), ps.drop_first(), rest);
    }
}

/// Applying a list of one patch is applying that patch.
pub proof fn lemma_patches_single(t: TopologyView, p: PatchView)
    ensures
        patches_spec(t, seq![p]) == patch_spec(t, p),
{
    assert(seq![p].drop_first() =~= Seq::<PatchView>::empty());
    assert(patches_spec(patch_spec(t, p), Seq::<PatchView>::empty()) == patch_spec(t, p));
}

} // verus!

verus! {

fn retain_machines_not_named(v: &Vec<MachineInstance>, name: &String) -> (r: Vec<MachineInstance>)
    ensures
        r@.map_values(|m: MachineInstance| m@) == v@.map_values(|m: MachineInstance| m@).filter(
            |x: MachineInstanceView| !machine_named(x, name@),
        ),
{
    let ghost pred = |x: MachineInstanceView| !machine_named(x, name@);
    let ghost vv = v@.map_values(|m: MachineInstance| m@);
    let mut r: Vec<MachineInstance> = Vec::new();
    let mut k: usize = 0;
    while k < v.len()
        invariant
            k <= v.len(),
            vv == v@.map_values(|m: MachineInstance| m@),
            pred == (|x: MachineInstanceView| !machine_named(x, name@)),
            r@.map_values(|m: MachineInstance| m@) == vv.take(k as int).filter(pred),
        decreases v.len() - k,
    {
        let ghost before = r@;
        let keep = v[k].name != *name;
        if keep {
            r.push(v[k].clone());
        }
        proof {
            lemma_filter_push(vv.take(k as int), pred, vv[k as int]);
            assert(vv.take(k as int + 1) =~= vv.take(k as int).push(vv[k as int]));
            if keep {
                assert(r@.map_values(|m: MachineInstance| m@) =~= before.map_values(|m: MachineInstance| m@).push(vv[k as int]));
            }
        }
        k = k + 1;
    }
    assert(vv.take(v.len() as int) =~= vv);
    r
}

fn retain_links_not_touching(v: &Vec<LinkSpec>, name: &String) -> (r: Vec<LinkSpec>)
    ensures
        r@.map_values(|l: LinkSpec| l@) == v@.map_values(|l: LinkSpec| l@).filter(
            |l: LinkSpecView| !link_touches(l, name@),
        ),
{
    let ghost pred = |l: LinkSpecView| !link_touches(l, name@);
    let ghost vv = v@.map_values(|l: LinkSpec| l@);
    let mut r: Vec<LinkSpec> = Vec::new();
    let mut k: usize = 0;
    while k < v.len()
        invariant
            k <= v.len(),
            vv == v@.map_values(|l: LinkSpec| l@),
            pred == (|l: LinkSpecView| !link_touches(l, name@)),
            r@.map_values(|l: LinkSpec| l@) == vv.take(k as int).filter(pred),
        decreases v.len() - k,
    {
        let ghost before = r@;
        let keep = v[k].out.0 != *name && v[k].into.0 != *name;
        assert(keep == pred(vv[k as int]));
        if keep {
            r.push(v[k].clone());
        }
        proof {
            lemma_filter_push(vv.take(k as int), pred, vv[k as int]);
            assert(vv.take(k as int + 1) =~= vv.take(k as int).push(vv[k as int]));
            if keep {
                assert(r@.map_values(|l: LinkSpec| l@) =~= before.map_values(|l: LinkSpec| l@).push(vv[k as int]));
            }
        }
        k = k + 1;
    }
    assert(vv.take(v.len() as int) =~= vv);
    r
}

fn retain_links_not_between(v: &Vec<LinkSpec>, out: &(String, String), into: &(String, String)) -> (r: Vec<LinkSpec>)
    ensures
        r@.map_values(|l: LinkSpec| l@) == v@.map_values(|l: LinkSpec| l@).filter(
            |l: LinkSpecView| !link_between(l, pair_view(*out), pair_view(*into)),
        ),
{
    let ghost pred = |l: LinkSpecView| !link_between(l, pair_view(*out), pair_view(*into));
    let ghost vv = v@.map_values(|l: LinkSpec| l@);
    let mut r: Vec<LinkSpec> = Vec::new();
    let mut k: usize = 0;
    while k < v.len()
        invariant
            k <= v.len(),
            vv == v@.map_values(|l: LinkSpec| l@),
            pred == (|l: LinkSpecView| !link_between(l, pair_view(*out), pair_view(*into))),
            r@.map_values(|l: LinkSpec| l@) == vv.take(k as int).filter(pred),
        decreases v.len() - k,
    {
        let ghost before = r@;
        let same = v[k].out.0 == out.0 && v[k].out.1 == out.1 && v[k].into.0 == into.0
            && v[k].into.1 == into.1;
        let keep = !same;
        assert(keep == pred(vv[k as int]));
        if keep {
            r.push(v[k].clone());
        }
        proof {
            lemma_filter_push(vv.take(k as int), pred, vv[k as int]);
            assert(vv.take(k as int + 1) =~= vv.take(k as int).push(vv[k as int]));
            if keep {
                assert(r@.map_values(|l: LinkSpec| l@) =~= before.map_values(|l: LinkSpec| l@).push(vv[k as int]));
            }
        }
        k = k + 1;
    }
    assert(vv.take(v.len() as int) =~= vv);
    r
}

impl DynamicTopology {
    /// An empty deployment with default settings.
    pub fn new() -> (t: Self)
        ensures
            t@ == (TopologyView {
                machines: Seq::empty(),
                funcs: Seq::empty(),
                links: Seq::empty(),
                settings: DeploySettings { cpu_threads: 1, io_threads: 2 },
            }),
    {
        let t = DynamicTopology {
            machines: Vec::new(),
            funcs: Vec::new(),
            links: Vec::new(),
            settings: DeploySettings::default(),
        };
        assert(t@.machines =~= Seq::<MachineInstanceView>::empty());
        assert(t@.funcs =~= Seq::<FuncBindingView>::empty());
        assert(t@.links =~= Seq::<LinkSpecView>::empty());
        t
    }

    /// The deployment with machine `m` added.
    pub fn with_machine(self, m: MachineInstance) -> (t: Self)
        ensures
            t@ == (TopologyView { machines: self@.machines.push(m@), ..self@ }),
    {
        let mut s = self;
        let ghost old_m = s.machines@;
        s.machines.push(m);
        assert(s.machines@.map_values(|x: MachineInstance| x@) =~= old_m.map_values(|x: MachineInstance| x@).push(m@));
        s
    }

    /// The deployment with function binding `f` added.
    pub fn with_func(self, f: FuncBinding) -> (t: Self)
        ensures
            t@ == (TopologyView { funcs: self@.funcs.push(f@), ..self@ }),
    {
        let mut s = self;
        let ghost old_f = s.funcs@;
        s.funcs.push(f);
        assert(s.funcs@.map_values(|x: FuncBinding| x@) =~= old_f.map_values(|x: FuncBinding| x@).push(f@));
        s
    }

    /// The deployment with link `l` added.
    pub fn with_link(self, l: LinkSpec) -> (t: Self)
        ensures
            t@ == (TopologyView { links: self@.links.push(l@), ..self@ }),
    {
        let mut s = self;
        let ghost old_l = s.links@;
        s.links.push(l);
        assert(s.links@.map_values(|x: LinkSpec| x@) =~= old_l.map_values(|x: LinkSpec| x@).push(l@));
        s
    }

    /// Apply an incremental patch. Never fails: removing an absent machine
    /// or link changes nothing, and an upsert matches by identity (machine
    /// name, link endpoints).
    pub fn apply_patch(&mut self, patch: &Patch)
        ensures
            final(self)@ == patch_spec(old(self)@, patch@),
    {
        let ghost t = self@;
        match patch {
            Patch::UpsertMachine(m) => {
                let ghost pred = |x: MachineInstanceView| machine_named(x, m@.name);
                proof {
                    lemma_first_where(t.machines, pred, 0);
                }
                let mut k: usize = 0;
                while k < self.machines.len()
                    invariant
                        k <= self.machines.len(),
                        self@ == t,
                        t == old(self)@,
                        pred == (|x: MachineInstanceView| machine_named(x, m@.name)),
                        patch@ == PatchView::UpsertMachine(m@),
                        first_where(t.machines, pred, k as int) == first_where(t.machines, pred, 0),
                    decreases self.machines.len() - k,
                {
                    if self.machines[k].name == m.name {
                        assert(pred(t.machines[k as int]));
                        assert(first_where(t.machines, pred, k as int) == k as int);
                        self.machines.set(k, m.clone());
                        assert(self.machines@.map_values(|x: MachineInstance| x@) =~= t.machines.update(k as int, m@));
                        return;
                    }
                    k = k + 1;
                }
                let ghost before = self.machines@;
                self.machines.push(m.clone());
                assert(self.machines@.map_values(|x: MachineInstance| x@) =~= t.machines.push(m@));
            },
            Patch::RemoveMachine(name) => {
                let ms = retain_machines_not_named(&self.machines, name);
                let ls = retain_links_not_touching(&self.links, name);
                self.machines = ms;
                self.links = ls;
            },
            Patch::UpsertLink(l) => {
                let ghost pred = |x: LinkSpecView| link_between(x, l@.out, l@.into);
                proof {
                    lemma_first_where(t.links, pred, 0);
                }
                let mut k: usize = 0;
                while k < self.links.len()
                    invariant
                        k <= self.links.len(),
                        self@ == t,
                        t == old(self)@,
                        pred == (|x: LinkSpecView| link_between(x, l@.out, l@.into)),
                        patch@ == PatchView::UpsertLink(l@),
                        first_where(t.links, pred, k as int) == first_where(t.links, pred, 0),
                    decreases self.links.len() - k,
                {
                    let same = self.links[k].out.0 == l.out.0 && self.links[k].out.1 == l.out.1
                        && self.links[k].into.0 == l.into.0 && self.links[k].into.1 == l.into.1;
                    if same {
                        assert(pred(t.links[k as int]));
                        assert(first_where(t.links, pred, k as int) == k as int);
                        let mut updated = self.links[k].clone();
                        updated.kind = l.kind;
                        self.links.set(k, updated);
                        assert(self.links@.map_values(|x: LinkSpec| x@) =~= t.links.update(
                            k as int,
                            LinkSpecView { kind: l@.kind, ..t.links[k as int] },
                        ));
                        return;
                    }
                    k = k + 1;
                }
                self.links.push(l.clone());
                assert(self.links@.map_values(|x: LinkSpec| x@) =~= t.links.push(l@));
            },
            Patch::RemoveLink { out, into } => {
                let ls = retain_links_not_between(&self.links, out, into);
                self.links = ls;
            },
        }
    }

    /// Apply patches in order.
    pub fn apply_patches(&mut self, patches: &[Patch])
        ensures
            final(self)@ == patches_spec(old(self)@, patches@.map_values(|p: Patch| p@)),
    {
        let ghost ps = patches@.map_values(|p: Patch| p@);
        let ghost t0 = self@;
        assert(ps.subrange(0, ps.len() as int) =~= ps);
        let mut k: usize = 0;
        while k < patches.len()
            invariant
                k <= patches.len(),
                ps == patches@.map_values(|p: Patch| p@),
                patches_spec(t0, ps) == patches_spec(self@, ps.subrange(k as int, ps.len() as int)),
            decreases patches.len() - k,
        {
            proof {
                let rest = ps.subrange(k as int, ps.len() as int);
                assert(rest[0] == patches@[k as int]@);
                assert(rest.drop_first() =~= ps.subrange(k as int + 1, ps.len() as int));
            }
            self.apply_patch(&patches[k]);
            k = k + 1;
        }
        proof {
            assert(ps.subrange(ps.len() as int, ps.len() as int) =~= Seq::<PatchView>::empty());
        }
    }
}

/// Applying a patch twice has the same effect as applying it once: every
/// patch is idempotent.
pub proof fn lemma_patch_idempotent(t: TopologyView, p: PatchView)
    ensures
        patch_spec(patch_spec(t, p), p) == patch_spec(t, p),
{
    match p {
        PatchView::UpsertMachine(m) => {
            let pred = |x: MachineInstanceView| machine_named(x, m.name);
            let t1 = patch_spec(t, p);
            lemma_first_where(t.machines, pred, 0);
            lemma_first_where(t1.machines, pred, 0);
            let i = first_where(t.machines, pred, 0);
            if i >= 0 {
                assert(t1.machines[i] == m);
                assert(forall|j: int| 0 <= j < i ==> t1.machines[j] == t.machines[j]);
                assert(first_where(t1.machines, pred, 0) == i);
                assert(t1.machines.update(i, m) =~= t1.machines);
            } else {
                let n = t.machines.len() as int;
                assert(t1.machines[n] == m);
                assert(forall|j: int| 0 <= j < n ==> t1.machines[j] == t.machines[j]);
                assert(first_where(t1.machines, pred, 0) == n);
                assert(t1.machines.update(n, m) =~= t1.machines);
            }
        },
        PatchView::RemoveMachine(name) => {
            lemma_filter_idempotent(t.machines, |x: MachineInstanceView| !machine_named(x, name));
            lemma_filter_idempotent(t.links, |l: LinkSpecView| !link_touches(l, name));
        },
        PatchView::UpsertLink(l) => {
            let pred = |x: LinkSpecView| link_between(x, l.out, l.into);
            let t1 = patch_spec(t, p);
            lemma_first_where(t.links, pred, 0);
            lemma_first_where(t1.links, pred, 0);
            let i = first_where(t.links, pred, 0);
            if i >= 0 {
                let li = LinkSpecView { kind: l.kind, ..t.links[i] };
                assert(t1.links[i] == li);
                assert(forall|j: int| 0 <= j < i ==> t1.links[j] == t.links[j]);
                assert(first_where(t1.links, pred, 0) == i);
                assert(t1.links.update(i, LinkSpecView { kind: l.kind, ..t1.links[i] }) =~= t1.links);
            } else {
                let n = t.links.len() as int;
                assert(t1.links[n] == l);
                assert(forall|j: int| 0 <= j < n ==> t1.links[j] == t.links[j]);
                assert(first_where(t1.links, pred, 0) == n);
                assert(t1.links.update(n, LinkSpecView { kind: l.kind, ..t1.links[n] }) =~= t1.links);
            }
        },
        PatchView::RemoveLink(out, into) => {
            lemma_filter_idempotent(t.links, |l: LinkSpecView| !link_between(l, out, into));
        },
    }
}

/// Removing a machine leaves no machine of that name and no link that
/// touches it.
pub proof fn lemma_remove_machine_cascades(t: TopologyView, name: Seq<char>)
    ensures
        ({
            let t1 = patch_spec(t, PatchView::RemoveMachine(name));
            &&& forall|i: int| 0 <= i < t1.machines.len() ==> #[trigger] t1.machines[i].name != name
            &&& forall|i: int| 0 <= i < t1.links.len() ==> !link_touches(#[trigger] t1.links[i], name)
        }),
{
    lemma_filter_elements(t.machines, |x: MachineInstanceView| !machine_named(x, name));
    lemma_filter_elements(t.links, |l: LinkSpecView| !link_touches(l, name));
}

} // verus!
