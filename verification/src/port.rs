//! Ports: direction, semantic flow kind, payload type and protocol of each
//! boundary of a computation unit, and the checks that decide whether two
//! ports can be linked.
use vstd::prelude::*;
use crate::flow::FlowKind;
use crate::session::{SessionType, is_dual, session_dual};
use crate::strings::str_eq;
use crate::time::TimeTick;
use crate::seq_util::{lemma_filter_push, first_where, lemma_first_where, lemma_first_where_is, lemma_first_where_none};

verus! {

// ── Payload type identity ───────────────────────────────────────────────

/// `core::any::TypeId`, the identity of a payload type, carried opaquely.
#[verifier::external_type_specification]
#[verifier::external_body]
pub struct ExTypeId(core::any::TypeId);

/// The `TypeId` of `T`, from `core::any::TypeId::of`. Nothing is stated of
/// the result: which identifier a type receives is the compiler's choice.
#[verifier::external_body]
fn type_id_of<T: ?Sized + 'static>() -> core::any::TypeId {
    core::any::TypeId::of::<T>()
}

/// Compares two `TypeId`s with their `PartialEq`, which is true exactly when
/// both hold the same identifier.
#[verifier::external_body]
fn same_type_id(a: &core::any::TypeId, b: &core::any::TypeId) -> (r: bool)
    ensures
        r == (*a == *b),
{
    *a == *b
}

// ── Port direction and declaration ──────────────────────────────────────

/// The direction of data flow through a port.
#[derive(Debug, Clone, Copy, PartialEq, Eq, Structural)]
pub enum PortDir {
    /// Data flows into the entity.
    In,
    /// Data flows out of the entity.
    Out,
}

/// A single port declaration: direction, flow kind, payload type, schema
/// version, description and optional session protocol.
#[derive(Debug)]
pub struct PortDecl {
    pub name: &'static str,
    pub dir: PortDir,
    pub flow: FlowKind,
    pub type_id: core::any::TypeId,
    pub schema_ver: u32,
    pub description: &'static str,
    /// Optional session protocol; a peer port's protocol must be dual.
    pub session: Option<SessionType>,
}

/// Two optional protocols are equal as models.
pub open spec fn same_session(a: Option<SessionType>, b: Option<SessionType>) -> bool {
    match (a, b) {
        (None, None) => true,
        (Some(x), Some(y)) => x.deep_view() == y.deep_view(),
        _ => false,
    }
}

/// Two declarations agree on every field (protocols as models).
pub open spec fn same_decl(a: PortDecl, b: PortDecl) -> bool {
    &&& a.name == b.name
    &&& a.dir == b.dir
    &&& a.flow == b.flow
    &&& a.type_id == b.type_id
    &&& a.schema_ver == b.schema_ver
    &&& a.description == b.description
    &&& same_session(a.session, b.session)
}

impl Clone for PortDecl {
    fn clone(&self) -> (r: Self)
        ensures
            same_decl(r, *self),
    {
        let session = match &self.session {
            Some(s) => Some(s.clone()),
            None => None,
        };
        PortDecl {
            name: self.name,
            dir: self.dir,
            flow: self.flow,
            type_id: self.type_id,
            schema_ver: self.schema_ver,
            description: self.description,
            session,
        }
    }
}

impl PortDecl {
    /// A Data input port carrying `T`.
    pub fn input<T: 'static>(name: &'static str) -> (p: Self)
        ensures
            p.name == name && p.dir == PortDir::In && p.flow == FlowKind::Data,
            p.schema_ver == 0 && p.description@ == ""@ && p.session is None,
    {
        Self::new::<T>(name, PortDir::In, FlowKind::Data)
    }

    /// A Data output port carrying `T`.
    pub fn output<T: 'static>(name: &'static str) -> (p: Self)
        ensures
            p.name == name && p.dir == PortDir::Out && p.flow == FlowKind::Data,
            p.schema_ver == 0 && p.description@ == ""@ && p.session is None,
    {
        Self::new::<T>(name, PortDir::Out, FlowKind::Data)
    }

    /// A Control input port carrying `T`.
    pub fn ctrl_in<T: 'static>(name: &'static str) -> (p: Self)
        ensures
            p.name == name && p.dir == PortDir::In && p.flow == FlowKind::Control,
            p.schema_ver == 0 && p.description@ == ""@ && p.session is None,
    {
        Self::new::<T>(name, PortDir::In, FlowKind::Control)
    }

    /// A Control output port carrying `T`.
    pub fn ctrl_out<T: 'static>(name: &'static str) -> (p: Self)
        ensures
            p.name == name && p.dir == PortDir::Out && p.flow == FlowKind::Control,
            p.schema_ver == 0 && p.description@ == ""@ && p.session is None,
    {
        Self::new::<T>(name, PortDir::Out, FlowKind::Control)
    }

    /// An Observe output port carrying `T`.
    pub fn observe<T: 'static>(name: &'static str) -> (p: Self)
        ensures
            p.name == name && p.dir == PortDir::Out && p.flow == FlowKind::Observe,
            p.schema_ver == 0 && p.description@ == ""@ && p.session is None,
    {
        Self::new::<T>(name, PortDir::Out, FlowKind::Observe)
    }

    /// A port carrying `T` with the given direction and flow kind, schema
    /// version 0, no description and no protocol.
    pub fn new<T: 'static>(name: &'static str, dir: PortDir, flow: FlowKind) -> (p: Self)
        ensures
            p.name == name && p.dir == dir && p.flow == flow,
            p.schema_ver == 0 && p.description@ == ""@ && p.session is None,
    {
        let d = "";
        proof {
            reveal_strlit("");
        }
        PortDecl {
            name,
            dir,
            flow,
            type_id: type_id_of::<T>(),
            schema_ver: 0,
            description: d,
            session: None,
        }
    }

    /// The same declaration with schema version `ver`.
    pub fn with_schema_ver(self, ver: u32) -> (p: Self)
        ensures
            p == (PortDecl { schema_ver: ver, ..self }),
    {
        PortDecl { schema_ver: ver, ..self }
    }

    /// The same declaration with description `desc`.
    pub fn with_description(self, desc: &'static str) -> (p: Self)
        ensures
            p == (PortDecl { description: desc, ..self }),
    {
        PortDecl { description: desc, ..self }
    }

    /// The same declaration with session protocol `session`.
    pub fn with_session(self, session: SessionType) -> (p: Self)
        ensures
            p == (PortDecl { session: Some(session), ..self }),
    {
        PortDecl { session: Some(session), ..self }
    }
}

} // verus!

verus! {

// ── Link compatibility ──────────────────────────────────────────────────

/// The verdict of a link-compatibility check.
#[derive(Debug, Clone, Copy, PartialEq, Eq)]
pub enum LinkCompat {
    /// The two ports can be linked as they are.
    Compatible,
    /// The ports can be linked through a schema migration between versions.
    Migrate { from_ver: u32, to_ver: u32 },
    /// The ports cannot be linked, for the given reason.
    Incompatible { reason: &'static str },
}

/// The mathematical value of a link-compatibility verdict.
pub enum CompatVerdict {
    Compatible,
    Migrate(u32, u32),
    Incompatible(Seq<char>),
}

/// The value of a verdict, with the reason by its characters.
pub open spec fn compat_view(c: LinkCompat) -> CompatVerdict {
    match c {
        LinkCompat::Compatible => CompatVerdict::Compatible,
        LinkCompat::Migrate { from_ver, to_ver } => CompatVerdict::Migrate(from_ver, to_ver),
        LinkCompat::Incompatible { reason } => CompatVerdict::Incompatible(reason@),
    }
}

/// Whether two optional protocols allow a link: neither has one, or both
/// have one and they are dual.
pub open spec fn sessions_linkable(a: Option<SessionType>, b: Option<SessionType>) -> bool {
    match (a, b) {
        (None, None) => true,
        (Some(x), Some(y)) => session_dual(x, y),
        _ => false,
    }
}

/// Whether a link from `src` to `dst` is possible, and how, checking in
/// order: direction, payload type, flow kind, session protocol, and schema
/// versions (equal: compatible; one apart: migration; further: refused).
pub open spec fn compat_verdict(src: PortDecl, dst: PortDecl) -> CompatVerdict {
    if src.dir != PortDir::Out {
        CompatVerdict::Incompatible("source port is not an output"@)
    } else if dst.dir != PortDir::In {
        CompatVerdict::Incompatible("target port is not an input"@)
    } else if src.type_id != dst.type_id {
        CompatVerdict::Incompatible("type mismatch"@)
    } else if src.flow != dst.flow {
        CompatVerdict::Incompatible("flow kind mismatch"@)
    } else if src.session is Some && dst.session is Some && !sessions_linkable(src.session, dst.session) {
        CompatVerdict::Incompatible("session protocols are not dual"@)
    } else if src.session is Some != dst.session is Some {
        CompatVerdict::Incompatible("one port has a session protocol, the other does not"@)
    } else if src.schema_ver == dst.schema_ver {
        CompatVerdict::Compatible
    } else if src.schema_ver + 1 == dst.schema_ver || dst.schema_ver + 1 == src.schema_ver {
        CompatVerdict::Migrate(
            if src.schema_ver < dst.schema_ver { src.schema_ver } else { dst.schema_ver },
            if src.schema_ver < dst.schema_ver { dst.schema_ver } else { src.schema_ver },
        )
    } else {
        CompatVerdict::Incompatible("schema version drift > 1"@)
    }
}

impl PortDecl {
    /// Whether this port can be linked to `other` (this one as the source).
    pub fn can_link_to(&self, other: &PortDecl) -> (c: LinkCompat)
        ensures
            compat_view(c) == compat_verdict(*self, *other),
    {
        if self.dir != PortDir::Out {
            return LinkCompat::Incompatible { reason: "source port is not an output" };
        }
        if other.dir != PortDir::In {
            return LinkCompat::Incompatible { reason: "target port is not an input" };
        }
        if !same_type_id(&self.type_id, &other.type_id) {
            return LinkCompat::Incompatible { reason: "type mismatch" };
        }
        if self.flow != other.flow {
            return LinkCompat::Incompatible { reason: "flow kind mismatch" };
        }
        match (&self.session, &other.session) {
            (None, None) => {},
            (Some(a), Some(b)) => {
                if !is_dual(a, b) {
                    return LinkCompat::Incompatible { reason: "session protocols are not dual" };
                }
            },
            _ => {
                return LinkCompat::Incompatible {
                    reason: "one port has a session protocol, the other does not",
                };
            },
        }
        let ver_diff = if self.schema_ver > other.schema_ver {
            self.schema_ver - other.schema_ver
        } else {
            other.schema_ver - self.schema_ver
        };
        if ver_diff == 0 {
            LinkCompat::Compatible
        } else if ver_diff == 1 {
            let lo = if self.schema_ver < other.schema_ver { self.schema_ver } else { other.schema_ver };
            let hi = if self.schema_ver < other.schema_ver { other.schema_ver } else { self.schema_ver };
            LinkCompat::Migrate { from_ver: lo, to_ver: hi }
        } else {
            LinkCompat::Incompatible { reason: "schema version drift > 1" }
        }
    }
}

// ── Port schema ─────────────────────────────────────────────────────────

/// Whether a port is a Data input.
pub open spec fn is_data_in(p: PortDecl) -> bool {
    p.dir == PortDir::In && p.flow == FlowKind::Data
}

/// Whether a port is a Data output.
pub open spec fn is_data_out(p: PortDecl) -> bool {
    p.dir == PortDir::Out && p.flow == FlowKind::Data
}

/// Whether a port is an Observe output.
pub open spec fn is_observe_out(p: PortDecl) -> bool {
    p.dir == PortDir::Out && p.flow == FlowKind::Observe
}

/// Whether a port is an input (any flow kind).
pub open spec fn is_in(p: PortDecl) -> bool {
    p.dir == PortDir::In
}

/// Whether a port is an output (any flow kind).
pub open spec fn is_out(p: PortDecl) -> bool {
    p.dir == PortDir::Out
}

/// Whether a port has the given name.
pub open spec fn has_name(p: PortDecl, name: Seq<char>) -> bool {
    p.name@ == name
}

/// The index of the first element of `s` at or after `i` satisfying
/// `pred`, or -1 if there is none.
pub open spec fn first_from(s: Seq<PortDecl>, pred: spec_fn(PortDecl) -> bool, i: int) -> int
    decreases s.len() - i,
{
    if i >= s.len() || i < 0 {
        -1
    } else if pred(s[i]) {
        i
    } else {
        first_from(s, pred, i + 1)
    }
}

/// The index of the first element of `s` satisfying `pred`, or -1.
pub open spec fn first_index(s: Seq<PortDecl>, pred: spec_fn(PortDecl) -> bool) -> int {
    first_from(s, pred, 0)
}

/// The characterisation of `first_from`.
pub proof fn lemma_first_from(s: Seq<PortDecl>, pred: spec_fn(PortDecl) -> bool, i: int)
    requires
        0 <= i <= s.len(),
    ensures
        ({
            let r = first_from(s, pred, i);
            &&& -1 <= r < s.len()
            &&& r == -1 ==> forall|j: int| i <= j < s.len() ==> !pred(#[trigger] s[j])
            &&& r != -1 ==> i <= r && pred(s[r]) && forall|j: int| i <= j < r ==> !pred(#[trigger] s[j])
        }),
    decreases s.len() - i,
{
    if i < s.len() && !pred(s[i]) {
        lemma_first_from(s, pred, i + 1);
    }
}

/// Whether a port is named `name`.
pub open spec fn name_is(name: Seq<char>) -> spec_fn(PortDecl) -> bool {
    |p: PortDecl| has_name(p, name)
}

/// The first port of `s` named `name`.
pub open spec fn port_named(s: Seq<PortDecl>, name: Seq<char>) -> Option<PortDecl> {
    let i = first_index(s, name_is(name));
    if i >= 0 {
        Some(s[i])
    } else {
        None
    }
}

/// The index stored for a cached port, as the first index or -1.
pub open spec fn opt_index(o: Option<usize>) -> int {
    match o {
        Some(i) => i as int,
        None => -1,
    }
}

/// The complete set of ports an entity exposes.
#[derive(Debug)]
pub struct PortSchema {
    ports: Vec<PortDecl>,
    primary_in: Option<usize>,
    primary_out: Option<usize>,
    observe_out: Option<usize>,
}

impl View for PortSchema {
    type V = Seq<PortDecl>;

    closed spec fn view(&self) -> Seq<PortDecl> {
        self.ports@
    }
}

impl PortSchema {
    #[verifier::type_invariant]
    spec fn inv(self) -> bool {
        &&& opt_index(self.primary_in) == first_index(self.ports@, |p: PortDecl| is_data_in(p))
        &&& opt_index(self.primary_out) == first_index(self.ports@, |p: PortDecl| is_data_out(p))
        &&& opt_index(self.observe_out) == first_index(self.ports@, |p: PortDecl| is_observe_out(p))
    }

    /// An empty schema.
    pub fn new() -> (s: Self)
        ensures
            s@ == Seq::<PortDecl>::empty(),
    {
        PortSchema { ports: Vec::new(), primary_in: None, primary_out: None, observe_out: None }
    }

    /// The schema with `decl` appended. Duplicate names are only detected
    /// by [`validate`](Self::validate).
    pub fn with(self, decl: PortDecl) -> (s: Self)
        ensures
            s@ == self@.push(decl),
    {
        proof {
            use_type_invariant(&self);
        }
        let PortSchema { mut ports, mut primary_in, mut primary_out, mut observe_out } = self;
        let ghost old_ports = ports@;
        let idx = ports.len();
        let is_din = decl.dir == PortDir::In && decl.flow == FlowKind::Data;
        let is_dout = decl.dir == PortDir::Out && decl.flow == FlowKind::Data;
        let is_obs = decl.dir == PortDir::Out && decl.flow == FlowKind::Observe;
        if is_din && primary_in.is_none() {
            primary_in = Some(idx);
        }
        if is_dout && primary_out.is_none() {
            primary_out = Some(idx);
        }
        if is_obs && observe_out.is_none() {
            observe_out = Some(idx);
        }
        ports.push(decl);
        proof {
            let np = ports@;
            lemma_first_from(old_ports, |p: PortDecl| is_data_in(p), 0);
            lemma_first_from(np, |p: PortDecl| is_data_in(p), 0);
            lemma_first_from(old_ports, |p: PortDecl| is_data_out(p), 0);
            lemma_first_from(np, |p: PortDecl| is_data_out(p), 0);
            lemma_first_from(old_ports, |p: PortDecl| is_observe_out(p), 0);
            lemma_first_from(np, |p: PortDecl| is_observe_out(p), 0);
            assert(forall|j: int| 0 <= j < old_ports.len() ==> np[j] == old_ports[j]);
            assert(np[idx as int] == decl);
        }
        PortSchema { ports, primary_in, primary_out, observe_out }
    }

    /// All ports, in declaration order.
    pub fn ports(&self) -> (r: &[PortDecl])
        ensures
            r@ == self@,
    {
        self.ports.as_slice()
    }

    /// Whether the schema declares no port.
    pub fn is_empty(&self) -> (r: bool)
        ensures
            r == (self@.len() == 0),
    {
        self.ports.len() == 0
    }

    /// Number of ports.
    pub fn len(&self) -> (r: usize)
        ensures
            r == self@.len(),
    {
        self.ports.len()
    }

    /// The first port named `name`.
    pub fn find(&self, name: &str) -> (r: Option<&PortDecl>)
        ensures
            match r {
                Some(p) => port_named(self@, name@) == Some(*p),
                None => port_named(self@, name@) is None,
            },
    {
        let ghost pred = name_is(name@);
        proof {
            lemma_first_from(self@, pred, 0);
        }
        let mut k: usize = 0;
        while k < self.ports.len()
            invariant
                k <= self.ports.len(),
                pred == name_is(name@),
                first_from(self.ports@, pred, k as int) == first_index(self.ports@, pred),
            decreases self.ports.len() - k,
        {
            if str_eq(self.ports[k].name, name) {
                return Some(&self.ports[k]);
            }
            k = k + 1;
        }
        None
    }

    /// The ports of this schema satisfying `pred`, in order.
    fn select(&self, Ghost(pred): Ghost<spec_fn(PortDecl) -> bool>, dir: PortDir, flow: Option<FlowKind>) -> (r: Vec<&PortDecl>)
        requires
            forall|p: PortDecl| #[trigger] pred(p) == (p.dir == dir && (flow matches Some(f) ==> p.flow == f)),
        ensures
            r@.map_values(|p: &PortDecl| *p) == self@.filter(pred),
    {
        let mut out: Vec<&PortDecl> = Vec::new();
        let mut k: usize = 0;
        while k < self.ports.len()
            invariant
                k <= self.ports.len(),
                forall|p: PortDecl| #[trigger] pred(p) == (p.dir == dir && (flow matches Some(f) ==> p.flow == f)),
                out@.map_values(|p: &PortDecl| *p) == self.ports@.take(k as int).filter(pred),
            decreases self.ports.len() - k,
        {
            let p = &self.ports[k];
            let keep = match flow {
                Some(f) => p.dir == dir && p.flow == f,
                None => p.dir == dir,
            };
            let ghost before = out@;
            if keep {
                out.push(p);
            }
            proof {
                lemma_filter_push(self.ports@.take(k as int), pred, *p);
                assert(self.ports@.take(k as int + 1) =~= self.ports@.take(k as int).push(*p));
                if keep {
                    assert(out@.map_values(|p: &PortDecl| *p) =~= before.map_values(|p: &PortDecl| *p).push(*p));
                }
            }
            k = k + 1;
        }
        proof {
            assert(self.ports@.take(self.ports@.len() as int) =~= self.ports@);
        }
        out
    }

    /// All input ports (any flow kind), in order.
    pub fn inputs(&self) -> (r: Vec<&PortDecl>)
        ensures
            r@.map_values(|p: &PortDecl| *p) == self@.filter(|p: PortDecl| is_in(p)),
    {
        self.select(Ghost(|p: PortDecl| is_in(p)), PortDir::In, None)
    }

    /// All output ports (any flow kind), in order.
    pub fn outputs(&self) -> (r: Vec<&PortDecl>)
        ensures
            r@.map_values(|p: &PortDecl| *p) == self@.filter(|p: PortDecl| is_out(p)),
    {
        self.select(Ghost(|p: PortDecl| is_out(p)), PortDir::Out, None)
    }

    /// All Observe output ports, in order.
    pub fn observe_ports(&self) -> (r: Vec<&PortDecl>)
        ensures
            r@.map_values(|p: &PortDecl| *p) == self@.filter(|p: PortDecl| is_observe_out(p)),
    {
        self.select(Ghost(|p: PortDecl| is_observe_out(p)), PortDir::Out, Some(FlowKind::Observe))
    }

    /// Checks that the schema is an interface set: no two ports share a
    /// name.
    pub fn validate(&self) -> (r: Result<(), &'static str>)
        ensures
            r is Ok <==> names_unique(self@),
            r matches Err(e) ==> e@ == "duplicate port name in schema"@,
    {
        let mut k: usize = 0;
        while k < self.ports.len()
            invariant
                k <= self.ports.len(),
                forall|i: int, j: int| 0 <= i < j < k ==> #[trigger] self.ports@[i].name@ != #[trigger] self.ports@[j].name@,
            decreases self.ports.len() - k,
        {
            let mut i: usize = 0;
            while i < k
                invariant
                    i <= k < self.ports.len(),
                    forall|t: int| 0 <= t < i ==> #[trigger] self.ports@[t].name@ != self.ports@[k as int].name@,
                decreases k - i,
            {
                if str_eq(self.ports[i].name, self.ports[k].name) {
                    return Err("duplicate port name in schema");
                }
                i = i + 1;
            }
            k = k + 1;
        }
        Ok(())
    }

    /// The first Data input port.
    pub fn primary_input(&self) -> (r: Option<&PortDecl>)
        ensures
            ({
                let i = first_index(self@, |p: PortDecl| is_data_in(p));
                match r {
                    Some(p) => i >= 0 && *p == self@[i],
                    None => i == -1,
                }
            }),
    {
        proof {
            use_type_invariant(self);
            lemma_first_from(self.ports@, |p: PortDecl| is_data_in(p), 0);
        }
        match self.primary_in {
            Some(i) => Some(&self.ports[i]),
            None => None,
        }
    }

    /// The first Data output port.
    pub fn primary_output(&self) -> (r: Option<&PortDecl>)
        ensures
            ({
                let i = first_index(self@, |p: PortDecl| is_data_out(p));
                match r {
                    Some(p) => i >= 0 && *p == self@[i],
                    None => i == -1,
                }
            }),
    {
        proof {
            use_type_invariant(self);
            lemma_first_from(self.ports@, |p: PortDecl| is_data_out(p), 0);
        }
        match self.primary_out {
            Some(i) => Some(&self.ports[i]),
            None => None,
        }
    }

    /// The first Observe output port.
    pub fn observe_port(&self) -> (r: Option<&PortDecl>)
        ensures
            ({
                let i = first_index(self@, |p: PortDecl| is_observe_out(p));
                match r {
                    Some(p) => i >= 0 && *p == self@[i],
                    None => i == -1,
                }
            }),
    {
        proof {
            use_type_invariant(self);
            lemma_first_from(self.ports@, |p: PortDecl| is_observe_out(p), 0);
        }
        match self.observe_out {
            Some(i) => Some(&self.ports[i]),
            None => None,
        }
    }
}

/// No two ports of the sequence share a name.
pub open spec fn names_unique(s: Seq<PortDecl>) -> bool {
    forall|i: int, j: int| 0 <= i < j < s.len() ==> #[trigger] s[i].name@ != #[trigger] s[j].name@
}

} // verus!

verus! {

// ── Port registry (runtime) ─────────────────────────────────────────────

/// A registered port, as recorded by a runtime.
#[derive(Debug)]
pub struct PortEntry {
    pub name: &'static str,
    pub dir: PortDir,
    pub flow: FlowKind,
    pub schema_ver: u32,
}

/// The ports registered at runtime, in registration order.
#[derive(Debug)]
pub struct PortRegistry {
    entries: Vec<PortEntry>,
}

/// The entry recorded for a declaration.
pub open spec fn entry_of(d: PortDecl) -> PortEntry {
    PortEntry { name: d.name, dir: d.dir, flow: d.flow, schema_ver: d.schema_ver }
}

impl View for PortRegistry {
    type V = Seq<PortEntry>;

    closed spec fn view(&self) -> Seq<PortEntry> {
        self.entries@
    }
}

impl PortRegistry {
    /// An empty registry.
    pub fn new() -> (r: Self)
        ensures
            r@ == Seq::<PortEntry>::empty(),
    {
        PortRegistry { entries: Vec::new() }
    }

    /// Record `decl`.
    pub fn register(&mut self, decl: &PortDecl)
        ensures
            final(self)@ == old(self)@.push(entry_of(*decl)),
    {
        self.entries.push(
            PortEntry { name: decl.name, dir: decl.dir, flow: decl.flow, schema_ver: decl.schema_ver },
        );
    }

    /// All entries, in registration order.
    pub fn entries(&self) -> (r: &[PortEntry])
        ensures
            r@ == self@,
    {
        self.entries.as_slice()
    }

    /// Number of entries.
    pub fn len(&self) -> (r: usize)
        ensures
            r == self@.len(),
    {
        self.entries.len()
    }

    /// Whether no port is registered.
    pub fn is_empty(&self) -> (r: bool)
        ensures
            r == (self@.len() == 0),
    {
        self.entries.len() == 0
    }
}

impl Default for PortRegistry {
    fn default() -> (r: Self)
        ensures
            r@ == Seq::<PortEntry>::empty(),
    {
        PortRegistry::new()
    }
}

// ── Config schema ───────────────────────────────────────────────────────

/// A configuration parameter declaration.
#[derive(Debug, Clone, Copy)]
pub struct ConfigDecl {
    pub key: &'static str,
    pub description: &'static str,
}

impl ConfigDecl {
    /// A parameter `key` described by `description`.
    pub fn new(key: &'static str, description: &'static str) -> (d: Self)
        ensures
            d.key == key && d.description == description,
    {
        ConfigDecl { key, description }
    }
}

/// The configuration parameters of a machine, in declaration order.
#[derive(Debug)]
pub struct ConfigSchema {
    decls: Vec<ConfigDecl>,
}

impl View for ConfigSchema {
    type V = Seq<ConfigDecl>;

    closed spec fn view(&self) -> Seq<ConfigDecl> {
        self.decls@
    }
}

impl ConfigSchema {
    /// An empty schema.
    pub fn new() -> (s: Self)
        ensures
            s@ == Seq::<ConfigDecl>::empty(),
    {
        ConfigSchema { decls: Vec::new() }
    }

    /// The schema with `decl` appended.
    pub fn with(self, decl: ConfigDecl) -> (s: Self)
        ensures
            s@ == self@.push(decl),
    {
        let mut decls = self.decls;
        decls.push(decl);
        ConfigSchema { decls }
    }

    /// All declarations, in order.
    pub fn decls(&self) -> (r: &[ConfigDecl])
        ensures
            r@ == self@,
    {
        self.decls.as_slice()
    }
}

impl Default for ConfigSchema {
    fn default() -> (s: Self)
        ensures
            s@ == Seq::<ConfigDecl>::empty(),
    {
        ConfigSchema::new()
    }
}

// ── Lifecycle and signals ───────────────────────────────────────────────

/// The phase a machine is in.
#[derive(Debug, Clone, Copy, PartialEq, Eq, Structural)]
pub enum Lifecycle {
    Init,
    Running,
    Stopping,
    Stopped,
}

/// The rank of a phase in the forward order Init < Running < Stopping < Stopped.
pub open spec fn lifecycle_rank(l: Lifecycle) -> nat {
    match l {
        Lifecycle::Init => 0,
        Lifecycle::Running => 1,
        Lifecycle::Stopping => 2,
        Lifecycle::Stopped => 3,
    }
}

impl Lifecycle {
    /// The next phase; phases only move forward and `Stopped` has none.
    pub fn next(self) -> (r: Option<Self>)
        ensures
            match r {
                Some(n) => lifecycle_rank(n) == lifecycle_rank(self) + 1,
                None => self == Lifecycle::Stopped,
            },
    {
        match self {
            Lifecycle::Init => Some(Lifecycle::Running),
            Lifecycle::Running => Some(Lifecycle::Stopping),
            Lifecycle::Stopping => Some(Lifecycle::Stopped),
            Lifecycle::Stopped => None,
        }
    }

    /// Whether the phase is `Running`.
    pub fn is_active(self) -> (r: bool)
        ensures
            r == (self == Lifecycle::Running),
    {
        self == Lifecycle::Running
    }

    /// Whether the phase is `Stopped`.
    pub fn is_terminal(self) -> (r: bool)
        ensures
            r == (self == Lifecycle::Stopped),
    {
        self == Lifecycle::Stopped
    }
}

/// A signal sent from the runtime to a machine.
#[derive(Debug, Clone, Copy, PartialEq, Eq, Structural)]
pub enum SystemSignal {
    /// Request graceful shutdown (runtime-enforced).
    Shutdown,
    /// Request a state checkpoint (advisory, consumed by the machine).
    Checkpoint,
}

// ── Machine context ─────────────────────────────────────────────────────

/// The context a machine sees during its lifecycle: its name, its phase,
/// the pending signal and the current time.
#[derive(Debug)]
pub struct MachineContext {
    name: String,
    lifecycle: Lifecycle,
    signal: Option<SystemSignal>,
    time_ns: u64,
}

/// The mathematical value of a machine context.
pub struct MachineContextView {
    pub name: Seq<char>,
    pub lifecycle: Lifecycle,
    pub signal: Option<SystemSignal>,
    pub time_ns: u64,
}

impl View for MachineContext {
    type V = MachineContextView;

    closed spec fn view(&self) -> MachineContextView {
        MachineContextView {
            name: self.name@,
            lifecycle: self.lifecycle,
            signal: self.signal,
            time_ns: self.time_ns,
        }
    }
}

impl MachineContext {
    /// A fresh context named `name`: phase `Init`, no signal, time 0.
    pub fn new(name: &str) -> (c: Self)
        ensures
            c@ == (MachineContextView { name: name@, lifecycle: Lifecycle::Init, signal: None, time_ns: 0 }),
    {
        MachineContext { name: name.to_owned(), lifecycle: Lifecycle::Init, signal: None, time_ns: 0 }
    }

    /// The machine instance name.
    pub fn name(&self) -> (r: &str)
        ensures
            r@ == self@.name,
    {
        self.name.as_str()
    }

    /// The current lifecycle phase.
    pub fn lifecycle(&self) -> (r: Lifecycle)
        ensures
            r == self@.lifecycle,
    {
        self.lifecycle
    }

    /// The current time as a tick.
    pub fn time_tick(&self) -> (t: TimeTick)
        ensures
            t.ns == self@.time_ns,
    {
        TimeTick::from_nanos(self.time_ns)
    }

    /// The current time in nanoseconds.
    pub fn time_ns(&self) -> (r: u64)
        ensures
            r == self@.time_ns,
    {
        self.time_ns
    }

    /// Set the lifecycle phase (runtime side).
    pub fn set_lifecycle(&mut self, lc: Lifecycle)
        ensures
            final(self)@ == (MachineContextView { lifecycle: lc, ..old(self)@ }),
    {
        self.lifecycle = lc;
    }

    /// Set the current time (runtime side).
    pub fn set_time_tick(&mut self, tick: TimeTick)
        ensures
            final(self)@ == (MachineContextView { time_ns: tick.ns, ..old(self)@ }),
    {
        self.time_ns = tick.ns;
    }

    /// Send a signal; a later signal replaces a pending one.
    pub fn send_signal(&mut self, signal: SystemSignal)
        ensures
            final(self)@ == (MachineContextView { signal: Some(signal), ..old(self)@ }),
    {
        self.signal = Some(signal);
    }

    /// Poll for a pending advisory signal: a pending `Checkpoint` is returned
    /// and consumed; a pending `Shutdown` is neither returned nor consumed.
    pub fn poll_signal(&mut self) -> (r: Option<SystemSignal>)
        ensures
            old(self)@.signal == Some(SystemSignal::Checkpoint) ==> r == Some(SystemSignal::Checkpoint)
                && final(self)@ == (MachineContextView { signal: None, ..old(self)@ }),
            old(self)@.signal != Some(SystemSignal::Checkpoint) ==> r is None && final(self)@ == old(self)@,
    {
        match self.signal {
            Some(SystemSignal::Checkpoint) => {
                self.signal = None;
                Some(SystemSignal::Checkpoint)
            },
            _ => None,
        }
    }

    /// Whether a `Shutdown` is pending, without consuming it.
    pub fn has_shutdown_signal(&self) -> (r: bool)
        ensures
            r == (self@.signal == Some(SystemSignal::Shutdown)),
    {
        match self.signal {
            Some(SystemSignal::Shutdown) => true,
            _ => false,
        }
    }
}

// ── Schemas by machine name ─────────────────────────────────────────────

/// Whether an entry is named `name`.
pub open spec fn entry_named(name: Seq<char>) -> spec_fn((Seq<char>, Seq<PortDecl>)) -> bool {
    |e: (Seq<char>, Seq<PortDecl>)| e.0 == name
}

/// The schema of the first entry named `name`.
pub open spec fn schema_for(s: Seq<(Seq<char>, Seq<PortDecl>)>, name: Seq<char>) -> Option<Seq<PortDecl>> {
    let i = first_where(s, entry_named(name), 0);
    if i >= 0 {
        Some(s[i].1)
    } else {
        None
    }
}

/// The entries after setting the schema of `name`: the entry of that name
/// replaced in place, or a new entry at the end.
pub open spec fn schema_set(s: Seq<(Seq<char>, Seq<PortDecl>)>, name: Seq<char>, schema: Seq<PortDecl>) -> Seq<(Seq<char>, Seq<PortDecl>)> {
    let i = first_where(s, entry_named(name), 0);
    if i >= 0 {
        s.update(i, (name, schema))
    } else {
        s.push((name, schema))
    }
}

/// Whether no two entries share a name.
pub open spec fn keys_distinct(s: Seq<(Seq<char>, Seq<PortDecl>)>) -> bool {
    forall|i: int, j: int| 0 <= i < j < s.len() ==> #[trigger] s[i].0 != #[trigger] s[j].0
}

/// The port schemas of the machines of a deployment, by machine name.
#[derive(Debug)]
pub struct SchemaMap {
    entries: Vec<(String, PortSchema)>,
}

impl View for SchemaMap {
    type V = Seq<(Seq<char>, Seq<PortDecl>)>;

    closed spec fn view(&self) -> Seq<(Seq<char>, Seq<PortDecl>)> {
        self.entries@.map_values(|e: (String, PortSchema)| (e.0@, e.1@))
    }
}

impl SchemaMap {
    #[verifier::type_invariant]
    spec fn inv(self) -> bool {
        keys_distinct(self.entries@.map_values(|e: (String, PortSchema)| (e.0@, e.1@)))
    }

    /// A map with no schema.
    pub fn new() -> (m: Self)
        ensures
            m@ == Seq::<(Seq<char>, Seq<PortDecl>)>::empty(),
    {
        let m = SchemaMap { entries: Vec::new() };
        assert(m@ =~= Seq::<(Seq<char>, Seq<PortDecl>)>::empty());
        m
    }

    /// The position of the entry named `name`.
    fn position(&self, name: &str) -> (r: Option<usize>)
        ensures
            match r {
                Some(i) => i < self@.len() && first_where(self@, entry_named(name@), 0) == i as int,
                None => first_where(self@, entry_named(name@), 0) == -1,
            },
    {
        let ghost v = self@;
        let ghost pred = entry_named(name@);
        let mut i: usize = 0;
        while i < self.entries.len()
            invariant
                i <= self.entries.len(),
                v == self@,
                v == self.entries@.map_values(|e: (String, PortSchema)| (e.0@, e.1@)),
                pred == entry_named(name@),
                forall|j: int| 0 <= j < i ==> !pred(#[trigger] v[j]),
            decreases self.entries.len() - i,
        {
            if str_eq(self.entries[i].0.as_str(), name) {
                proof {
                    lemma_first_where_is(v, pred, i as int);
                }
                return Some(i);
            }
            i = i + 1;
        }
        proof {
            lemma_first_where_none(v, pred);
        }
        None
    }

    /// The schema of machine `name`.
    pub fn get(&self, name: &str) -> (r: Option<&PortSchema>)
        ensures
            match r {
                Some(s) => schema_for(self@, name@) == Some(s@),
                None => schema_for(self@, name@) is None,
            },
    {
        match self.position(name) {
            Some(i) => Some(&self.entries[i].1),
            None => None,
        }
    }

    /// Sets the schema of machine `name`, replacing the one it had.
    pub fn insert(&mut self, name: &str, schema: PortSchema)
        ensures
            final(self)@ == schema_set(old(self)@, name@, schema@),
    {
        proof {
            use_type_invariant(&*self);
        }
        let ghost v = self@;
        let pos = self.position(name);
        let mut entries: Vec<(String, PortSchema)> = Vec::new();
        core::mem::swap(&mut entries, &mut self.entries);
        match pos {
            Some(i) => {
                entries.set(i, (name.to_owned(), schema));
                proof {
                    let nv = entries@.map_values(|e: (String, PortSchema)| (e.0@, e.1@));
                    assert(nv =~= v.update(i as int, (name@, schema@)));
                    lemma_first_where(v, entry_named(name@), 0);
                    assert forall|a: int, b: int| 0 <= a < b < nv.len() implies #[trigger] nv[a].0 != #[trigger] nv[b].0 by {
                        if a == i {
                            assert(v[b].0 != v[a].0);
                        } else if b == i {
                            assert(v[a].0 != v[b].0);
                        }
                    }
                }
            },
            None => {
                entries.push((name.to_owned(), schema));
                proof {
                    let nv = entries@.map_values(|e: (String, PortSchema)| (e.0@, e.1@));
                    assert(nv =~= v.push((name@, schema@)));
                    lemma_first_where(v, entry_named(name@), 0);
                    assert forall|a: int, b: int| 0 <= a < b < nv.len() implies #[trigger] nv[a].0 != #[trigger] nv[b].0 by {
                        if b == v.len() {
                            assert(!entry_named(name@)(v[a]));
                        }
                    }
                }
            },
        }
        self.entries = entries;
    }

    /// The machine name of entry `i`.
    pub fn name_at(&self, i: usize) -> (r: &str)
        requires
            i < self@.len(),
        ensures
            r@ == self@[i as int].0,
    {
        self.entries[i].0.as_str()
    }

    /// The schema of entry `i`.
    pub fn schema_at(&self, i: usize) -> (r: &PortSchema)
        requires
            i < self@.len(),
        ensures
            r@ == self@[i as int].1,
    {
        &self.entries[i].1
    }

    /// The number of machines with a schema.
    pub fn len(&self) -> (r: usize)
        ensures
            r == self@.len(),
    {
        self.entries.len()
    }

    /// Whether no machine has a schema.
    pub fn is_empty(&self) -> (r: bool)
        ensures
            r == (self@.len() == 0),
    {
        self.entries.len() == 0
    }
}

/// What a read of a schema map gives back of a write: the schema just set
/// for `name`, and for any other name what it had before.
pub proof fn lemma_schema_insert_get(s: Seq<(Seq<char>, Seq<PortDecl>)>, name: Seq<char>, schema: Seq<PortDecl>, other: Seq<char>)
    ensures
        schema_for(schema_set(s, name, schema), name) == Some(schema),
        other != name ==> schema_for(schema_set(s, name, schema), other) == schema_for(s, other),
{
    let p = entry_named(name);
    let q = entry_named(other);
    let s2 = schema_set(s, name, schema);
    let i = first_where(s, p, 0);
    lemma_first_where(s, p, 0);
    lemma_first_where(s, q, 0);
    if i >= 0 {
        assert forall|j: int| 0 <= j < i implies !p(#[trigger] s2[j]) by {
            assert(s2[j] == s[j]);
        }
        lemma_first_where_is(s2, p, i);
    } else {
        assert forall|j: int| 0 <= j < s.len() implies !p(#[trigger] s2[j]) by {
            assert(s2[j] == s[j]);
        }
        lemma_first_where_is(s2, p, s.len() as int);
    }
    if other != name {
        let f = first_where(s, q, 0);
        if f >= 0 {
            assert(s2[f] == s[f]) by {
                if i >= 0 && f == i {
                    assert(s[i].0 == name);
                }
            }
            assert forall|j: int| 0 <= j < f implies !q(#[trigger] s2[j]) by {
                if i >= 0 && j == i {
                } else {
                    assert(s2[j] == s[j]);
                }
            }
            lemma_first_where_is(s2, q, f);
        } else {
            assert forall|j: int| 0 <= j < s2.len() implies !q(#[trigger] s2[j]) by {
                if j < s.len() && !(i >= 0 && j == i) {
                    assert(s2[j] == s[j]);
                }
            }
            lemma_first_where_none(s2, q);
        }
    }
}

} // verus!
