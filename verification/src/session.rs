//! Session types: protocol-level type safety for port communications.
//!
//! Binary session types ([`SessionType`], [`SessionState`], [`is_dual`]) and
//! multiparty session types ([`GlobalType`], [`project`], [`LocalType`],
//! [`is_consistent`]).
use vstd::prelude::*;
use vstd::string::StringExecFns;
use crate::strings::{str_eq, str_debug, debug_str};

verus! {

// ════════════════════════════════════════════════════════════════════════
// Binary session types
// ════════════════════════════════════════════════════════════════════════

/// A single operation in a binary session protocol.
#[derive(Debug)]
pub enum SessionOp {
    /// Send a value of type `ty`, then continue.
    Send { ty: &'static str },
    /// Receive a value of type `ty`, then continue.
    Recv { ty: &'static str },
    /// Internal choice: this endpoint picks one of `branches`.
    Select { branches: Vec<SessionType> },
    /// External choice: this endpoint accepts the branch the peer picks.
    Choose { branches: Vec<SessionType> },
    /// Recursive protocol binding `var` in `body`.
    Recurse { var: &'static str, body: Box<SessionType> },
    /// Reference to an enclosing recursion variable.
    Var { var: &'static str },
    /// Terminate the session.
    End,
    /// No-op; continue with the next operation.
    Skip,
}

/// A binary session type: the sequence of operations on one endpoint.
#[derive(Debug)]
pub struct SessionType {
    ops: Vec<SessionOp>,
}

impl View for SessionType {
    type V = Seq<SessionOp>;

    closed spec fn view(&self) -> Seq<SessionOp> {
        self.ops@
    }
}

// ── Models ───────────────────────────────────────────────────────────────

/// The mathematical value of a session operation: names by their characters,
/// branches and bodies by their own models.
pub enum SessionOpModel {
    Send(Seq<char>),
    Recv(Seq<char>),
    Select(Seq<Seq<SessionOpModel>>),
    Choose(Seq<Seq<SessionOpModel>>),
    Recurse(Seq<char>, Seq<SessionOpModel>),
    Var(Seq<char>),
    End,
    Skip,
}

/// The model of one operation.
pub open spec fn op_model(op: SessionOp) -> SessionOpModel
    decreases op,
{
    match op {
        SessionOp::Send { ty } => SessionOpModel::Send(ty@),
        SessionOp::Recv { ty } => SessionOpModel::Recv(ty@),
        SessionOp::Select { branches } => SessionOpModel::Select(branches_model(branches@)),
        SessionOp::Choose { branches } => SessionOpModel::Choose(branches_model(branches@)),
        SessionOp::Recurse { var, body } => SessionOpModel::Recurse(var@, ops_model(body@)),
        SessionOp::Var { var } => SessionOpModel::Var(var@),
        SessionOp::End => SessionOpModel::End,
        SessionOp::Skip => SessionOpModel::Skip,
    }
}

/// The model of a sequence of operations, element by element.
pub open spec fn ops_model(s: Seq<SessionOp>) -> Seq<SessionOpModel>
    decreases s,
{
    if s.len() == 0 {
        Seq::empty()
    } else {
        seq![op_model(s[0])] + ops_model(s.drop_first())
    }
}

/// The models of a list of branches, branch by branch.
pub open spec fn branches_model(bs: Seq<SessionType>) -> Seq<Seq<SessionOpModel>>
    decreases bs,
{
    if bs.len() == 0 {
        Seq::empty()
    } else {
        seq![ops_model(bs[0]@)] + branches_model(bs.drop_first())
    }
}

impl DeepView for SessionType {
    type V = Seq<SessionOpModel>;

    open spec fn deep_view(&self) -> Seq<SessionOpModel> {
        ops_model(self@)
    }
}

impl DeepView for SessionOp {
    type V = SessionOpModel;

    open spec fn deep_view(&self) -> SessionOpModel {
        op_model(*self)
    }
}

proof fn lemma_ops_model(s: Seq<SessionOp>)
    ensures
        ops_model(s).len() == s.len(),
        forall|i: int| 0 <= i < s.len() ==> #[trigger] ops_model(s)[i] == op_model(s[i]),
    decreases s.len(),
{
    if s.len() > 0 {
        lemma_ops_model(s.drop_first());
        assert forall|i: int| 0 <= i < s.len() implies #[trigger] ops_model(s)[i] == op_model(s[i]) by {
            if i > 0 {
                assert(ops_model(s)[i] == ops_model(s.drop_first())[i - 1]);
            }
        }
    }
}

proof fn lemma_branches_model(bs: Seq<SessionType>)
    ensures
        branches_model(bs).len() == bs.len(),
        forall|i: int| 0 <= i < bs.len() ==> #[trigger] branches_model(bs)[i] == ops_model(bs[i]@),
    decreases bs.len(),
{
    if bs.len() > 0 {
        lemma_branches_model(bs.drop_first());
        assert forall|i: int| 0 <= i < bs.len() implies #[trigger] branches_model(bs)[i] == ops_model(bs[i]@) by {
            if i > 0 {
                assert(branches_model(bs)[i] == branches_model(bs.drop_first())[i - 1]);
            }
        }
    }
}

// ── Duality ──────────────────────────────────────────────────────────────

/// Whether two operation sequences are dual, following the duality rules:
/// leading `Skip`s are transparent; `Send{T}` ⊥ `Recv{T}`; `Select` ⊥ `Choose`
/// with pairwise-dual branches; `Recurse` ⊥ `Recurse` with the same variable
/// and dual bodies; `Var` ⊥ `Var` on the same variable; a terminated side
/// (empty or `End`) is dual to a terminated side.
pub open spec fn dual_ops(a: Seq<SessionOpModel>, b: Seq<SessionOpModel>) -> bool
    decreases a, b,
{
    if a.len() > 0 && a[0] is Skip {
        dual_ops(a.drop_first(), b)
    } else if b.len() > 0 && b[0] is Skip {
        dual_ops(a, b.drop_first())
    } else if a.len() == 0 || a[0] is End {
        b.len() == 0 || b[0] is End
    } else if b.len() == 0 {
        false
    } else {
        let rest = dual_ops(a.drop_first(), b.drop_first());
        match (a[0], b[0]) {
            (SessionOpModel::Send(ta), SessionOpModel::Recv(tb)) => ta == tb && rest,
            (SessionOpModel::Recv(ta), SessionOpModel::Send(tb)) => ta == tb && rest,
            (SessionOpModel::Select(ba), SessionOpModel::Choose(bb)) => dual_branches(ba, bb) && rest,
            (SessionOpModel::Choose(ba), SessionOpModel::Select(bb)) => dual_branches(ba, bb) && rest,
            (SessionOpModel::Recurse(va, ba), SessionOpModel::Recurse(vb, bb)) =>
                va == vb && dual_ops(ba, bb) && rest,
            (SessionOpModel::Var(va), SessionOpModel::Var(vb)) => va == vb && rest,
            _ => false,
        }
    }
}

/// Two branch lists are dual: same length, and pairwise-dual branches.
pub open spec fn dual_branches(ba: Seq<Seq<SessionOpModel>>, bb: Seq<Seq<SessionOpModel>>) -> bool
    decreases ba, bb,
{
    if ba.len() != bb.len() {
        false
    } else if ba.len() == 0 {
        true
    } else {
        dual_ops(ba[0], bb[0]) && dual_branches(ba.drop_first(), bb.drop_first())
    }
}

/// Whether two binary session types are dual (the linking condition for
/// session-typed ports).
pub open spec fn session_dual(a: SessionType, b: SessionType) -> bool {
    dual_ops(a.deep_view(), b.deep_view())
}

} // verus!

verus! {

proof fn lemma_dual_branches_pointwise(ba: Seq<Seq<SessionOpModel>>, bb: Seq<Seq<SessionOpModel>>)
    ensures
        dual_branches(ba, bb) <==> (ba.len() == bb.len() && forall|k: int|
            0 <= k < ba.len() ==> #[trigger] dual_ops(ba[k], bb[k])),
    decreases ba.len(),
{
    if ba.len() == bb.len() && ba.len() > 0 {
        lemma_dual_branches_pointwise(ba.drop_first(), bb.drop_first());
        if dual_branches(ba, bb) {
            assert forall|k: int| 0 <= k < ba.len() implies #[trigger] dual_ops(ba[k], bb[k]) by {
                if k > 0 {
                    assert(dual_ops(ba.drop_first()[k - 1], bb.drop_first()[k - 1]));
                }
            }
        }
        if forall|k: int| 0 <= k < ba.len() ==> #[trigger] dual_ops(ba[k], bb[k]) {
            assert(dual_ops(ba[0], bb[0]));
            assert forall|k: int| 0 <= k < ba.drop_first().len() implies #[trigger] dual_ops(
                ba.drop_first()[k],
                bb.drop_first()[k],
            ) by {
                assert(dual_ops(ba[k + 1], bb[k + 1]));
            }
        }
    }
}

/// Whether two binary session types are dual: two session-typed ports can be
/// linked iff their protocols are dual.
pub fn is_dual(a: &SessionType, b: &SessionType) -> (r: bool)
    ensures
        r == session_dual(*a, *b),
    decreases *a,
{
    let ao = &a.ops;
    let bo = &b.ops;
    let mut i: usize = 0;
    let mut j: usize = 0;
    proof {
        lemma_ops_model(ao@);
        lemma_ops_model(bo@);
        assert(a.deep_view().subrange(0, ao@.len() as int) =~= a.deep_view());
        assert(b.deep_view().subrange(0, bo@.len() as int) =~= b.deep_view());
    }
    loop
        invariant
            ao == &a.ops,
            bo == &b.ops,
            i <= ao.len(),
            j <= bo.len(),
            a.deep_view().len() == ao.len(),
            b.deep_view().len() == bo.len(),
            forall|t: int| 0 <= t < ao.len() ==> #[trigger] a.deep_view()[t] == op_model(ao@[t]),
            forall|t: int| 0 <= t < bo.len() ==> #[trigger] b.deep_view()[t] == op_model(bo@[t]),
            dual_ops(a.deep_view().subrange(i as int, ao.len() as int), b.deep_view().subrange(j as int, bo.len() as int))
                == session_dual(*a, *b),
        decreases (ao.len() - i) + (bo.len() - j),
    {
        let ghost sa = a.deep_view().subrange(i as int, ao.len() as int);
        let ghost sb = b.deep_view().subrange(j as int, bo.len() as int);
        proof {
            if sa.len() > 0 {
                assert(sa.drop_first() =~= a.deep_view().subrange(i + 1, ao.len() as int));
                assert(sa[0] == op_model(ao@[i as int]));
            }
            if sb.len() > 0 {
                assert(sb.drop_first() =~= b.deep_view().subrange(j + 1, bo.len() as int));
                assert(sb[0] == op_model(bo@[j as int]));
            }
        }
        if i < ao.len() && matches!(ao[i], SessionOp::Skip) {
            i = i + 1;
            continue;
        }
        if j < bo.len() && matches!(bo[j], SessionOp::Skip) {
            j = j + 1;
            continue;
        }
        if i == ao.len() || matches!(ao[i], SessionOp::End) {
            return j == bo.len() || matches!(bo[j], SessionOp::End);
        }
        if j == bo.len() {
            return false;
        }
        let head_ok = match (&ao[i], &bo[j]) {
            (SessionOp::Send { ty: ta }, SessionOp::Recv { ty: tb }) => str_eq(ta, tb),
            (SessionOp::Recv { ty: ta }, SessionOp::Send { ty: tb }) => str_eq(ta, tb),
            (SessionOp::Select { branches: ba }, SessionOp::Choose { branches: bb }) => {
                is_dual_branches(ba, bb)
            },
            (SessionOp::Choose { branches: ba }, SessionOp::Select { branches: bb }) => {
                is_dual_branches(ba, bb)
            },
            (SessionOp::Recurse { var: va, body: ba }, SessionOp::Recurse { var: vb, body: bb }) => {
                str_eq(va, vb) && is_dual(ba, bb)
            },
            (SessionOp::Var { var: va }, SessionOp::Var { var: vb }) => str_eq(va, vb),
            _ => false,
        };
        if !head_ok {
            return false;
        }
        i = i + 1;
        j = j + 1;
    }
}

fn is_dual_branches(ba: &Vec<SessionType>, bb: &Vec<SessionType>) -> (r: bool)
    ensures
        r == dual_branches(branches_model(ba@), branches_model(bb@)),
    decreases *ba,
{
    proof {
        lemma_branches_model(ba@);
        lemma_branches_model(bb@);
    }
    if ba.len() != bb.len() {
        proof {
            lemma_dual_branches_pointwise(branches_model(ba@), branches_model(bb@));
        }
        return false;
    }
    let mut k: usize = 0;
    while k < ba.len()
        invariant
            ba.len() == bb.len(),
            k <= ba.len(),
            branches_model(ba@).len() == ba.len(),
            branches_model(bb@).len() == bb.len(),
            forall|t: int| 0 <= t < ba.len() ==> #[trigger] branches_model(ba@)[t] == ops_model(ba@[t]@),
            forall|t: int| 0 <= t < bb.len() ==> #[trigger] branches_model(bb@)[t] == ops_model(bb@[t]@),
            forall|t: int| 0 <= t < k ==> #[trigger] dual_ops(branches_model(ba@)[t], branches_model(bb@)[t]),
        decreases ba.len() - k,
    {
        let d = is_dual(&ba[k], &bb[k]);
        assert(branches_model(ba@)[k as int] == ba@[k as int].deep_view());
        assert(branches_model(bb@)[k as int] == bb@[k as int].deep_view());
        if !d {
            proof {
                lemma_dual_branches_pointwise(branches_model(ba@), branches_model(bb@));
            }
            return false;
        }
        k = k + 1;
    }
    proof {
        lemma_dual_branches_pointwise(branches_model(ba@), branches_model(bb@));
    }
    true
}

} // verus!

verus! {

proof fn lemma_dual_skip_right(a: Seq<SessionOpModel>, b: Seq<SessionOpModel>)
    requires
        b.len() > 0,
        b[0] is Skip,
    ensures
        dual_ops(a, b) == dual_ops(a, b.drop_first()),
    decreases a.len(),
{
    if a.len() > 0 && a[0] is Skip {
        lemma_dual_skip_right(a.drop_first(), b);
    }
}

proof fn lemma_dual_ops_symmetric(a: Seq<SessionOpModel>, b: Seq<SessionOpModel>)
    ensures
        dual_ops(a, b) == dual_ops(b, a),
    decreases a, b,
{
    if a.len() > 0 && a[0] is Skip {
        lemma_dual_ops_symmetric(a.drop_first(), b);
        lemma_dual_skip_right(b, a);
    } else if b.len() > 0 && b[0] is Skip {
        lemma_dual_ops_symmetric(a, b.drop_first());
        lemma_dual_skip_right(a, b);
    } else if a.len() == 0 || a[0] is End || b.len() == 0 || b[0] is End {
    } else {
        lemma_dual_ops_symmetric(a.drop_first(), b.drop_first());
        match (a[0], b[0]) {
            (SessionOpModel::Select(ba), SessionOpModel::Choose(bb)) => {
                lemma_dual_branches_symmetric(ba, bb);
            },
            (SessionOpModel::Choose(ba), SessionOpModel::Select(bb)) => {
                lemma_dual_branches_symmetric(ba, bb);
            },
            (SessionOpModel::Recurse(va, ba), SessionOpModel::Recurse(vb, bb)) => {
                lemma_dual_ops_symmetric(ba, bb);
            },
            _ => {},
        }
    }
}

proof fn lemma_dual_branches_symmetric(ba: Seq<Seq<SessionOpModel>>, bb: Seq<Seq<SessionOpModel>>)
    ensures
        dual_branches(ba, bb) == dual_branches(bb, ba),
    decreases ba, bb,
{
    if ba.len() == bb.len() && ba.len() > 0 {
        lemma_dual_ops_symmetric(ba[0], bb[0]);
        lemma_dual_branches_symmetric(ba.drop_first(), bb.drop_first());
    }
}

/// Duality is symmetric: `a` is dual to `b` exactly when `b` is dual to `a`,
/// so `is_dual(a, b) == is_dual(b, a)`.
pub proof fn lemma_is_dual_symmetric(a: SessionType, b: SessionType)
    ensures
        session_dual(a, b) == session_dual(b, a),
{
    lemma_dual_ops_symmetric(a.deep_view(), b.deep_view());
}

} // verus!

verus! {

proof fn lemma_ops_model_ext(s1: Seq<SessionOp>, s2: Seq<SessionOp>)
    requires
        s1.len() == s2.len(),
        forall|i: int| 0 <= i < s1.len() ==> #[trigger] op_model(s1[i]) == op_model(s2[i]),
    ensures
        ops_model(s1) == ops_model(s2),
{
    lemma_ops_model(s1);
    lemma_ops_model(s2);
    assert(ops_model(s1) =~= ops_model(s2));
}

proof fn lemma_ops_model_concat(s1: Seq<SessionOp>, s2: Seq<SessionOp>)
    ensures
        ops_model(s1 + s2) == ops_model(s1) + ops_model(s2),
{
    lemma_ops_model(s1);
    lemma_ops_model(s2);
    lemma_ops_model(s1 + s2);
    assert(ops_model(s1 + s2) =~= ops_model(s1) + ops_model(s2));
}

proof fn lemma_branches_model_ext(b1: Seq<SessionType>, b2: Seq<SessionType>)
    requires
        b1.len() == b2.len(),
        forall|i: int| 0 <= i < b1.len() ==> #[trigger] ops_model(b1[i]@) == ops_model(b2[i]@),
    ensures
        branches_model(b1) == branches_model(b2),
{
    lemma_branches_model(b1);
    lemma_branches_model(b2);
    assert(branches_model(b1) =~= branches_model(b2));
}

fn clone_op(op: &SessionOp) -> (r: SessionOp)
    ensures
        op_model(r) == op_model(*op),
    decreases *op,
{
    match op {
        SessionOp::Send { ty } => SessionOp::Send { ty: *ty },
        SessionOp::Recv { ty } => SessionOp::Recv { ty: *ty },
        SessionOp::Select { branches } => SessionOp::Select { branches: clone_branches(branches) },
        SessionOp::Choose { branches } => SessionOp::Choose { branches: clone_branches(branches) },
        SessionOp::Recurse { var, body } => {
            let b = clone_ops(&body.ops);
            SessionOp::Recurse { var: *var, body: Box::new(SessionType { ops: b }) }
        },
        SessionOp::Var { var } => SessionOp::Var { var: *var },
        SessionOp::End => SessionOp::End,
        SessionOp::Skip => SessionOp::Skip,
    }
}

fn clone_ops(v: &Vec<SessionOp>) -> (r: Vec<SessionOp>)
    ensures
        ops_model(r@) == ops_model(v@),
    decreases *v,
{
    let mut r: Vec<SessionOp> = Vec::new();
    let mut k: usize = 0;
    while k < v.len()
        invariant
            k <= v.len(),
            r.len() == k,
            forall|t: int| 0 <= t < k ==> #[trigger] op_model(r@[t]) == op_model(v@[t]),
        decreases v.len() - k,
    {
        let c = clone_op(&v[k]);
        r.push(c);
        k = k + 1;
    }
    proof {
        lemma_ops_model_ext(r@, v@);
    }
    r
}

fn clone_branches(v: &Vec<SessionType>) -> (r: Vec<SessionType>)
    ensures
        branches_model(r@) == branches_model(v@),
    decreases *v,
{
    let mut r: Vec<SessionType> = Vec::new();
    let mut k: usize = 0;
    while k < v.len()
        invariant
            k <= v.len(),
            r.len() == k,
            forall|t: int| 0 <= t < k ==> #[trigger] ops_model(r@[t]@) == ops_model(v@[t]@),
        decreases v.len() - k,
    {
        let c = clone_ops(&v[k].ops);
        let ghost prev = r@;
        r.push(SessionType { ops: c });
        proof {
            assert forall|t: int| 0 <= t < k + 1 implies #[trigger] ops_model(r@[t]@) == ops_model(v@[t]@) by {
                if t < k {
                    assert(r@[t] == prev[t]);
                }
            }
        }
        k = k + 1;
    }
    proof {
        lemma_branches_model_ext(r@, v@);
    }
    r
}

impl Clone for SessionOp {
    /// A deep copy: the copy has the same model.
    fn clone(&self) -> (r: Self)
        ensures
            r.deep_view() == self.deep_view(),
    {
        clone_op(self)
    }
}

impl Clone for SessionType {
    /// A deep copy: the copy has the same model.
    fn clone(&self) -> (r: Self)
        ensures
            r.deep_view() == self.deep_view(),
    {
        SessionType { ops: clone_ops(&self.ops) }
    }
}

impl SessionType {
    /// A session type made of a copy of the given operations, in order.
    pub fn sequence(ops: &[SessionOp]) -> (r: Self)
        ensures
            r.deep_view() == ops_model(ops@),
    {
        let mut v: Vec<SessionOp> = Vec::new();
        let mut k: usize = 0;
        while k < ops.len()
            invariant
                k <= ops.len(),
                v.len() == k,
                forall|t: int| 0 <= t < k ==> #[trigger] op_model(v@[t]) == op_model(ops@[t]),
            decreases ops.len() - k,
        {
            v.push(clone_op(&ops[k]));
            k = k + 1;
        }
        proof {
            lemma_ops_model_ext(v@, ops@);
        }
        SessionType { ops: v }
    }

    /// The empty session (equivalent to `end`).
    pub fn empty() -> (r: Self)
        ensures
            r.deep_view() == Seq::<SessionOpModel>::empty(),
    {
        SessionType { ops: Vec::new() }
    }

    /// A single-operation session.
    pub fn single(op: SessionOp) -> (r: Self)
        ensures
            r.deep_view() == seq![op.deep_view()],
    {
        let mut v: Vec<SessionOp> = Vec::new();
        v.push(op);
        proof {
            lemma_ops_model(v@);
            assert(ops_model(v@) =~= seq![op.deep_view()]);
        }
        SessionType { ops: v }
    }

    /// The `end` session type.
    pub fn end() -> (r: Self)
        ensures
            r.deep_view() == seq![SessionOpModel::End],
    {
        SessionType::single(SessionOp::End)
    }

    /// This session followed by `other`.
    pub fn then(self, other: SessionType) -> (r: Self)
        ensures
            r.deep_view() == self.deep_view() + other.deep_view(),
    {
        let mut ops = self.ops;
        let mut rest = other.ops;
        proof {
            lemma_ops_model_concat(ops@, rest@);
        }
        ops.append(&mut rest);
        SessionType { ops }
    }

    /// This session followed by one more operation.
    pub fn push(self, op: SessionOp) -> (r: Self)
        ensures
            r.deep_view() == self.deep_view().push(op.deep_view()),
    {
        let mut ops = self.ops;
        proof {
            lemma_ops_model_concat(ops@, seq![op]);
            lemma_ops_model(seq![op]);
            assert(ops_model(seq![op]) =~= seq![op.deep_view()]);
            assert(ops@.push(op) =~= ops@ + seq![op]);
        }
        ops.push(op);
        SessionType { ops }
    }

    /// All operations, in order.
    pub fn ops(&self) -> (r: &[SessionOp])
        ensures
            ops_model(r@) == self.deep_view(),
    {
        self.ops.as_slice()
    }

    /// Whether this session type holds no operation.
    pub fn is_empty(&self) -> (r: bool)
        ensures
            r == (self.deep_view().len() == 0),
    {
        proof {
            lemma_ops_model(self.ops@);
        }
        self.ops.len() == 0
    }
}

} // verus!

verus! {

// ── Session state (runtime automaton) ───────────────────────────────────

/// Runtime progress through a `SessionType`.
#[derive(Debug)]
pub struct SessionState {
    protocol: SessionType,
    cursor: usize,
    completed: bool,
    error: bool,
}

/// The mathematical value of a session state.
pub struct SessionStateView {
    /// The protocol being followed.
    pub protocol: Seq<SessionOpModel>,
    /// Index of the next operation to perform.
    pub cursor: nat,
    /// Whether the session has terminated.
    pub completed: bool,
    /// Whether a protocol violation has occurred.
    pub error: bool,
}

impl View for SessionState {
    type V = SessionStateView;

    closed spec fn view(&self) -> SessionStateView {
        SessionStateView {
            protocol: self.protocol.deep_view(),
            cursor: self.cursor as nat,
            completed: self.completed,
            error: self.error,
        }
    }
}

/// Whether a protocol is terminated at position `c` (exhausted, or at `End`).
pub open spec fn terminated_at(p: Seq<SessionOpModel>, c: int) -> bool {
    c >= p.len() || p[c] is End
}

/// The first position at or after `c` that is not a `Skip` (or the length).
pub open spec fn skip_from(p: Seq<SessionOpModel>, c: int) -> int
    decreases p.len() - c,
{
    if c < p.len() && p[c] is Skip {
        skip_from(p, c + 1)
    } else {
        c
    }
}

/// The operation a state is waiting for, if it is neither complete nor in error.
pub open spec fn state_current(s: SessionStateView) -> Option<SessionOpModel> {
    if s.error || s.completed || s.cursor >= s.protocol.len() {
        None
    } else {
        Some(s.protocol[s.cursor as int])
    }
}

/// The state after a successful step past the current operation: the cursor
/// moves forward, over any `Skip`s, and the session completes on reaching the
/// end of the protocol or an `End`.
pub open spec fn state_after_step(s: SessionStateView) -> SessionStateView {
    let c = skip_from(s.protocol, s.cursor as int + 1);
    SessionStateView {
        protocol: s.protocol,
        cursor: c as nat,
        completed: s.completed || terminated_at(s.protocol, c),
        error: s.error,
    }
}

/// The state of a fresh session on protocol `p`.
pub open spec fn state_initial(p: Seq<SessionOpModel>) -> SessionStateView {
    SessionStateView { protocol: p, cursor: 0, completed: p.len() == 0 || p[0] is End, error: false }
}

/// Whether the operation a state waits for is a send (`send`) or a receive
/// of type `ty`.
pub open spec fn state_expects(s: SessionStateView, send: bool, ty: Seq<char>) -> bool {
    if send {
        state_current(s) matches Some(SessionOpModel::Send(t)) && t == ty
    } else {
        state_current(s) matches Some(SessionOpModel::Recv(t)) && t == ty
    }
}

/// The state after advancing by a send (`send`) or a receive of type `ty`:
/// one step on when the state expects it, the error state otherwise.
pub open spec fn state_advance(s: SessionStateView, send: bool, ty: Seq<char>) -> SessionStateView {
    if state_expects(s, send, ty) {
        state_after_step(s)
    } else {
        SessionStateView { error: true, ..s }
    }
}

/// The state after a sequence of advances, each a send or receive flag and
/// a type, in order.
pub open spec fn state_advances(s: SessionStateView, evs: Seq<(bool, Seq<char>)>) -> SessionStateView
    decreases evs.len(),
{
    if evs.len() == 0 {
        s
    } else {
        state_advances(state_advance(s, evs[0].0, evs[0].1), evs.drop_first())
    }
}

/// Advancing never changes the protocol, so a reset after any sequence of
/// advances from a fresh session gives the fresh session back: no error,
/// cursor at the start, complete only for an empty or `End`-first protocol.
pub proof fn lemma_reset_after_advances(p: Seq<SessionOpModel>, evs: Seq<(bool, Seq<char>)>)
    ensures
        state_initial(state_advances(state_initial(p), evs).protocol) == state_initial(p),
{
    lemma_advances_keep_protocol(state_initial(p), evs);
}

proof fn lemma_advances_keep_protocol(s: SessionStateView, evs: Seq<(bool, Seq<char>)>)
    ensures
        state_advances(s, evs).protocol == s.protocol,
    decreases evs.len(),
{
    if evs.len() > 0 {
        lemma_advances_keep_protocol(state_advance(s, evs[0].0, evs[0].1), evs.drop_first());
    }
}

proof fn lemma_skip_from_bounds(p: Seq<SessionOpModel>, c: int)
    requires
        c <= p.len(),
    ensures
        c <= skip_from(p, c) <= p.len(),
    decreases p.len() - c,
{
    if c < p.len() && p[c] is Skip {
        lemma_skip_from_bounds(p, c + 1);
    }
}

impl SessionState {
    #[verifier::type_invariant]
    spec fn inv(self) -> bool {
        &&& self.cursor <= self.protocol.ops@.len()
        &&& ops_model(self.protocol.ops@).len() == self.protocol.ops@.len()
    }

    /// A new session state at the beginning of `protocol`.
    pub fn new(protocol: &SessionType) -> (s: Self)
        ensures
            s@ == state_initial(protocol.deep_view()),
    {
        let p = protocol.clone();
        proof {
            lemma_ops_model(p.ops@);
        }
        let completed = p.ops.len() == 0 || matches!(p.ops[0], SessionOp::End);
        SessionState { protocol: p, cursor: 0, completed, error: false }
    }

    /// The operation the session is waiting for, if any.
    pub fn current_op(&self) -> (r: Option<&SessionOp>)
        ensures
            match r {
                Some(op) => state_current(self@) == Some(op.deep_view()),
                None => state_current(self@) is None,
            },
    {
        proof {
            use_type_invariant(self);
            lemma_ops_model(self.protocol.ops@);
        }
        if self.error || self.completed || self.cursor >= self.protocol.ops.len() {
            return None;
        }
        Some(&self.protocol.ops[self.cursor])
    }

    /// Whether the session can currently send a value of type `ty`.
    pub fn can_send(&self, ty: &str) -> (r: bool)
        ensures
            r == (state_current(self@) matches Some(SessionOpModel::Send(t)) && t == ty@),
    {
        match self.current_op() {
            Some(SessionOp::Send { ty: t }) => str_eq(t, ty),
            _ => false,
        }
    }

    /// Whether the session can currently receive a value of type `ty`.
    pub fn can_recv(&self, ty: &str) -> (r: bool)
        ensures
            r == (state_current(self@) matches Some(SessionOpModel::Recv(t)) && t == ty@),
    {
        match self.current_op() {
            Some(SessionOp::Recv { ty: t }) => str_eq(t, ty),
            _ => false,
        }
    }

    fn check_completion(&mut self)
        requires
            old(self).cursor <= old(self).protocol.ops@.len(),
        ensures
            final(self)@ == (SessionStateView {
                cursor: skip_from(old(self)@.protocol, old(self)@.cursor as int) as nat,
                completed: old(self)@.completed || terminated_at(
                    old(self)@.protocol,
                    skip_from(old(self)@.protocol, old(self)@.cursor as int),
                ),
                ..old(self)@
            }),
            final(self).cursor <= final(self).protocol.ops@.len(),
            final(self).protocol == old(self).protocol,
        decreases old(self).protocol.ops@.len() - old(self).cursor,
    {
        proof {
            lemma_ops_model(self.protocol.ops@);
        }
        let c = self.cursor;
        if c >= self.protocol.ops.len() {
            self.completed = true;
        } else {
            match self.protocol.ops[c] {
                SessionOp::End => {
                    self.completed = true;
                },
                SessionOp::Skip => {
                    self.cursor = c + 1;
                    self.check_completion();
                },
                _ => {},
            }
        }
    }

    fn step(&mut self)
        requires
            old(self).cursor < old(self).protocol.ops.len(),
            ops_model(old(self).protocol.ops@).len() == old(self).protocol.ops@.len(),
        ensures
            final(self)@ == state_after_step(old(self)@),
            final(self).cursor <= final(self).protocol.ops@.len(),
            final(self).protocol == old(self).protocol,
    {
        self.cursor = self.cursor + 1;
        self.check_completion();
    }

    /// Advance by sending a value of type `ty`. On a protocol violation the
    /// session enters the error state and `false` is returned.
    pub fn advance_send(&mut self, ty: &str) -> (ok: bool)
        ensures
            ok == (state_current(old(self)@) matches Some(SessionOpModel::Send(t)) && t == ty@),
            final(self)@ == state_advance(old(self)@, true, ty@),
            ok ==> final(self)@ == state_after_step(old(self)@),
            !ok ==> final(self)@ == (SessionStateView { error: true, ..old(self)@ }),
    {
        proof {
            use_type_invariant(&*self);
        }
        if !self.can_send(ty) {
            self.error = true;
            return false;
        }
        self.step();
        true
    }

    /// Advance by receiving a value of type `ty`. On a protocol violation the
    /// session enters the error state and `false` is returned.
    pub fn advance_recv(&mut self, ty: &str) -> (ok: bool)
        ensures
            ok == (state_current(old(self)@) matches Some(SessionOpModel::Recv(t)) && t == ty@),
            final(self)@ == state_advance(old(self)@, false, ty@),
            ok ==> final(self)@ == state_after_step(old(self)@),
            !ok ==> final(self)@ == (SessionStateView { error: true, ..old(self)@ }),
    {
        proof {
            use_type_invariant(&*self);
        }
        if !self.can_recv(ty) {
            self.error = true;
            return false;
        }
        self.step();
        true
    }

    /// Whether the session has completed.
    pub fn is_complete(&self) -> (r: bool)
        ensures
            r == self@.completed,
    {
        self.completed
    }

    /// Whether the session is in the error state.
    pub fn is_error(&self) -> (r: bool)
        ensures
            r == self@.error,
    {
        self.error
    }

    /// Reset the session to the beginning of its protocol.
    pub fn reset(&mut self)
        ensures
            final(self)@ == state_initial(old(self)@.protocol),
    {
        proof {
            use_type_invariant(&*self);
            lemma_ops_model(self.protocol.ops@);
        }
        self.cursor = 0;
        self.completed = self.protocol.ops.len() == 0 || matches!(self.protocol.ops[0], SessionOp::End);
        self.error = false;
    }

    /// Progress as the pair (operations passed, protocol length); the ratio
    /// of the two is the fraction of the protocol done.
    pub fn progress_parts(&self) -> (r: (usize, usize))
        ensures
            r.0 == self@.cursor,
            r.1 == self@.protocol.len(),
    {
        proof {
            use_type_invariant(self);
        }
        (self.cursor, self.protocol.ops.len())
    }
}

} // verus!

verus! {

// ════════════════════════════════════════════════════════════════════════
// Multiparty session types
// ════════════════════════════════════════════════════════════════════════

/// A participant in a multiparty session, identified by name.
#[derive(Debug, Clone, Copy)]
pub struct Role(pub &'static str);

impl Role {
    /// A role with the given name.
    pub fn new(name: &'static str) -> (r: Self)
        ensures
            r.0 == name,
    {
        Role(name)
    }

    /// The role's name.
    pub fn name(&self) -> (n: &'static str)
        ensures
            n == self.0,
    {
        self.0
    }
}

/// A single operation of a global (multiparty) session type.
#[derive(Debug)]
pub enum GlobalOp {
    /// A message from role `from` to role `to` carrying `label`.
    Message { from: &'static str, to: &'static str, label: &'static str },
    /// A choice made by role `selector` between `branches`.
    Choice { selector: &'static str, branches: Vec<GlobalType> },
    /// Recursive global type binding `var` in `body`.
    Recurse { var: &'static str, body: Box<GlobalType> },
    /// Reference to a recursion variable.
    Var { var: &'static str },
    /// Terminate the global session.
    End,
    /// No-op.
    Skip,
}

/// A global session type: the choreography of a multiparty protocol.
#[derive(Debug)]
pub struct GlobalType {
    ops: Vec<GlobalOp>,
}

/// A single operation of a local session type (one role's view).
#[derive(Debug, PartialEq)]
pub enum LocalOp {
    /// Send `label` to `to`.
    Send { to: &'static str, label: &'static str },
    /// Receive `label` from `from`.
    Recv { from: &'static str, label: &'static str },
    /// Internal choice: this role picks a branch.
    Select { branches: Vec<LocalType> },
    /// External choice: this role follows the branch the peer picks.
    Choose { branches: Vec<LocalType> },
    /// Recursive local type binding `var` in `body`.
    Recurse { var: &'static str, body: Box<LocalType> },
    /// Reference to a recursion variable.
    Var { var: &'static str },
    /// Terminate the local session.
    End,
    /// No-op.
    Skip,
}

/// A local session type: the view of a global protocol from one role.
#[derive(Debug, PartialEq)]
pub struct LocalType {
    ops: Vec<LocalOp>,
}

impl View for GlobalType {
    type V = Seq<GlobalOp>;

    closed spec fn view(&self) -> Seq<GlobalOp> {
        self.ops@
    }
}

impl View for LocalType {
    type V = Seq<LocalOp>;

    closed spec fn view(&self) -> Seq<LocalOp> {
        self.ops@
    }
}

/// The mathematical value of a global operation.
pub enum GlobalOpModel {
    Message(Seq<char>, Seq<char>, Seq<char>),
    Choice(Seq<char>, Seq<Seq<GlobalOpModel>>),
    Recurse(Seq<char>, Seq<GlobalOpModel>),
    Var(Seq<char>),
    End,
    Skip,
}

/// The mathematical value of a local operation.
pub enum LocalOpModel {
    Send(Seq<char>, Seq<char>),
    Recv(Seq<char>, Seq<char>),
    Select(Seq<Seq<LocalOpModel>>),
    Choose(Seq<Seq<LocalOpModel>>),
    Recurse(Seq<char>, Seq<LocalOpModel>),
    Var(Seq<char>),
    End,
    Skip,
}

pub open spec fn gop_model(op: GlobalOp) -> GlobalOpModel
    decreases op,
{
    match op {
        GlobalOp::Message { from, to, label } => GlobalOpModel::Message(from@, to@, label@),
        GlobalOp::Choice { selector, branches } => GlobalOpModel::Choice(selector@, gbranches_model(branches@)),
        GlobalOp::Recurse { var, body } => GlobalOpModel::Recurse(var@, gops_model(body@)),
        GlobalOp::Var { var } => GlobalOpModel::Var(var@),
        GlobalOp::End => GlobalOpModel::End,
        GlobalOp::Skip => GlobalOpModel::Skip,
    }
}

pub open spec fn gops_model(s: Seq<GlobalOp>) -> Seq<GlobalOpModel>
    decreases s,
{
    if s.len() == 0 {
        Seq::empty()
    } else {
        seq![gop_model(s[0])] + gops_model(s.drop_first())
    }
}

pub open spec fn gbranches_model(bs: Seq<GlobalType>) -> Seq<Seq<GlobalOpModel>>
    decreases bs,
{
    if bs.len() == 0 {
        Seq::empty()
    } else {
        seq![gops_model(bs[0]@)] + gbranches_model(bs.drop_first())
    }
}

pub open spec fn lop_model(op: LocalOp) -> LocalOpModel
    decreases op,
{
    match op {
        LocalOp::Send { to, label } => LocalOpModel::Send(to@, label@),
        LocalOp::Recv { from, label } => LocalOpModel::Recv(from@, label@),
        LocalOp::Select { branches } => LocalOpModel::Select(lbranches_model(branches@)),
        LocalOp::Choose { branches } => LocalOpModel::Choose(lbranches_model(branches@)),
        LocalOp::Recurse { var, body } => LocalOpModel::Recurse(var@, lops_model(body@)),
        LocalOp::Var { var } => LocalOpModel::Var(var@),
        LocalOp::End => LocalOpModel::End,
        LocalOp::Skip => LocalOpModel::Skip,
    }
}

pub open spec fn lops_model(s: Seq<LocalOp>) -> Seq<LocalOpModel>
    decreases s,
{
    if s.len() == 0 {
        Seq::empty()
    } else {
        seq![lop_model(s[0])] + lops_model(s.drop_first())
    }
}

pub open spec fn lbranches_model(bs: Seq<LocalType>) -> Seq<Seq<LocalOpModel>>
    decreases bs,
{
    if bs.len() == 0 {
        Seq::empty()
    } else {
        seq![lops_model(bs[0]@)] + lbranches_model(bs.drop_first())
    }
}

impl DeepView for GlobalType {
    type V = Seq<GlobalOpModel>;

    open spec fn deep_view(&self) -> Seq<GlobalOpModel> {
        gops_model(self@)
    }
}

impl DeepView for GlobalOp {
    type V = GlobalOpModel;

    open spec fn deep_view(&self) -> GlobalOpModel {
        gop_model(*self)
    }
}

impl DeepView for LocalType {
    type V = Seq<LocalOpModel>;

    open spec fn deep_view(&self) -> Seq<LocalOpModel> {
        lops_model(self@)
    }
}

impl DeepView for LocalOp {
    type V = LocalOpModel;

    open spec fn deep_view(&self) -> LocalOpModel {
        lop_model(*self)
    }
}

proof fn lemma_gops_model(s: Seq<GlobalOp>)
    ensures
        gops_model(s).len() == s.len(),
        forall|i: int| 0 <= i < s.len() ==> #[trigger] gops_model(s)[i] == gop_model(s[i]),
    decreases s.len(),
{
    if s.len() > 0 {
        lemma_gops_model(s.drop_first());
        assert forall|i: int| 0 <= i < s.len() implies #[trigger] gops_model(s)[i] == gop_model(s[i]) by {
            if i > 0 {
                assert(gops_model(s)[i] == gops_model(s.drop_first())[i - 1]);
            }
        }
    }
}

proof fn lemma_gbranches_model(bs: Seq<GlobalType>)
    ensures
        gbranches_model(bs).len() == bs.len(),
        forall|i: int| 0 <= i < bs.len() ==> #[trigger] gbranches_model(bs)[i] == gops_model(bs[i].ops@),
    decreases bs.len(),
{
    if bs.len() > 0 {
        lemma_gbranches_model(bs.drop_first());
        assert forall|i: int| 0 <= i < bs.len() implies #[trigger] gbranches_model(bs)[i] == gops_model(bs[i].ops@) by {
            if i > 0 {
                assert(gbranches_model(bs)[i] == gbranches_model(bs.drop_first())[i - 1]);
            }
        }
    }
}

proof fn lemma_lops_model(s: Seq<LocalOp>)
    ensures
        lops_model(s).len() == s.len(),
        forall|i: int| 0 <= i < s.len() ==> #[trigger] lops_model(s)[i] == lop_model(s[i]),
    decreases s.len(),
{
    if s.len() > 0 {
        lemma_lops_model(s.drop_first());
        assert forall|i: int| 0 <= i < s.len() implies #[trigger] lops_model(s)[i] == lop_model(s[i]) by {
            if i > 0 {
                assert(lops_model(s)[i] == lops_model(s.drop_first())[i - 1]);
            }
        }
    }
}

proof fn lemma_lbranches_model(bs: Seq<LocalType>)
    ensures
        lbranches_model(bs).len() == bs.len(),
        forall|i: int| 0 <= i < bs.len() ==> #[trigger] lbranches_model(bs)[i] == lops_model(bs[i].ops@),
    decreases bs.len(),
{
    if bs.len() > 0 {
        lemma_lbranches_model(bs.drop_first());
        assert forall|i: int| 0 <= i < bs.len() implies #[trigger] lbranches_model(bs)[i] == lops_model(bs[i].ops@) by {
            if i > 0 {
                assert(lbranches_model(bs)[i] == lbranches_model(bs.drop_first())[i - 1]);
            }
        }
    }
}

// ── Projection (specification) ──────────────────────────────────────────

/// A local type is inert when every op is `Skip` (or it is empty).
pub open spec fn inert(s: Seq<LocalOpModel>) -> bool {
    forall|i: int| 0 <= i < s.len() ==> #[trigger] s[i] is Skip
}

/// Every projected branch is inert.
pub open spec fn all_inert(bs: Seq<Seq<LocalOpModel>>) -> bool {
    forall|i: int| 0 <= i < bs.len() ==> inert(#[trigger] bs[i])
}

/// The projection of one global operation onto `role`.
pub open spec fn project_op(op: GlobalOpModel, role: Seq<char>) -> LocalOpModel
    decreases op,
{
    match op {
        GlobalOpModel::Message(from, to, label) => if from == role {
            LocalOpModel::Send(to, label)
        } else if to == role {
            LocalOpModel::Recv(from, label)
        } else {
            LocalOpModel::Skip
        },
        GlobalOpModel::End => LocalOpModel::End,
        GlobalOpModel::Skip => LocalOpModel::Skip,
        GlobalOpModel::Choice(selector, branches) => {
            let proj = project_branches(branches, role);
            if all_inert(proj) {
                LocalOpModel::Skip
            } else if selector == role {
                LocalOpModel::Select(proj)
            } else {
                LocalOpModel::Choose(proj)
            }
        },
        GlobalOpModel::Recurse(var, body) => {
            let proj = project_ops(body, role);
            if inert(proj) {
                LocalOpModel::Skip
            } else {
                LocalOpModel::Recurse(var, proj)
            }
        },
        GlobalOpModel::Var(var) => LocalOpModel::Var(var),
    }
}

/// The projection of a sequence of global operations, op by op.
pub open spec fn project_ops(s: Seq<GlobalOpModel>, role: Seq<char>) -> Seq<LocalOpModel>
    decreases s,
{
    if s.len() == 0 {
        Seq::empty()
    } else {
        seq![project_op(s[0], role)] + project_ops(s.drop_first(), role)
    }
}

/// The projections of a list of branches, branch by branch.
pub open spec fn project_branches(bs: Seq<Seq<GlobalOpModel>>, role: Seq<char>) -> Seq<Seq<LocalOpModel>>
    decreases bs,
{
    if bs.len() == 0 {
        Seq::empty()
    } else {
        seq![project_ops(bs[0], role)] + project_branches(bs.drop_first(), role)
    }
}

proof fn lemma_project_ops(s: Seq<GlobalOpModel>, role: Seq<char>)
    ensures
        project_ops(s, role).len() == s.len(),
        forall|i: int| 0 <= i < s.len() ==> #[trigger] project_ops(s, role)[i] == project_op(s[i], role),
    decreases s.len(),
{
    if s.len() > 0 {
        lemma_project_ops(s.drop_first(), role);
        assert forall|i: int| 0 <= i < s.len() implies #[trigger] project_ops(s, role)[i] == project_op(s[i], role) by {
            if i > 0 {
                assert(project_ops(s, role)[i] == project_ops(s.drop_first(), role)[i - 1]);
            }
        }
    }
}

proof fn lemma_project_branches(bs: Seq<Seq<GlobalOpModel>>, role: Seq<char>)
    ensures
        project_branches(bs, role).len() == bs.len(),
        forall|i: int| 0 <= i < bs.len() ==> #[trigger] project_branches(bs, role)[i] == project_ops(bs[i], role),
    decreases bs.len(),
{
    if bs.len() > 0 {
        lemma_project_branches(bs.drop_first(), role);
        assert forall|i: int| 0 <= i < bs.len() implies #[trigger] project_branches(bs, role)[i] == project_ops(bs[i], role) by {
            if i > 0 {
                assert(project_branches(bs, role)[i] == project_branches(bs.drop_first(), role)[i - 1]);
            }
        }
    }
}

} // verus!

verus! {

// ── Projection (implementation) ─────────────────────────────────────────

fn ops_inert(ops: &Vec<LocalOp>) -> (r: bool)
    ensures
        r == inert(lops_model(ops@)),
{
    proof {
        lemma_lops_model(ops@);
    }
    let mut k: usize = 0;
    while k < ops.len()
        invariant
            k <= ops.len(),
            lops_model(ops@).len() == ops.len(),
            forall|t: int| 0 <= t < ops.len() ==> #[trigger] lops_model(ops@)[t] == lop_model(ops@[t]),
            forall|t: int| 0 <= t < k ==> #[trigger] lops_model(ops@)[t] is Skip,
        decreases ops.len() - k,
    {
        if !matches!(ops[k], LocalOp::Skip) {
            assert(!(lops_model(ops@)[k as int] is Skip));
            return false;
        }
        k = k + 1;
    }
    true
}

fn project_vec(ops: &Vec<GlobalOp>, role: &str) -> (r: Vec<LocalOp>)
    ensures
        lops_model(r@) == project_ops(gops_model(ops@), role@),
    decreases *ops,
{
    proof {
        lemma_gops_model(ops@);
        lemma_project_ops(gops_model(ops@), role@);
    }
    let mut out: Vec<LocalOp> = Vec::new();
    let mut k: usize = 0;
    while k < ops.len()
        invariant
            k <= ops.len(),
            out.len() == k,
            gops_model(ops@).len() == ops.len(),
            forall|t: int| 0 <= t < ops.len() ==> #[trigger] gops_model(ops@)[t] == gop_model(ops@[t]),
            forall|t: int| 0 <= t < k ==> #[trigger] lop_model(out@[t]) == project_op(gop_model(ops@[t]), role@),
        decreases ops.len() - k,
    {
        let lop = match &ops[k] {
            GlobalOp::Message { from, to, label } => {
                if str_eq(from, role) {
                    LocalOp::Send { to: *to, label: *label }
                } else if str_eq(to, role) {
                    LocalOp::Recv { from: *from, label: *label }
                } else {
                    LocalOp::Skip
                }
            },
            GlobalOp::End => LocalOp::End,
            GlobalOp::Skip => LocalOp::Skip,
            GlobalOp::Choice { selector, branches } => {
                let proj = project_gbranches(branches, role);
                let mut all = true;
                let mut b: usize = 0;
                proof {
                    lemma_lbranches_model(proj@);
                }
                while b < proj.len()
                    invariant
                        b <= proj.len(),
                        lbranches_model(proj@).len() == proj.len(),
                        forall|t: int| 0 <= t < proj.len() ==> #[trigger] lbranches_model(proj@)[t] == lops_model(proj@[t].ops@),
                        all == (forall|t: int| 0 <= t < b ==> inert(#[trigger] lbranches_model(proj@)[t])),
                    decreases proj.len() - b,
                {
                    let i = ops_inert(&proj[b].ops);
                    proof {
                        assert(lbranches_model(proj@)[b as int] == lops_model(proj@[b as int].ops@));
                        if !i {
                            assert(!inert(lbranches_model(proj@)[b as int]));
                        }
                        if all && i {
                            assert forall|t: int| 0 <= t < b + 1 implies inert(#[trigger] lbranches_model(proj@)[t]) by {
                                if t < b {
                                } else {
                                    assert(t == b);
                                }
                            }
                        }
                    }
                    all = all && i;
                    b = b + 1;
                }
                if all {
                    LocalOp::Skip
                } else if str_eq(selector, role) {
                    LocalOp::Select { branches: proj }
                } else {
                    LocalOp::Choose { branches: proj }
                }
            },
            GlobalOp::Recurse { var, body } => {
                let proj = project_vec(&body.ops, role);
                if ops_inert(&proj) {
                    LocalOp::Skip
                } else {
                    LocalOp::Recurse { var: *var, body: Box::new(LocalType { ops: proj }) }
                }
            },
            GlobalOp::Var { var } => LocalOp::Var { var: *var },
        };
        out.push(lop);
        k = k + 1;
    }
    proof {
        lemma_lops_model(out@);
        assert(lops_model(out@) =~= project_ops(gops_model(ops@), role@));
    }
    out
}

fn project_gbranches(bs: &Vec<GlobalType>, role: &str) -> (r: Vec<LocalType>)
    ensures
        lbranches_model(r@) == project_branches(gbranches_model(bs@), role@),
    decreases *bs,
{
    proof {
        lemma_gbranches_model(bs@);
        lemma_project_branches(gbranches_model(bs@), role@);
    }
    let mut out: Vec<LocalType> = Vec::new();
    let mut k: usize = 0;
    while k < bs.len()
        invariant
            k <= bs.len(),
            out.len() == k,
            gbranches_model(bs@).len() == bs.len(),
            forall|t: int| 0 <= t < bs.len() ==> #[trigger] gbranches_model(bs@)[t] == gops_model(bs@[t].ops@),
            forall|t: int| 0 <= t < k ==> #[trigger] lops_model(out@[t].ops@) == project_ops(gops_model(bs@[t].ops@), role@),
        decreases bs.len() - k,
    {
        let p = project_vec(&bs[k].ops, role);
        let ghost prev = out@;
        let item = LocalType { ops: p };
        out.push(item);
        proof {
            assert forall|t: int| 0 <= t < k + 1 implies #[trigger] lops_model(out@[t].ops@) == project_ops(gops_model(bs@[t].ops@), role@) by {
                if t < k {
                    assert(out@[t] == prev[t]);
                    assert(lops_model(prev[t].ops@) == project_ops(gops_model(bs@[t].ops@), role@));
                } else {
                    assert(out@[t] == item);
                }
            }
        }
        k = k + 1;
    }
    proof {
        lemma_lbranches_model(out@);
        assert(lbranches_model(out@) =~= project_branches(gbranches_model(bs@), role@));
    }
    out
}

/// Project a global type onto `role`: each message becomes a `Send` for its
/// sender, a `Recv` for its receiver and a `Skip` for anyone else; choices
/// become `Select` for the selector and `Choose` for the others; recursion
/// is kept; a choice or recursion the role takes no part in collapses to
/// `Skip`.
pub fn project(global: &GlobalType, role: &str) -> (r: LocalType)
    ensures
        r.deep_view() == project_ops(global.deep_view(), role@),
{
    LocalType { ops: project_vec(&global.ops, role) }
}

} // verus!

verus! {

// ── Roles, containment and consistency (specification) ──────────────────

/// The roles named by one global operation (recursively).
pub open spec fn roles_op(op: GlobalOpModel) -> Set<Seq<char>>
    decreases op,
{
    match op {
        GlobalOpModel::Message(from, to, _label) => set![from, to],
        GlobalOpModel::Choice(selector, branches) => set![selector].union(roles_branches(branches)),
        GlobalOpModel::Recurse(_var, body) => roles_ops(body),
        _ => Set::empty(),
    }
}

/// The roles named by a sequence of global operations.
pub open spec fn roles_ops(s: Seq<GlobalOpModel>) -> Set<Seq<char>>
    decreases s,
{
    if s.len() == 0 {
        Set::empty()
    } else {
        roles_op(s[0]).union(roles_ops(s.drop_first()))
    }
}

/// The roles named by a list of branches.
pub open spec fn roles_branches(bs: Seq<Seq<GlobalOpModel>>) -> Set<Seq<char>>
    decreases bs,
{
    if bs.len() == 0 {
        Set::empty()
    } else {
        roles_ops(bs[0]).union(roles_branches(bs.drop_first()))
    }
}

/// Whether a local op is `t` or contains `t` in a branch or body.
pub open spec fn lhas_op(op: LocalOpModel, t: LocalOpModel) -> bool
    decreases op,
{
    op == t || match op {
        LocalOpModel::Select(bs) => lhas_branches(bs, t),
        LocalOpModel::Choose(bs) => lhas_branches(bs, t),
        LocalOpModel::Recurse(_var, body) => lhas_ops(body, t),
        _ => false,
    }
}

/// Whether a local type contains `t`, descending into branches and bodies.
pub open spec fn lhas_ops(s: Seq<LocalOpModel>, t: LocalOpModel) -> bool
    decreases s,
{
    s.len() > 0 && (lhas_op(s[0], t) || lhas_ops(s.drop_first(), t))
}

/// Whether some branch contains `t`.
pub open spec fn lhas_branches(bs: Seq<Seq<LocalOpModel>>, t: LocalOpModel) -> bool
    decreases bs,
{
    bs.len() > 0 && (lhas_ops(bs[0], t) || lhas_branches(bs.drop_first(), t))
}

/// Every message inside `op` is matched in the projections of `g`: its
/// sender's projection holds `Send{to, label}` and its receiver's holds
/// `Recv{from, label}`.
pub open spec fn msgs_ok_op(op: GlobalOpModel, g: Seq<GlobalOpModel>) -> bool
    decreases op,
{
    match op {
        GlobalOpModel::Message(from, to, label) => lhas_ops(project_ops(g, from), LocalOpModel::Send(to, label))
            && lhas_ops(project_ops(g, to), LocalOpModel::Recv(from, label)),
        GlobalOpModel::Choice(_selector, branches) => msgs_ok_branches(branches, g),
        GlobalOpModel::Recurse(_var, body) => msgs_ok_ops(body, g),
        _ => true,
    }
}

/// Every message in the sequence (recursively) is matched in `g`'s projections.
pub open spec fn msgs_ok_ops(s: Seq<GlobalOpModel>, g: Seq<GlobalOpModel>) -> bool
    decreases s,
{
    s.len() == 0 || (msgs_ok_op(s[0], g) && msgs_ok_ops(s.drop_first(), g))
}

/// Every message in every branch is matched in `g`'s projections.
pub open spec fn msgs_ok_branches(bs: Seq<Seq<GlobalOpModel>>, g: Seq<GlobalOpModel>) -> bool
    decreases bs,
{
    bs.len() == 0 || (msgs_ok_ops(bs[0], g) && msgs_ok_branches(bs.drop_first(), g))
}

/// A global type is consistent when every message it contains, at any depth,
/// has a matching send in its sender's projection and a matching receive in
/// its receiver's projection.
pub open spec fn global_consistent(g: Seq<GlobalOpModel>) -> bool {
    msgs_ok_ops(g, g)
}

proof fn lemma_roles_ops(s: Seq<GlobalOpModel>)
    ensures
        forall|i: int| 0 <= i < s.len() ==> #[trigger] roles_op(s[i]).subset_of(roles_ops(s)),
        forall|x: Seq<char>| #[trigger] roles_ops(s).contains(x) ==> exists|i: int|
            0 <= i < s.len() && #[trigger] roles_op(s[i]).contains(x),
    decreases s.len(),
{
    if s.len() > 0 {
        let t = s.drop_first();
        lemma_roles_ops(t);
        assert(roles_ops(s) == roles_op(s[0]).union(roles_ops(t)));
        assert forall|i: int| 0 <= i < s.len() implies #[trigger] roles_op(s[i]).subset_of(roles_ops(s)) by {
            if i > 0 {
                assert(s[i] == t[i - 1]);
                assert(roles_op(t[i - 1]).subset_of(roles_ops(t)));
            }
        }
        assert forall|x: Seq<char>| #[trigger] roles_ops(s).contains(x) implies exists|i: int|
            0 <= i < s.len() && #[trigger] roles_op(s[i]).contains(x) by {
            if roles_op(s[0]).contains(x) {
                assert(roles_op(s[0]).contains(x));
            } else {
                assert(roles_ops(t).contains(x));
                let j = choose|j: int| 0 <= j < t.len() && #[trigger] roles_op(t[j]).contains(x);
                assert(s[j + 1] == t[j]);
                assert(roles_op(s[j + 1]).contains(x));
            }
        }
    }
}

proof fn lemma_roles_branches(bs: Seq<Seq<GlobalOpModel>>)
    ensures
        forall|i: int| 0 <= i < bs.len() ==> #[trigger] roles_ops(bs[i]).subset_of(roles_branches(bs)),
        forall|x: Seq<char>| #[trigger] roles_branches(bs).contains(x) ==> exists|i: int|
            0 <= i < bs.len() && #[trigger] roles_ops(bs[i]).contains(x),
    decreases bs.len(),
{
    if bs.len() > 0 {
        let t = bs.drop_first();
        lemma_roles_branches(t);
        assert(roles_branches(bs) == roles_ops(bs[0]).union(roles_branches(t)));
        assert forall|i: int| 0 <= i < bs.len() implies #[trigger] roles_ops(bs[i]).subset_of(roles_branches(bs)) by {
            if i > 0 {
                assert(bs[i] == t[i - 1]);
                assert(roles_ops(t[i - 1]).subset_of(roles_branches(t)));
            }
        }
        assert forall|x: Seq<char>| #[trigger] roles_branches(bs).contains(x) implies exists|i: int|
            0 <= i < bs.len() && #[trigger] roles_ops(bs[i]).contains(x) by {
            if roles_ops(bs[0]).contains(x) {
                assert(roles_ops(bs[0]).contains(x));
            } else {
                assert(roles_branches(t).contains(x));
                let j = choose|j: int| 0 <= j < t.len() && #[trigger] roles_ops(t[j]).contains(x);
                assert(bs[j + 1] == t[j]);
                assert(roles_ops(bs[j + 1]).contains(x));
            }
        }
    }
}

proof fn lemma_lhas_ops(s: Seq<LocalOpModel>, t: LocalOpModel)
    ensures
        lhas_ops(s, t) <==> exists|i: int| 0 <= i < s.len() && #[trigger] lhas_op(s[i], t),
    decreases s.len(),
{
    if s.len() > 0 {
        let r = s.drop_first();
        lemma_lhas_ops(r, t);
        assert(lhas_ops(s, t) == (lhas_op(s[0], t) || lhas_ops(r, t)));
        if lhas_op(s[0], t) {
            assert(lhas_op(s[0], t));
        }
        if lhas_ops(r, t) {
            let j = choose|j: int| 0 <= j < r.len() && #[trigger] lhas_op(r[j], t);
            assert(s[j + 1] == r[j]);
            assert(lhas_op(s[j + 1], t));
        }
        if exists|i: int| 0 <= i < s.len() && #[trigger] lhas_op(s[i], t) {
            let i = choose|i: int| 0 <= i < s.len() && #[trigger] lhas_op(s[i], t);
            if i > 0 {
                assert(r[i - 1] == s[i]);
                assert(lhas_op(r[i - 1], t));
            }
        }
    }
}

proof fn lemma_lhas_branches(bs: Seq<Seq<LocalOpModel>>, t: LocalOpModel)
    ensures
        lhas_branches(bs, t) <==> exists|i: int| 0 <= i < bs.len() && #[trigger] lhas_ops(bs[i], t),
    decreases bs.len(),
{
    if bs.len() > 0 {
        let r = bs.drop_first();
        lemma_lhas_branches(r, t);
        assert(lhas_branches(bs, t) == (lhas_ops(bs[0], t) || lhas_branches(r, t)));
        if lhas_ops(bs[0], t) {
            assert(lhas_ops(bs[0], t));
        }
        if lhas_branches(r, t) {
            let j = choose|j: int| 0 <= j < r.len() && #[trigger] lhas_ops(r[j], t);
            assert(bs[j + 1] == r[j]);
            assert(lhas_ops(bs[j + 1], t));
        }
        if exists|i: int| 0 <= i < bs.len() && #[trigger] lhas_ops(bs[i], t) {
            let i = choose|i: int| 0 <= i < bs.len() && #[trigger] lhas_ops(bs[i], t);
            if i > 0 {
                assert(r[i - 1] == bs[i]);
                assert(lhas_ops(r[i - 1], t));
            }
        }
    }
}

proof fn lemma_msgs_ok_ops(s: Seq<GlobalOpModel>, g: Seq<GlobalOpModel>)
    ensures
        msgs_ok_ops(s, g) <==> forall|i: int| 0 <= i < s.len() ==> #[trigger] msgs_ok_op(s[i], g),
    decreases s.len(),
{
    if s.len() > 0 {
        lemma_msgs_ok_ops(s.drop_first(), g);
        if msgs_ok_ops(s, g) {
            assert forall|i: int| 0 <= i < s.len() implies #[trigger] msgs_ok_op(s[i], g) by {
                if i > 0 {
                    assert(s[i] == s.drop_first()[i - 1]);
                }
            }
        }
        if forall|i: int| 0 <= i < s.len() ==> #[trigger] msgs_ok_op(s[i], g) {
            assert(msgs_ok_op(s[0], g));
            assert forall|i: int| 0 <= i < s.drop_first().len() implies #[trigger] msgs_ok_op(s.drop_first()[i], g) by {
                assert(msgs_ok_op(s[i + 1], g));
            }
        }
    }
}

proof fn lemma_msgs_ok_branches(bs: Seq<Seq<GlobalOpModel>>, g: Seq<GlobalOpModel>)
    ensures
        msgs_ok_branches(bs, g) <==> forall|i: int| 0 <= i < bs.len() ==> #[trigger] msgs_ok_ops(bs[i], g),
    decreases bs.len(),
{
    if bs.len() > 0 {
        lemma_msgs_ok_branches(bs.drop_first(), g);
        if msgs_ok_branches(bs, g) {
            assert forall|i: int| 0 <= i < bs.len() implies #[trigger] msgs_ok_ops(bs[i], g) by {
                if i > 0 {
                    assert(bs[i] == bs.drop_first()[i - 1]);
                }
            }
        }
        if forall|i: int| 0 <= i < bs.len() ==> #[trigger] msgs_ok_ops(bs[i], g) {
            assert(msgs_ok_ops(bs[0], g));
            assert forall|i: int| 0 <= i < bs.drop_first().len() implies #[trigger] msgs_ok_ops(bs.drop_first()[i], g) by {
                assert(msgs_ok_ops(bs[i + 1], g));
            }
        }
    }
}

} // verus!

verus! {

// ── Roles, containment and consistency (implementation) ─────────────────

/// The set of names held by a list of roles.
pub open spec fn role_names(v: Seq<Role>) -> Set<Seq<char>> {
    Set::new(|x: Seq<char>| exists|i: int| 0 <= i < v.len() && #[trigger] v[i].0@ == x)
}

/// No two roles of the list have the same name.
pub open spec fn roles_distinct(v: Seq<Role>) -> bool {
    forall|i: int, j: int| 0 <= i < j < v.len() ==> #[trigger] v[i].0@ != #[trigger] v[j].0@
}

fn add_role(acc: &mut Vec<Role>, name: &'static str)
    requires
        roles_distinct(old(acc)@),
    ensures
        roles_distinct(final(acc)@),
        role_names(final(acc)@) == role_names(old(acc)@).insert(name@),
{
    let mut k: usize = 0;
    while k < acc.len()
        invariant
            k <= acc.len(),
            roles_distinct(acc@),
            forall|t: int| 0 <= t < k ==> #[trigger] acc@[t].0@ != name@,
        decreases acc.len() - k,
    {
        if str_eq(acc[k].0, name) {
            proof {
                assert(role_names(acc@).contains(name@));
                assert(role_names(acc@).insert(name@) =~= role_names(acc@));
            }
            return;
        }
        k = k + 1;
    }
    let ghost before = acc@;
    acc.push(Role(name));
    proof {
        assert(acc@[acc@.len() - 1].0@ == name@);
        assert forall|x: Seq<char>| #[trigger] role_names(acc@).contains(x) == role_names(before).insert(name@).contains(x) by {
            if role_names(before).contains(x) {
                let i = choose|i: int| 0 <= i < before.len() && #[trigger] before[i].0@ == x;
                assert(acc@[i] == before[i]);
            }
            if role_names(acc@).contains(x) {
                let i = choose|i: int| 0 <= i < acc@.len() && #[trigger] acc@[i].0@ == x;
                if i < before.len() {
                    assert(acc@[i] == before[i]);
                }
            }
        }
        assert(role_names(acc@) =~= role_names(before).insert(name@));
    }
}

proof fn lemma_roles_ops_push(s: Seq<GlobalOpModel>, x: GlobalOpModel)
    ensures
        roles_ops(s.push(x)) == roles_ops(s).union(roles_op(x)),
    decreases s.len(),
{
    if s.len() == 0 {
        assert(s.push(x).drop_first() =~= Seq::<GlobalOpModel>::empty());
        assert(s.push(x)[0] == x);
        assert(roles_ops(s.push(x)) == roles_op(x).union(roles_ops(s.push(x).drop_first())));
        assert(roles_ops(Seq::<GlobalOpModel>::empty()) == Set::<Seq<char>>::empty());
        assert(roles_ops(s.push(x)) =~= roles_ops(s).union(roles_op(x)));
    } else {
        lemma_roles_ops_push(s.drop_first(), x);
        assert(s.push(x).drop_first() =~= s.drop_first().push(x));
        assert(s.push(x)[0] == s[0]);
        assert(roles_ops(s.push(x)) == roles_op(s[0]).union(roles_ops(s.drop_first().push(x))));
        assert(roles_ops(s) == roles_op(s[0]).union(roles_ops(s.drop_first())));
        assert(roles_ops(s.push(x)) =~= roles_ops(s).union(roles_op(x)));
    }
}

proof fn lemma_roles_branches_push(s: Seq<Seq<GlobalOpModel>>, x: Seq<GlobalOpModel>)
    ensures
        roles_branches(s.push(x)) == roles_branches(s).union(roles_ops(x)),
    decreases s.len(),
{
    if s.len() == 0 {
        assert(s.push(x).drop_first() =~= Seq::<Seq<GlobalOpModel>>::empty());
        assert(s.push(x)[0] == x);
        assert(roles_branches(s.push(x)) == roles_ops(x).union(roles_branches(s.push(x).drop_first())));
        assert(roles_branches(Seq::<Seq<GlobalOpModel>>::empty()) == Set::<Seq<char>>::empty());
        assert(roles_branches(s.push(x)) =~= roles_branches(s).union(roles_ops(x)));
    } else {
        lemma_roles_branches_push(s.drop_first(), x);
        assert(s.push(x).drop_first() =~= s.drop_first().push(x));
        assert(s.push(x)[0] == s[0]);
        assert(roles_branches(s.push(x)) == roles_ops(s[0]).union(roles_branches(s.drop_first().push(x))));
        assert(roles_branches(s) == roles_ops(s[0]).union(roles_branches(s.drop_first())));
        assert(roles_branches(s.push(x)) =~= roles_branches(s).union(roles_ops(x)));
    }
}

fn collect_roles(ops: &Vec<GlobalOp>, acc: &mut Vec<Role>)
    requires
        roles_distinct(old(acc)@),
    ensures
        roles_distinct(final(acc)@),
        role_names(final(acc)@) == role_names(old(acc)@).union(roles_ops(gops_model(ops@))),
    decreases *ops, 0nat,
{
    proof {
        lemma_gops_model(ops@);
    }
    let ghost start = role_names(acc@);
    let ghost gm = gops_model(ops@);
    let mut k: usize = 0;
    proof {
        assert(gm.take(0) =~= Seq::<GlobalOpModel>::empty());
        assert(start.union(roles_ops(gm.take(0))) =~= start);
    }
    while k < ops.len()
        invariant
            k <= ops.len(),
            roles_distinct(acc@),
            gm == gops_model(ops@),
            gm.len() == ops.len(),
            forall|t: int| 0 <= t < ops.len() ==> #[trigger] gm[t] == gop_model(ops@[t]),
            role_names(acc@) == start.union(roles_ops(gm.take(k as int))),
        decreases ops.len() - k,
    {
        let ghost before = role_names(acc@);
        let ghost m = gm[k as int];
        match &ops[k] {
            GlobalOp::Message { from, to, .. } => {
                add_role(acc, *from);
                add_role(acc, *to);
                proof {
                    assert(roles_op(m) =~= set![from@, to@]);
                    assert(role_names(acc@) =~= before.union(roles_op(m)));
                }
            },
            GlobalOp::Choice { selector, branches } => {
                add_role(acc, *selector);
                collect_roles_branches(branches, acc);
                proof {
                    assert(roles_op(m) == set![selector@].union(roles_branches(gbranches_model(branches@))));
                    assert(role_names(acc@) =~= before.union(roles_op(m)));
                }
            },
            GlobalOp::Recurse { body, .. } => {
                collect_roles(&body.ops, acc);
            },
            _ => {
                proof {
                    assert(roles_op(m) =~= Set::<Seq<char>>::empty());
                    assert(role_names(acc@) =~= before.union(roles_op(m)));
                }
            },
        }
        proof {
            assert(role_names(acc@) == before.union(roles_op(m)));
            assert(gm.take(k as int + 1) =~= gm.take(k as int).push(m));
            lemma_roles_ops_push(gm.take(k as int), m);
            assert(role_names(acc@) =~= start.union(roles_ops(gm.take(k as int + 1))));
        }
        k = k + 1;
    }
    proof {
        assert(gm.take(ops.len() as int) =~= gm);
    }
}

fn collect_roles_branches(bs: &Vec<GlobalType>, acc: &mut Vec<Role>)
    requires
        roles_distinct(old(acc)@),
    ensures
        roles_distinct(final(acc)@),
        role_names(final(acc)@) == role_names(old(acc)@).union(roles_branches(gbranches_model(bs@))),
    decreases *bs, 1nat,
{
    proof {
        lemma_gbranches_model(bs@);
    }
    let ghost start = role_names(acc@);
    let ghost bm = gbranches_model(bs@);
    let mut k: usize = 0;
    proof {
        assert(bm.take(0) =~= Seq::<Seq<GlobalOpModel>>::empty());
        assert(start.union(roles_branches(bm.take(0))) =~= start);
    }
    while k < bs.len()
        invariant
            k <= bs.len(),
            roles_distinct(acc@),
            bm == gbranches_model(bs@),
            bm.len() == bs.len(),
            forall|t: int| 0 <= t < bs.len() ==> #[trigger] bm[t] == gops_model(bs@[t].ops@),
            role_names(acc@) == start.union(roles_branches(bm.take(k as int))),
        decreases bs.len() - k,
    {
        let ghost before = role_names(acc@);
        collect_roles(&bs[k].ops, acc);
        proof {
            let x = bm[k as int];
            assert(bm.take(k as int + 1) =~= bm.take(k as int).push(x));
            lemma_roles_branches_push(bm.take(k as int), x);
            assert(role_names(acc@) =~= start.union(roles_branches(bm.take(k as int + 1))));
        }
        k = k + 1;
    }
    proof {
        assert(bm.take(bs.len() as int) =~= bm);
    }
}

} // verus!

verus! {

// ── Copies and constructors of global and local types ───────────────────

fn clone_gop(op: &GlobalOp) -> (r: GlobalOp)
    ensures
        gop_model(r) == gop_model(*op),
    decreases *op,
{
    match op {
        GlobalOp::Message { from, to, label } => GlobalOp::Message { from: *from, to: *to, label: *label },
        GlobalOp::Choice { selector, branches } => GlobalOp::Choice {
            selector: *selector,
            branches: clone_gbranches(branches),
        },
        GlobalOp::Recurse { var, body } => {
            let b = clone_gops(&body.ops);
            GlobalOp::Recurse { var: *var, body: Box::new(GlobalType { ops: b }) }
        },
        GlobalOp::Var { var } => GlobalOp::Var { var: *var },
        GlobalOp::End => GlobalOp::End,
        GlobalOp::Skip => GlobalOp::Skip,
    }
}

fn clone_gops(v: &Vec<GlobalOp>) -> (r: Vec<GlobalOp>)
    ensures
        gops_model(r@) == gops_model(v@),
    decreases *v,
{
    let mut r: Vec<GlobalOp> = Vec::new();
    let mut k: usize = 0;
    while k < v.len()
        invariant
            k <= v.len(),
            r.len() == k,
            forall|t: int| 0 <= t < k ==> #[trigger] gop_model(r@[t]) == gop_model(v@[t]),
        decreases v.len() - k,
    {
        r.push(clone_gop(&v[k]));
        k = k + 1;
    }
    proof {
        lemma_gops_model(r@);
        lemma_gops_model(v@);
        assert(gops_model(r@) =~= gops_model(v@));
    }
    r
}

fn clone_gbranches(v: &Vec<GlobalType>) -> (r: Vec<GlobalType>)
    ensures
        gbranches_model(r@) == gbranches_model(v@),
    decreases *v,
{
    let mut r: Vec<GlobalType> = Vec::new();
    let mut k: usize = 0;
    while k < v.len()
        invariant
            k <= v.len(),
            r.len() == k,
            forall|t: int| 0 <= t < k ==> #[trigger] gops_model(r@[t].ops@) == gops_model(v@[t].ops@),
        decreases v.len() - k,
    {
        let item = GlobalType { ops: clone_gops(&v[k].ops) };
        let ghost prev = r@;
        r.push(item);
        proof {
            assert forall|t: int| 0 <= t < k + 1 implies #[trigger] gops_model(r@[t].ops@) == gops_model(v@[t].ops@) by {
                if t < k {
                    assert(r@[t] == prev[t]);
                }
            }
        }
        k = k + 1;
    }
    proof {
        lemma_gbranches_model(r@);
        lemma_gbranches_model(v@);
        assert(gbranches_model(r@) =~= gbranches_model(v@));
    }
    r
}

fn clone_lop(op: &LocalOp) -> (r: LocalOp)
    ensures
        lop_model(r) == lop_model(*op),
    decreases *op,
{
    match op {
        LocalOp::Send { to, label } => LocalOp::Send { to: *to, label: *label },
        LocalOp::Recv { from, label } => LocalOp::Recv { from: *from, label: *label },
        LocalOp::Select { branches } => LocalOp::Select { branches: clone_lbranches(branches) },
        LocalOp::Choose { branches } => LocalOp::Choose { branches: clone_lbranches(branches) },
        LocalOp::Recurse { var, body } => {
            let b = clone_lops(&body.ops);
            LocalOp::Recurse { var: *var, body: Box::new(LocalType { ops: b }) }
        },
        LocalOp::Var { var } => LocalOp::Var { var: *var },
        LocalOp::End => LocalOp::End,
        LocalOp::Skip => LocalOp::Skip,
    }
}

fn clone_lops(v: &Vec<LocalOp>) -> (r: Vec<LocalOp>)
    ensures
        lops_model(r@) == lops_model(v@),
    decreases *v,
{
    let mut r: Vec<LocalOp> = Vec::new();
    let mut k: usize = 0;
    while k < v.len()
        invariant
            k <= v.len(),
            r.len() == k,
            forall|t: int| 0 <= t < k ==> #[trigger] lop_model(r@[t]) == lop_model(v@[t]),
        decreases v.len() - k,
    {
        r.push(clone_lop(&v[k]));
        k = k + 1;
    }
    proof {
        lemma_lops_model(r@);
        lemma_lops_model(v@);
        assert(lops_model(r@) =~= lops_model(v@));
    }
    r
}

fn clone_lbranches(v: &Vec<LocalType>) -> (r: Vec<LocalType>)
    ensures
        lbranches_model(r@) == lbranches_model(v@),
    decreases *v,
{
    let mut r: Vec<LocalType> = Vec::new();
    let mut k: usize = 0;
    while k < v.len()
        invariant
            k <= v.len(),
            r.len() == k,
            forall|t: int| 0 <= t < k ==> #[trigger] lops_model(r@[t].ops@) == lops_model(v@[t].ops@),
        decreases v.len() - k,
    {
        let item = LocalType { ops: clone_lops(&v[k].ops) };
        assert(lops_model(item.ops@) == lops_model(v@[k as int].ops@));
        let ghost prev = r@;
        r.push(item);
        proof {
            assert(r@[k as int] == item);
            assert forall|t: int| 0 <= t < k + 1 implies #[trigger] lops_model(r@[t].ops@) == lops_model(v@[t].ops@) by {
                if t < k {
                    assert(r@[t] == prev[t]);
                    assert(lops_model(prev[t].ops@) == lops_model(v@[t].ops@));
                } else {
                    assert(r@[t] == item);
                }
            }
        }
        k = k + 1;
    }
    proof {
        lemma_lbranches_model(r@);
        lemma_lbranches_model(v@);
        assert(lbranches_model(r@) =~= lbranches_model(v@));
    }
    r
}

impl Clone for GlobalOp {
    /// A deep copy: the copy has the same model.
    fn clone(&self) -> (r: Self)
        ensures
            r.deep_view() == self.deep_view(),
    {
        clone_gop(self)
    }
}

impl Clone for GlobalType {
    /// A deep copy: the copy has the same model.
    fn clone(&self) -> (r: Self)
        ensures
            r.deep_view() == self.deep_view(),
    {
        GlobalType { ops: clone_gops(&self.ops) }
    }
}

impl Clone for LocalOp {
    /// A deep copy: the copy has the same model.
    fn clone(&self) -> (r: Self)
        ensures
            r.deep_view() == self.deep_view(),
    {
        clone_lop(self)
    }
}

impl Clone for LocalType {
    /// A deep copy: the copy has the same model.
    fn clone(&self) -> (r: Self)
        ensures
            r.deep_view() == self.deep_view(),
    {
        LocalType { ops: clone_lops(&self.ops) }
    }
}

proof fn lemma_gops_model_concat(s1: Seq<GlobalOp>, s2: Seq<GlobalOp>)
    ensures
        gops_model(s1 + s2) == gops_model(s1) + gops_model(s2),
{
    lemma_gops_model(s1);
    lemma_gops_model(s2);
    lemma_gops_model(s1 + s2);
    assert(gops_model(s1 + s2) =~= gops_model(s1) + gops_model(s2));
}

impl GlobalType {
    /// A global type made of a copy of the given operations, in order.
    pub fn sequence(ops: &[GlobalOp]) -> (r: Self)
        ensures
            r.deep_view() == gops_model(ops@),
    {
        let mut v: Vec<GlobalOp> = Vec::new();
        let mut k: usize = 0;
        while k < ops.len()
            invariant
                k <= ops.len(),
                v.len() == k,
                forall|t: int| 0 <= t < k ==> #[trigger] gop_model(v@[t]) == gop_model(ops@[t]),
            decreases ops.len() - k,
        {
            v.push(clone_gop(&ops[k]));
            k = k + 1;
        }
        proof {
            lemma_gops_model(v@);
            lemma_gops_model(ops@);
            assert(gops_model(v@) =~= gops_model(ops@));
        }
        GlobalType { ops: v }
    }

    /// The empty global type.
    pub fn empty() -> (r: Self)
        ensures
            r.deep_view() == Seq::<GlobalOpModel>::empty(),
    {
        GlobalType { ops: Vec::new() }
    }

    /// The `end` global type.
    pub fn end() -> (r: Self)
        ensures
            r.deep_view() == seq![GlobalOpModel::End],
    {
        let mut v: Vec<GlobalOp> = Vec::new();
        v.push(GlobalOp::End);
        proof {
            lemma_gops_model(v@);
            assert(gops_model(v@) =~= seq![GlobalOpModel::End]);
        }
        GlobalType { ops: v }
    }

    /// This global type followed by `other`.
    pub fn then(self, other: GlobalType) -> (r: Self)
        ensures
            r.deep_view() == self.deep_view() + other.deep_view(),
    {
        let mut ops = self.ops;
        let mut rest = other.ops;
        proof {
            lemma_gops_model_concat(ops@, rest@);
        }
        ops.append(&mut rest);
        GlobalType { ops }
    }

    /// This global type followed by one more operation.
    pub fn push(self, op: GlobalOp) -> (r: Self)
        ensures
            r.deep_view() == self.deep_view().push(op.deep_view()),
    {
        let mut ops = self.ops;
        proof {
            lemma_gops_model_concat(ops@, seq![op]);
            lemma_gops_model(seq![op]);
            assert(gops_model(seq![op]) =~= seq![op.deep_view()]);
            assert(ops@.push(op) =~= ops@ + seq![op]);
        }
        ops.push(op);
        GlobalType { ops }
    }

    /// All operations, in order.
    pub fn ops(&self) -> (r: &[GlobalOp])
        ensures
            gops_model(r@) == self.deep_view(),
    {
        self.ops.as_slice()
    }

    /// Every role that takes part in this global type, each once: senders,
    /// receivers and selectors, at any depth.
    pub fn roles(&self) -> (r: Vec<Role>)
        ensures
            roles_distinct(r@),
            role_names(r@) == roles_ops(self.deep_view()),
    {
        let mut acc: Vec<Role> = Vec::new();
        proof {
            assert(role_names(acc@) =~= Set::<Seq<char>>::empty());
        }
        collect_roles(&self.ops, &mut acc);
        proof {
            assert(role_names(acc@) =~= roles_ops(self.deep_view()));
        }
        acc
    }
}

// ── Local to binary ──────────────────────────────────────────────────────

/// The binary form of a local op: `Send`/`Recv` keep their label and drop the
/// peer, the rest maps to the binary operation of the same kind.
pub open spec fn lop_to_binary(op: LocalOpModel) -> SessionOpModel
    decreases op,
{
    match op {
        LocalOpModel::Send(_to, label) => SessionOpModel::Send(label),
        LocalOpModel::Recv(_from, label) => SessionOpModel::Recv(label),
        LocalOpModel::Select(bs) => SessionOpModel::Select(lbranches_to_binary(bs)),
        LocalOpModel::Choose(bs) => SessionOpModel::Choose(lbranches_to_binary(bs)),
        LocalOpModel::Recurse(var, body) => SessionOpModel::Recurse(var, lops_to_binary(body)),
        LocalOpModel::Var(var) => SessionOpModel::Var(var),
        LocalOpModel::End => SessionOpModel::End,
        LocalOpModel::Skip => SessionOpModel::Skip,
    }
}

/// The binary form of a local op sequence, op by op.
pub open spec fn lops_to_binary(s: Seq<LocalOpModel>) -> Seq<SessionOpModel>
    decreases s,
{
    if s.len() == 0 {
        Seq::empty()
    } else {
        seq![lop_to_binary(s[0])] + lops_to_binary(s.drop_first())
    }
}

/// The binary forms of a list of branches, branch by branch.
pub open spec fn lbranches_to_binary(bs: Seq<Seq<LocalOpModel>>) -> Seq<Seq<SessionOpModel>>
    decreases bs,
{
    if bs.len() == 0 {
        Seq::empty()
    } else {
        seq![lops_to_binary(bs[0])] + lbranches_to_binary(bs.drop_first())
    }
}

proof fn lemma_lops_to_binary(s: Seq<LocalOpModel>)
    ensures
        lops_to_binary(s).len() == s.len(),
        forall|i: int| 0 <= i < s.len() ==> #[trigger] lops_to_binary(s)[i] == lop_to_binary(s[i]),
    decreases s.len(),
{
    if s.len() > 0 {
        lemma_lops_to_binary(s.drop_first());
        assert forall|i: int| 0 <= i < s.len() implies #[trigger] lops_to_binary(s)[i] == lop_to_binary(s[i]) by {
            if i > 0 {
                assert(lops_to_binary(s)[i] == lops_to_binary(s.drop_first())[i - 1]);
            }
        }
    }
}

proof fn lemma_lbranches_to_binary(bs: Seq<Seq<LocalOpModel>>)
    ensures
        lbranches_to_binary(bs).len() == bs.len(),
        forall|i: int| 0 <= i < bs.len() ==> #[trigger] lbranches_to_binary(bs)[i] == lops_to_binary(bs[i]),
    decreases bs.len(),
{
    if bs.len() > 0 {
        lemma_lbranches_to_binary(bs.drop_first());
        assert forall|i: int| 0 <= i < bs.len() implies #[trigger] lbranches_to_binary(bs)[i] == lops_to_binary(bs[i]) by {
            if i > 0 {
                assert(lbranches_to_binary(bs)[i] == lbranches_to_binary(bs.drop_first())[i - 1]);
            }
        }
    }
}

fn lops_binary_vec(v: &Vec<LocalOp>) -> (r: Vec<SessionOp>)
    ensures
        ops_model(r@) == lops_to_binary(lops_model(v@)),
    decreases *v, 0nat,
{
    proof {
        lemma_lops_model(v@);
        lemma_lops_to_binary(lops_model(v@));
    }
    let mut r: Vec<SessionOp> = Vec::new();
    let mut k: usize = 0;
    while k < v.len()
        invariant
            k <= v.len(),
            r.len() == k,
            lops_model(v@).len() == v.len(),
            forall|t: int| 0 <= t < v.len() ==> #[trigger] lops_model(v@)[t] == lop_model(v@[t]),
            forall|t: int| 0 <= t < k ==> #[trigger] op_model(r@[t]) == lop_to_binary(lop_model(v@[t])),
        decreases v.len() - k,
    {
        let op = match &v[k] {
            LocalOp::Send { label, .. } => SessionOp::Send { ty: *label },
            LocalOp::Recv { label, .. } => SessionOp::Recv { ty: *label },
            LocalOp::Select { branches } => SessionOp::Select { branches: lbranches_binary_vec(branches) },
            LocalOp::Choose { branches } => SessionOp::Choose { branches: lbranches_binary_vec(branches) },
            LocalOp::Recurse { var, body } => {
                let b = lops_binary_vec(&body.ops);
                SessionOp::Recurse { var: *var, body: Box::new(SessionType { ops: b }) }
            },
            LocalOp::Var { var } => SessionOp::Var { var: *var },
            LocalOp::End => SessionOp::End,
            LocalOp::Skip => SessionOp::Skip,
        };
        r.push(op);
        k = k + 1;
    }
    proof {
        lemma_ops_model(r@);
        assert(ops_model(r@) =~= lops_to_binary(lops_model(v@)));
    }
    r
}

fn lbranches_binary_vec(v: &Vec<LocalType>) -> (r: Vec<SessionType>)
    ensures
        branches_model(r@) == lbranches_to_binary(lbranches_model(v@)),
    decreases *v, 1nat,
{
    proof {
        lemma_lbranches_model(v@);
        lemma_lbranches_to_binary(lbranches_model(v@));
    }
    let mut r: Vec<SessionType> = Vec::new();
    let mut k: usize = 0;
    while k < v.len()
        invariant
            k <= v.len(),
            r.len() == k,
            lbranches_model(v@).len() == v.len(),
            forall|t: int| 0 <= t < v.len() ==> #[trigger] lbranches_model(v@)[t] == lops_model(v@[t].ops@),
            forall|t: int| 0 <= t < k ==> #[trigger] ops_model(r@[t].ops@) == lops_to_binary(lops_model(v@[t].ops@)),
        decreases v.len() - k,
    {
        let item = SessionType { ops: lops_binary_vec(&v[k].ops) };
        let ghost prev = r@;
        r.push(item);
        proof {
            assert forall|t: int| 0 <= t < k + 1 implies #[trigger] ops_model(r@[t].ops@) == lops_to_binary(lops_model(v@[t].ops@)) by {
                if t < k {
                    assert(r@[t] == prev[t]);
                    assert(ops_model(prev[t].ops@) == lops_to_binary(lops_model(v@[t].ops@)));
                } else {
                    assert(r@[t] == item);
                }
            }
        }
        k = k + 1;
    }
    proof {
        lemma_branches_model(r@);
        assert(branches_model(r@) =~= lbranches_to_binary(lbranches_model(v@)));
    }
    r
}

impl LocalType {
    /// A local type made of a copy of the given operations, in order.
    pub fn sequence(ops: &[LocalOp]) -> (r: Self)
        ensures
            r.deep_view() == lops_model(ops@),
    {
        let mut v: Vec<LocalOp> = Vec::new();
        let mut k: usize = 0;
        while k < ops.len()
            invariant
                k <= ops.len(),
                v.len() == k,
                forall|t: int| 0 <= t < k ==> #[trigger] lop_model(v@[t]) == lop_model(ops@[t]),
            decreases ops.len() - k,
        {
            v.push(clone_lop(&ops[k]));
            k = k + 1;
        }
        proof {
            lemma_lops_model(v@);
            lemma_lops_model(ops@);
            assert(lops_model(v@) =~= lops_model(ops@));
        }
        LocalType { ops: v }
    }

    /// The empty local type.
    pub fn empty() -> (r: Self)
        ensures
            r.deep_view() == Seq::<LocalOpModel>::empty(),
    {
        LocalType { ops: Vec::new() }
    }

    /// The `end` local type.
    pub fn end() -> (r: Self)
        ensures
            r.deep_view() == seq![LocalOpModel::End],
    {
        let mut v: Vec<LocalOp> = Vec::new();
        v.push(LocalOp::End);
        proof {
            lemma_lops_model(v@);
            assert(lops_model(v@) =~= seq![LocalOpModel::End]);
        }
        LocalType { ops: v }
    }

    /// All operations, in order.
    pub fn ops(&self) -> (r: &[LocalOp])
        ensures
            lops_model(r@) == self.deep_view(),
    {
        self.ops.as_slice()
    }

    /// Whether this local type holds no operation.
    pub fn is_empty(&self) -> (r: bool)
        ensures
            r == (self.deep_view().len() == 0),
    {
        proof {
            lemma_lops_model(self.ops@);
        }
        self.ops.len() == 0
    }

    /// The binary session type of this local type: the peer roles are
    /// dropped, everything else is kept op by op.
    pub fn to_binary(&self) -> (r: SessionType)
        ensures
            r.deep_view() == lops_to_binary(self.deep_view()),
    {
        SessionType { ops: lops_binary_vec(&self.ops) }
    }
}

impl vstd::std_specs::convert::FromSpecImpl<LocalType> for SessionType {
    open spec fn obeys_from_spec() -> bool {
        false
    }

    open spec fn from_spec(v: LocalType) -> SessionType {
        choose|s: SessionType| s.deep_view() == lops_to_binary(v.deep_view())
    }
}

impl From<LocalType> for SessionType {
    /// The binary form of a local type (see [`LocalType::to_binary`]).
    fn from(local: LocalType) -> (r: SessionType)
        ensures
            r.deep_view() == lops_to_binary(local.deep_view()),
    {
        local.to_binary()
    }
}

} // verus!

verus! {

// ── Consistency (implementation) ────────────────────────────────────────

/// Whether a local op equals the `Send`/`Recv` target.
fn lop_is_target(op: &LocalOp, target: &LocalOp) -> (r: bool)
    requires
        target is Send || target is Recv,
    ensures
        r == (lop_model(*op) == lop_model(*target)),
{
    match (op, target) {
        (LocalOp::Send { to: a, label: b }, LocalOp::Send { to: c, label: d }) => str_eq(a, c) && str_eq(b, d),
        (LocalOp::Recv { from: a, label: b }, LocalOp::Recv { from: c, label: d }) => str_eq(a, c) && str_eq(b, d),
        _ => false,
    }
}

fn local_has_vec(ops: &Vec<LocalOp>, target: &LocalOp) -> (r: bool)
    requires
        target is Send || target is Recv,
    ensures
        r == lhas_ops(lops_model(ops@), lop_model(*target)),
    decreases *ops, 0nat,
{
    let ghost t = lop_model(*target);
    proof {
        lemma_lops_model(ops@);
        lemma_lhas_ops(lops_model(ops@), t);
    }
    let mut k: usize = 0;
    while k < ops.len()
        invariant
            k <= ops.len(),
            target is Send || target is Recv,
            t == lop_model(*target),
            lops_model(ops@).len() == ops.len(),
            forall|i: int| 0 <= i < ops.len() ==> #[trigger] lops_model(ops@)[i] == lop_model(ops@[i]),
            forall|i: int| 0 <= i < k ==> !#[trigger] lhas_op(lops_model(ops@)[i], t),
            lhas_ops(lops_model(ops@), t) <==> exists|i: int| 0 <= i < ops.len() && #[trigger] lhas_op(lops_model(ops@)[i], t),
        decreases ops.len() - k,
    {
        let op = &ops[k];
        let hit = if lop_is_target(op, target) {
            true
        } else {
            match op {
                LocalOp::Select { branches } => local_has_branches(branches, target),
                LocalOp::Choose { branches } => local_has_branches(branches, target),
                LocalOp::Recurse { body, .. } => local_has_vec(&body.ops, target),
                _ => false,
            }
        };
        assert(hit == lhas_op(lops_model(ops@)[k as int], t));
        if hit {
            return true;
        }
        k = k + 1;
    }
    false
}

fn local_has_branches(bs: &Vec<LocalType>, target: &LocalOp) -> (r: bool)
    requires
        target is Send || target is Recv,
    ensures
        r == lhas_branches(lbranches_model(bs@), lop_model(*target)),
    decreases *bs, 1nat,
{
    let ghost t = lop_model(*target);
    proof {
        lemma_lbranches_model(bs@);
        lemma_lhas_branches(lbranches_model(bs@), t);
    }
    let mut k: usize = 0;
    while k < bs.len()
        invariant
            k <= bs.len(),
            target is Send || target is Recv,
            t == lop_model(*target),
            lbranches_model(bs@).len() == bs.len(),
            forall|i: int| 0 <= i < bs.len() ==> #[trigger] lbranches_model(bs@)[i] == lops_model(bs@[i].ops@),
            forall|i: int| 0 <= i < k ==> !#[trigger] lhas_ops(lbranches_model(bs@)[i], t),
            lhas_branches(lbranches_model(bs@), t) <==> exists|i: int| 0 <= i < bs.len() && #[trigger] lhas_ops(lbranches_model(bs@)[i], t),
        decreases bs.len() - k,
    {
        let hit = local_has_vec(&bs[k].ops, target);
        assert(hit == lhas_ops(lbranches_model(bs@)[k as int], t));
        if hit {
            return true;
        }
        k = k + 1;
    }
    false
}

/// The index of the first projection that belongs to `name`.
fn find_proj(projs: &Vec<(Role, LocalType)>, name: &str) -> (r: Option<usize>)
    ensures
        match r {
            Some(i) => i < projs.len() && projs@[i as int].0.0@ == name@,
            None => forall|i: int| 0 <= i < projs.len() ==> #[trigger] projs@[i].0.0@ != name@,
        },
{
    let mut k: usize = 0;
    while k < projs.len()
        invariant
            k <= projs.len(),
            forall|i: int| 0 <= i < k ==> #[trigger] projs@[i].0.0@ != name@,
        decreases projs.len() - k,
    {
        if str_eq(projs[k].0.0, name) {
            return Some(k);
        }
        k = k + 1;
    }
    None
}

/// The projections are those of `g`, one per role, and cover `names`.
spec fn projs_ok(projs: Seq<(Role, LocalType)>, g: Seq<GlobalOpModel>, names: Set<Seq<char>>) -> bool {
    &&& forall|i: int| 0 <= i < projs.len() ==> #[trigger] projs[i].1.deep_view() == project_ops(g, projs[i].0.0@)
    &&& forall|x: Seq<char>| #[trigger] names.contains(x) ==> exists|i: int| 0 <= i < projs.len() && #[trigger] projs[i].0.0@ == x
}

proof fn lemma_projs_ok_subset(projs: Seq<(Role, LocalType)>, g: Seq<GlobalOpModel>, a: Set<Seq<char>>, b: Set<Seq<char>>)
    requires
        projs_ok(projs, g, a),
        b.subset_of(a),
    ensures
        projs_ok(projs, g, b),
{
    assert forall|x: Seq<char>| #[trigger] b.contains(x) implies exists|i: int| 0 <= i < projs.len() && #[trigger] projs[i].0.0@ == x by {
        assert(a.contains(x));
    }
}

fn check_msgs(ops: &Vec<GlobalOp>, projs: &Vec<(Role, LocalType)>, Ghost(g): Ghost<Seq<GlobalOpModel>>) -> (r: bool)
    requires
        projs_ok(projs@, g, roles_ops(gops_model(ops@))),
    ensures
        r == msgs_ok_ops(gops_model(ops@), g),
    decreases *ops, 0nat,
{
    let ghost gm = gops_model(ops@);
    proof {
        lemma_gops_model(ops@);
        lemma_roles_ops(gm);
        lemma_msgs_ok_ops(gm, g);
    }
    let mut k: usize = 0;
    while k < ops.len()
        invariant
            k <= ops.len(),
            gm == gops_model(ops@),
            gm.len() == ops.len(),
            forall|i: int| 0 <= i < ops.len() ==> #[trigger] gm[i] == gop_model(ops@[i]),
            forall|i: int| 0 <= i < ops.len() ==> #[trigger] roles_op(gm[i]).subset_of(roles_ops(gm)),
            projs_ok(projs@, g, roles_ops(gm)),
            forall|i: int| 0 <= i < k ==> #[trigger] msgs_ok_op(gm[i], g),
            msgs_ok_ops(gm, g) <==> forall|i: int| 0 <= i < ops.len() ==> #[trigger] msgs_ok_op(gm[i], g),
        decreases ops.len() - k,
    {
        let ghost m = gm[k as int];
        proof {
            assert(roles_op(m).subset_of(roles_ops(gm)));
        }
        let ok = match &ops[k] {
            GlobalOp::Message { from, to, label } => {
                proof {
                    assert(roles_op(m).contains(from@));
                    assert(roles_op(m).contains(to@));
                    assert(roles_ops(gm).contains(from@));
                    assert(roles_ops(gm).contains(to@));
                }
                let si = find_proj(projs, from);
                let ri = find_proj(projs, to);
                proof {
                    if let Some(i) = si {
                        assert(projs@[i as int].1.deep_view() == project_ops(g, from@));
                    }
                    if let Some(i) = ri {
                        assert(projs@[i as int].1.deep_view() == project_ops(g, to@));
                    }
                }
                match (si, ri) {
                    (Some(si), Some(ri)) => {
                        let send = LocalOp::Send { to: *to, label: *label };
                        let recv = LocalOp::Recv { from: *from, label: *label };
                        local_has_vec(&projs[si].1.ops, &send) && local_has_vec(&projs[ri].1.ops, &recv)
                    },
                    _ => false,
                }
            },
            GlobalOp::Choice { branches, .. } => {
                proof {
                    lemma_gbranches_model(branches@);
                    lemma_roles_branches(gbranches_model(branches@));
                    assert(roles_branches(gbranches_model(branches@)).subset_of(roles_op(m)));
                    lemma_projs_ok_subset(projs@, g, roles_ops(gm), roles_branches(gbranches_model(branches@)));
                }
                check_branches(branches, projs, Ghost(g))
            },
            GlobalOp::Recurse { body, .. } => {
                proof {
                    lemma_projs_ok_subset(projs@, g, roles_ops(gm), roles_ops(gops_model(body.ops@)));
                }
                check_msgs(&body.ops, projs, Ghost(g))
            },
            _ => true,
        };
        assert(ok == msgs_ok_op(m, g));
        if !ok {
            return false;
        }
        k = k + 1;
    }
    true
}

fn check_branches(bs: &Vec<GlobalType>, projs: &Vec<(Role, LocalType)>, Ghost(g): Ghost<Seq<GlobalOpModel>>) -> (r: bool)
    requires
        projs_ok(projs@, g, roles_branches(gbranches_model(bs@))),
    ensures
        r == msgs_ok_branches(gbranches_model(bs@), g),
    decreases *bs, 1nat,
{
    let ghost bm = gbranches_model(bs@);
    proof {
        lemma_gbranches_model(bs@);
        lemma_roles_branches(bm);
        lemma_msgs_ok_branches(bm, g);
    }
    let mut k: usize = 0;
    while k < bs.len()
        invariant
            k <= bs.len(),
            bm == gbranches_model(bs@),
            bm.len() == bs.len(),
            forall|i: int| 0 <= i < bs.len() ==> #[trigger] bm[i] == gops_model(bs@[i].ops@),
            forall|i: int| 0 <= i < bs.len() ==> #[trigger] roles_ops(bm[i]).subset_of(roles_branches(bm)),
            projs_ok(projs@, g, roles_branches(bm)),
            forall|i: int| 0 <= i < k ==> #[trigger] msgs_ok_ops(bm[i], g),
            msgs_ok_branches(bm, g) <==> forall|i: int| 0 <= i < bs.len() ==> #[trigger] msgs_ok_ops(bm[i], g),
        decreases bs.len() - k,
    {
        proof {
            assert(roles_ops(bm[k as int]).subset_of(roles_branches(bm)));
            lemma_projs_ok_subset(projs@, g, roles_branches(bm), roles_ops(bm[k as int]));
        }
        let ok = check_msgs(&bs[k].ops, projs, Ghost(g));
        assert(ok == msgs_ok_ops(bm[k as int], g));
        if !ok {
            return false;
        }
        k = k + 1;
    }
    true
}

/// Whether a global type is consistent: every message (at any depth) has a
/// matching `Send` in its sender's projection and a matching `Recv` in its
/// receiver's projection. Each role is projected once.
pub fn is_consistent(global: &GlobalType) -> (r: bool)
    ensures
        r == global_consistent(global.deep_view()),
{
    let roles = global.roles();
    let ghost g = global.deep_view();
    let mut projections: Vec<(Role, LocalType)> = Vec::new();
    let mut k: usize = 0;
    while k < roles.len()
        invariant
            k <= roles.len(),
            projections.len() == k,
            g == global.deep_view(),
            forall|i: int| 0 <= i < k ==> #[trigger] projections@[i].0 == roles@[i],
            forall|i: int| 0 <= i < k ==> #[trigger] projections@[i].1.deep_view() == project_ops(g, projections@[i].0.0@),
        decreases roles.len() - k,
    {
        let role = roles[k];
        let lt = project(global, role.0);
        projections.push((role, lt));
        k = k + 1;
    }
    proof {
        assert forall|x: Seq<char>| #[trigger] roles_ops(g).contains(x) implies exists|i: int|
            0 <= i < projections@.len() && #[trigger] projections@[i].0.0@ == x by {
            assert(role_names(roles@).contains(x));
            let i = choose|i: int| 0 <= i < roles@.len() && #[trigger] roles@[i].0@ == x;
            assert(projections@[i].0 == roles@[i]);
        }
    }
    check_msgs(&global.ops, &projections, Ghost(g))
}

} // verus!

verus! {

/// Projection keeps the shape of a global type: one local op per global op.
pub proof fn lemma_project_preserves_length(global: GlobalType, role: Seq<char>)
    ensures
        project_ops(global.deep_view(), role).len() == global.deep_view().len(),
{
    lemma_project_ops(global.deep_view(), role);
}

/// A port type that carries a compile-time binary session protocol.
pub trait SessionProtocol: Sized {
    /// The protocol this type declares.
    spec fn protocol_spec() -> SessionType;

    /// The session type descriptor for this port.
    fn protocol() -> (p: SessionType)
        ensures
            p.deep_view() == Self::protocol_spec().deep_view(),
    ;
}

/// Whether `A`'s protocol is dual to `B`'s: two ports can be linked iff
/// their protocols are dual.
pub fn is_dual_to<A: SessionProtocol, B: SessionProtocol>() -> (r: bool)
    ensures
        r == session_dual(A::protocol_spec(), B::protocol_spec()),
{
    let a = A::protocol();
    let b = B::protocol();
    is_dual(&a, &b)
}

/// Errors of session type validation.
#[derive(Debug)]
pub enum SessionError {
    /// The operation violated the protocol.
    ProtocolViolation { expected: &'static str, actual: &'static str },
    /// The session is in the error state and cannot advance.
    SessionInError,
    /// The session has already completed.
    SessionComplete,
    /// Two binary session types are not dual.
    NotDual { a: SessionType, b: SessionType },
    /// A global type is inconsistent.
    InconsistentGlobal { message: String },
    /// A role was not found in the global type.
    UnknownRole { role: &'static str },
}

/// The `Debug` text of a session type whose operations have the models `m`:
/// `SessionType { ops: [..] }`, the operations in order, separated by commas.
pub open spec fn type_text(m: Seq<SessionOpModel>) -> Seq<char>
    decreases m, 2int,
{
    "SessionType { ops: ["@ + op_list_text(m) + "] }"@
}

/// The `Debug` texts of the operations `m`, separated by `, `.
pub open spec fn op_list_text(m: Seq<SessionOpModel>) -> Seq<char>
    decreases m, 1int,
{
    if m.len() == 0 {
        Seq::empty()
    } else if m.len() == 1 {
        op_text(m[0])
    } else {
        op_list_text(m.drop_last()) + ", "@ + op_text(m[m.len() - 1])
    }
}

/// The `Debug` text of one operation, such as `Send { ty: "i32" }` or `End`.
pub open spec fn op_text(op: SessionOpModel) -> Seq<char>
    decreases op, 0int,
{
    match op {
        SessionOpModel::Send(t) => "Send { ty: "@ + str_debug(t) + " }"@,
        SessionOpModel::Recv(t) => "Recv { ty: "@ + str_debug(t) + " }"@,
        SessionOpModel::Select(bs) => "Select { branches: ["@ + branch_list_text(bs) + "] }"@,
        SessionOpModel::Choose(bs) => "Choose { branches: ["@ + branch_list_text(bs) + "] }"@,
        SessionOpModel::Recurse(v, b) => "Recurse { var: "@ + str_debug(v) + ", body: "@ + type_text(b) + " }"@,
        SessionOpModel::Var(v) => "Var { var: "@ + str_debug(v) + " }"@,
        SessionOpModel::End => "End"@,
        SessionOpModel::Skip => "Skip"@,
    }
}

/// The `Debug` texts of the branches `bs`, separated by `, `.
pub open spec fn branch_list_text(bs: Seq<Seq<SessionOpModel>>) -> Seq<char>
    decreases bs, 0int,
{
    if bs.len() == 0 {
        Seq::empty()
    } else if bs.len() == 1 {
        type_text(bs[0])
    } else {
        branch_list_text(bs.drop_last()) + ", "@ + type_text(bs[bs.len() - 1])
    }
}

/// The `Debug` text of a session type.
fn type_debug(s: &SessionType) -> (t: String)
    ensures
        t@ == type_text(s.deep_view()),
    decreases *s,
{
    let ops = &s.ops;
    let ghost m = s.deep_view();
    proof {
        lemma_ops_model(ops@);
        reveal_strlit("");
        assert(m.take(0) =~= Seq::<SessionOpModel>::empty());
    }
    let mut body = String::from_str("");
    let mut i: usize = 0;
    while i < ops.len()
        invariant
            ops == &s.ops,
            m == s.deep_view(),
            i <= ops.len(),
            m.len() == ops.len(),
            forall|k: int| 0 <= k < ops.len() ==> #[trigger] m[k] == op_model(ops@[k]),
            body@ == op_list_text(m.take(i as int)),
        decreases ops.len() - i,
    {
        let x = op_debug(&ops[i]);
        proof {
            assert(m.take(i + 1).drop_last() =~= m.take(i as int));
            assert(m.take(i + 1)[i as int] == m[i as int]);
            if i == 0 {
                assert(m.take(0) =~= Seq::<SessionOpModel>::empty());
            }
        }
        if i == 0 {
            body = x;
        } else {
            body.append(", ");
            body.append(x.as_str());
        }
        i = i + 1;
    }
    proof {
        assert(m.take(ops.len() as int) =~= m);
    }
    let mut t = String::from_str("SessionType { ops: [");
    t.append(body.as_str());
    t.append("] }");
    t
}

/// The `Debug` text of one operation.
fn op_debug(op: &SessionOp) -> (t: String)
    ensures
        t@ == op_text(op_model(*op)),
    decreases *op,
{
    match op {
        SessionOp::Send { ty } => {
            let mut t = String::from_str("Send { ty: ");
            let d = debug_str(ty);
            t.append(d.as_str());
            t.append(" }");
            t
        },
        SessionOp::Recv { ty } => {
            let mut t = String::from_str("Recv { ty: ");
            let d = debug_str(ty);
            t.append(d.as_str());
            t.append(" }");
            t
        },
        SessionOp::Select { branches } => {
            let mut t = String::from_str("Select { branches: [");
            let d = branches_debug(branches);
            t.append(d.as_str());
            t.append("] }");
            t
        },
        SessionOp::Choose { branches } => {
            let mut t = String::from_str("Choose { branches: [");
            let d = branches_debug(branches);
            t.append(d.as_str());
            t.append("] }");
            t
        },
        SessionOp::Recurse { var, body } => {
            let mut t = String::from_str("Recurse { var: ");
            let v = debug_str(var);
            let b = type_debug(body);
            t.append(v.as_str());
            t.append(", body: ");
            t.append(b.as_str());
            t.append(" }");
            t
        },
        SessionOp::Var { var } => {
            let mut t = String::from_str("Var { var: ");
            let v = debug_str(var);
            t.append(v.as_str());
            t.append(" }");
            t
        },
        SessionOp::End => String::from_str("End"),
        SessionOp::Skip => String::from_str("Skip"),
    }
}

/// The `Debug` texts of a list of branches, separated by `, `.
fn branches_debug(bs: &Vec<SessionType>) -> (t: String)
    ensures
        t@ == branch_list_text(branches_model(bs@)),
    decreases *bs,
{
    let ghost m = branches_model(bs@);
    proof {
        lemma_branches_model(bs@);
        reveal_strlit("");
        assert(m.take(0) =~= Seq::<Seq<SessionOpModel>>::empty());
    }
    let mut body = String::from_str("");
    let mut k: usize = 0;
    while k < bs.len()
        invariant
            m == branches_model(bs@),
            k <= bs.len(),
            m.len() == bs.len(),
            forall|j: int| 0 <= j < bs.len() ==> #[trigger] m[j] == ops_model(bs@[j]@),
            body@ == branch_list_text(m.take(k as int)),
        decreases bs.len() - k,
    {
        let x = type_debug(&bs[k]);
        proof {
            assert(m[k as int] == bs@[k as int].deep_view());
            assert(m.take(k + 1).drop_last() =~= m.take(k as int));
            assert(m.take(k + 1)[k as int] == m[k as int]);
            if k == 0 {
                assert(m.take(0) =~= Seq::<Seq<SessionOpModel>>::empty());
            }
        }
        if k == 0 {
            body = x;
        } else {
            body.append(", ");
            body.append(x.as_str());
        }
        k = k + 1;
    }
    proof {
        assert(m.take(bs.len() as int) =~= m);
    }
    body
}

impl SessionError {
    /// The human-readable description of this error.
    pub fn message(&self) -> (m: String)
        ensures
            match self {
                SessionError::ProtocolViolation { expected, actual } =>
                    m@ == "protocol violation: expected "@ + expected@ + ", got "@ + actual@,
                SessionError::SessionInError => m@ == "session is in error state"@,
                SessionError::SessionComplete => m@ == "session has already completed"@,
                SessionError::NotDual { a, b } => m@ == "session types are not dual: "@ + type_text(a.deep_view()) + " vs "@
                    + type_text(b.deep_view()),
                SessionError::InconsistentGlobal { message } => m@ == "inconsistent global type: "@ + message@,
                SessionError::UnknownRole { role } => m@ == "unknown role: "@ + role@,
            },
    {
        match self {
            SessionError::ProtocolViolation { expected, actual } => {
                let m = String::from_str("protocol violation: expected ");
                let m = m.concat(expected);
                let m = m.concat(", got ");
                m.concat(actual)
            },
            SessionError::SessionInError => String::from_str("session is in error state"),
            SessionError::SessionComplete => String::from_str("session has already completed"),
            SessionError::NotDual { a, b } => {
                let m = String::from_str("session types are not dual: ");
                let ta = type_debug(a);
                let tb = type_debug(b);
                let m = m.concat(ta.as_str());
                let m = m.concat(" vs ");
                m.concat(tb.as_str())
            },
            SessionError::InconsistentGlobal { message } => {
                let m = String::from_str("inconsistent global type: ");
                m.concat(message.as_str())
            },
            SessionError::UnknownRole { role } => {
                let m = String::from_str("unknown role: ");
                m.concat(role)
            },
        }
    }
}

} // verus!

verus! {

// ── Laws of duality, projection and binary forms ────────────────────────

/// An internal choice is dual to an external one branch by branch: the
/// branch counts agree, each branch is dual to its partner, and what follows
/// is dual. A single pair of non-dual branches makes the whole pair non-dual.
pub proof fn lemma_choice_dual_pointwise(
    ba: Seq<Seq<SessionOpModel>>,
    bb: Seq<Seq<SessionOpModel>>,
    ra: Seq<SessionOpModel>,
    rb: Seq<SessionOpModel>,
)
    ensures
        dual_ops(seq![SessionOpModel::Select(ba)] + ra, seq![SessionOpModel::Choose(bb)] + rb) == (ba.len() == bb.len()
            && (forall|k: int| 0 <= k < ba.len() ==> #[trigger] dual_ops(ba[k], bb[k])) && dual_ops(ra, rb)),
        dual_ops(seq![SessionOpModel::Choose(ba)] + ra, seq![SessionOpModel::Select(bb)] + rb) == (ba.len() == bb.len()
            && (forall|k: int| 0 <= k < ba.len() ==> #[trigger] dual_ops(ba[k], bb[k])) && dual_ops(ra, rb)),
{
    lemma_dual_branches_pointwise(ba, bb);
    let a = seq![SessionOpModel::Select(ba)] + ra;
    let b = seq![SessionOpModel::Choose(bb)] + rb;
    assert(a[0] == SessionOpModel::Select(ba));
    assert(b[0] == SessionOpModel::Choose(bb));
    assert(a.drop_first() =~= ra);
    assert(b.drop_first() =~= rb);
    let c = seq![SessionOpModel::Choose(ba)] + ra;
    let d = seq![SessionOpModel::Select(bb)] + rb;
    assert(c[0] == SessionOpModel::Choose(ba));
    assert(d[0] == SessionOpModel::Select(bb));
    assert(c.drop_first() =~= ra);
    assert(d.drop_first() =~= rb);
}

/// A role that takes no part in a recursion gets nothing of it: when every
/// operation of the body projects to `Skip` on `role`, the recursion itself
/// projects to a single `Skip`; otherwise to a recursion on the same
/// variable over the projected body.
pub proof fn lemma_recursion_projection(var: Seq<char>, body: Seq<GlobalOpModel>, role: Seq<char>)
    ensures
        (forall|i: int| 0 <= i < body.len() ==> #[trigger] project_op(body[i], role) is Skip)
            ==> project_op(GlobalOpModel::Recurse(var, body), role) == LocalOpModel::Skip,
        !(forall|i: int| 0 <= i < body.len() ==> #[trigger] project_op(body[i], role) is Skip)
            ==> project_op(GlobalOpModel::Recurse(var, body), role) == LocalOpModel::Recurse(var, project_ops(body, role)),
{
    lemma_project_ops(body, role);
    let p = project_ops(body, role);
    if forall|i: int| 0 <= i < body.len() ==> #[trigger] project_op(body[i], role) is Skip {
        assert forall|i: int| 0 <= i < p.len() implies #[trigger] p[i] is Skip by {
            assert(project_op(body[i], role) is Skip);
        }
    } else {
        let i = choose|i: int| 0 <= i < body.len() && !(#[trigger] project_op(body[i], role) is Skip);
        assert(!(p[i] is Skip));
    }
}

/// A recursion whose body only carries messages between other roles
/// projects to a single `Skip` on `role`.
pub proof fn lemma_uninvolved_recursion_collapses(var: Seq<char>, body: Seq<GlobalOpModel>, role: Seq<char>)
    requires
        forall|i: int| 0 <= i < body.len() ==> (#[trigger] body[i] matches GlobalOpModel::Message(from, to, _l) && from != role && to != role),
    ensures
        project_op(GlobalOpModel::Recurse(var, body), role) == LocalOpModel::Skip,
{
    assert forall|i: int| 0 <= i < body.len() implies #[trigger] project_op(body[i], role) is Skip by {
        assert(body[i] matches GlobalOpModel::Message(from, to, _l) && from != role && to != role);
    }
    lemma_recursion_projection(var, body, role);
}

/// The binary form keeps every message's direction and label: a local send
/// becomes a binary send of its label, a local receive a binary receive,
/// position by position.
pub proof fn lemma_binary_keeps_direction(s: Seq<LocalOpModel>)
    ensures
        lops_to_binary(s).len() == s.len(),
        forall|i: int| 0 <= i < s.len() ==> (#[trigger] s[i] matches LocalOpModel::Send(_to, label)
            ==> lops_to_binary(s)[i] == SessionOpModel::Send(label)),
        forall|i: int| 0 <= i < s.len() ==> (#[trigger] s[i] matches LocalOpModel::Recv(_from, label)
            ==> lops_to_binary(s)[i] == SessionOpModel::Recv(label)),
{
    lemma_lops_to_binary(s);
}

/// A session run on the binary form of a local type that starts by sending
/// `label` is ready to send `label`, and not to receive it.
pub proof fn lemma_binary_session_starts_with_send(s: Seq<LocalOpModel>, to: Seq<char>, label: Seq<char>)
    requires
        s.len() > 0,
        s[0] == LocalOpModel::Send(to, label),
    ensures
        state_expects(state_initial(lops_to_binary(s)), true, label),
        !state_expects(state_initial(lops_to_binary(s)), false, label),
{
    lemma_lops_to_binary(s);
    assert(lops_to_binary(s)[0] == SessionOpModel::Send(label));
}

/// A session run on the binary form of a local type that starts by
/// receiving `label` is ready to receive `label`, and not to send it.
pub proof fn lemma_binary_session_starts_with_recv(s: Seq<LocalOpModel>, from: Seq<char>, label: Seq<char>)
    requires
        s.len() > 0,
        s[0] == LocalOpModel::Recv(from, label),
    ensures
        state_expects(state_initial(lops_to_binary(s)), false, label),
        !state_expects(state_initial(lops_to_binary(s)), true, label),
{
    lemma_lops_to_binary(s);
    assert(lops_to_binary(s)[0] == SessionOpModel::Recv(label));
}


/// A send is dual exactly to a receive of the same type (and a receive to
/// a send), followed by dual continuations; a send is never dual to a send.
pub proof fn lemma_message_dual(ta: Seq<char>, tb: Seq<char>, ra: Seq<SessionOpModel>, rb: Seq<SessionOpModel>)
    ensures
        dual_ops(seq![SessionOpModel::Send(ta)] + ra, seq![SessionOpModel::Recv(tb)] + rb) == (ta == tb && dual_ops(ra, rb)),
        dual_ops(seq![SessionOpModel::Recv(ta)] + ra, seq![SessionOpModel::Send(tb)] + rb) == (ta == tb && dual_ops(ra, rb)),
        !dual_ops(seq![SessionOpModel::Send(ta)] + ra, seq![SessionOpModel::Send(tb)] + rb),
        !dual_ops(seq![SessionOpModel::Recv(ta)] + ra, seq![SessionOpModel::Recv(tb)] + rb),
{
    let sa = seq![SessionOpModel::Send(ta)] + ra;
    let sb = seq![SessionOpModel::Send(tb)] + rb;
    let qa = seq![SessionOpModel::Recv(ta)] + ra;
    let qb = seq![SessionOpModel::Recv(tb)] + rb;
    assert(sa[0] == SessionOpModel::Send(ta) && sb[0] == SessionOpModel::Send(tb));
    assert(qa[0] == SessionOpModel::Recv(ta) && qb[0] == SessionOpModel::Recv(tb));
    assert(sa.drop_first() =~= ra && qa.drop_first() =~= ra);
    assert(sb.drop_first() =~= rb && qb.drop_first() =~= rb);
}

/// A leading `Skip` on either side does not change duality.
pub proof fn lemma_skip_transparent(a: Seq<SessionOpModel>, b: Seq<SessionOpModel>)
    ensures
        dual_ops(seq![SessionOpModel::Skip] + a, b) == dual_ops(a, b),
        dual_ops(a, seq![SessionOpModel::Skip] + b) == dual_ops(a, b),
{
    let sa = seq![SessionOpModel::Skip] + a;
    let sb = seq![SessionOpModel::Skip] + b;
    assert(sa[0] is Skip && sa.drop_first() =~= a);
    assert(sb[0] is Skip && sb.drop_first() =~= b);
    lemma_dual_skip_right(a, sb);
}

/// A message projects to a send for its sender, a receive for its
/// receiver, and nothing for any other role.
pub proof fn lemma_message_projection(from: Seq<char>, to: Seq<char>, label: Seq<char>, role: Seq<char>)
    ensures
        role == from ==> project_op(GlobalOpModel::Message(from, to, label), role) == LocalOpModel::Send(to, label),
        role != from && role == to ==> project_op(GlobalOpModel::Message(from, to, label), role) == LocalOpModel::Recv(from, label),
        role != from && role != to ==> project_op(GlobalOpModel::Message(from, to, label), role) == LocalOpModel::Skip,
{
}

/// A choice projects to the selector's internal choice and to the other
/// roles' external choice over the projected branches, unless the role
/// takes part in no branch, when it projects to `Skip`.
pub proof fn lemma_choice_projection(selector: Seq<char>, bs: Seq<Seq<GlobalOpModel>>, role: Seq<char>)
    ensures
        all_inert(project_branches(bs, role)) ==> project_op(GlobalOpModel::Choice(selector, bs), role) == LocalOpModel::Skip,
        !all_inert(project_branches(bs, role)) && role == selector ==> project_op(GlobalOpModel::Choice(selector, bs), role)
            == LocalOpModel::Select(project_branches(bs, role)),
        !all_inert(project_branches(bs, role)) && role != selector ==> project_op(GlobalOpModel::Choice(selector, bs), role)
            == LocalOpModel::Choose(project_branches(bs, role)),
{
}


/// The two ends of a message see dual binary sessions: projecting a single
/// message onto its sender and onto its receiver, and taking binary forms,
/// gives a send and a receive of the label, which are dual.
pub proof fn lemma_message_ends_dual(from: Seq<char>, to: Seq<char>, label: Seq<char>)
    requires
        from != to,
    ensures
        lops_to_binary(project_ops(seq![GlobalOpModel::Message(from, to, label)], from)) == seq![SessionOpModel::Send(label)],
        lops_to_binary(project_ops(seq![GlobalOpModel::Message(from, to, label)], to)) == seq![SessionOpModel::Recv(label)],
        dual_ops(
            lops_to_binary(project_ops(seq![GlobalOpModel::Message(from, to, label)], from)),
            lops_to_binary(project_ops(seq![GlobalOpModel::Message(from, to, label)], to)),
        ),
{
    let g = seq![GlobalOpModel::Message(from, to, label)];
    lemma_project_ops(g, from);
    lemma_project_ops(g, to);
    let pa = project_ops(g, from);
    let pb = project_ops(g, to);
    assert(pa =~= seq![LocalOpModel::Send(to, label)]);
    assert(pb =~= seq![LocalOpModel::Recv(from, label)]);
    lemma_lops_to_binary(pa);
    lemma_lops_to_binary(pb);
    assert(lops_to_binary(pa) =~= seq![SessionOpModel::Send(label)]);
    assert(lops_to_binary(pb) =~= seq![SessionOpModel::Recv(label)]);
    lemma_message_dual(label, label, Seq::empty(), Seq::empty());
    assert(seq![SessionOpModel::Send(label)] + Seq::<SessionOpModel>::empty() =~= seq![SessionOpModel::Send(label)]);
    assert(seq![SessionOpModel::Recv(label)] + Seq::<SessionOpModel>::empty() =~= seq![SessionOpModel::Recv(label)]);
    assert(dual_ops(Seq::<SessionOpModel>::empty(), Seq::<SessionOpModel>::empty()));
}

} // verus!
