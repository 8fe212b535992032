//! Depth-first search over a graph of `n` nodes, started from each node in
//! increasing order and following each node's successors in increasing
//! order: the order in which it discovers the nodes and the order in which
//! it finishes them.
use vstd::prelude::*;

verus! {

/// The state of a depth-first search: which nodes it discovered, in which
/// order it discovered and finished them, its stack of nodes with the next
/// successor to try, and the next node to start from.
pub struct DfsState {
    pub disc: Seq<bool>,
    pub order: Seq<usize>,
    pub fin: Seq<usize>,
    pub work: Seq<(usize, usize)>,
    pub start: usize,
}

/// The search before its first step.
pub open spec fn dfs_init(n: nat) -> DfsState {
    DfsState { disc: Seq::new(n, |i: int| false), order: Seq::empty(), fin: Seq::empty(), work: Seq::empty(), start: 0 }
}

/// Whether the search is over: nothing on the stack, no node left to start
/// from.
pub open spec fn dfs_done(n: nat, s: DfsState) -> bool {
    s.work.len() == 0 && s.start >= n
}

/// One step of the search over the edges `e`. With an empty stack it
/// starts from the next node not yet discovered. Otherwise it looks at the
/// top node's next candidate successor: an undiscovered successor is
/// discovered and pushed; once every candidate was tried the node is
/// finished and popped.
pub open spec fn dfs_step(e: spec_fn(int, int) -> bool, n: nat, s: DfsState) -> DfsState {
    if s.work.len() == 0 {
        if s.start >= n {
            s
        } else if s.disc[s.start as int] {
            DfsState { start: (s.start + 1) as usize, ..s }
        } else {
            let u = s.start;
            DfsState {
                disc: s.disc.update(u as int, true),
                order: s.order.push(u),
                work: s.work.push((u, 0usize)),
                start: (u + 1) as usize,
                ..s
            }
        }
    } else {
        let (u, i) = s.work.last();
        if i >= n {
            DfsState { work: s.work.drop_last(), fin: s.fin.push(u), ..s }
        } else {
            let w = s.work.update(s.work.len() - 1, (u, (i + 1) as usize));
            if e(u as int, i as int) && !s.disc[i as int] {
                DfsState { disc: s.disc.update(i as int, true), order: s.order.push(i), work: w.push((i, 0usize)), ..s }
            } else {
                DfsState { work: w, ..s }
            }
        }
    }
}

/// The search after `k` steps.
pub open spec fn dfs_run(e: spec_fn(int, int) -> bool, n: nat, k: nat) -> DfsState
    decreases k,
{
    if k == 0 {
        dfs_init(n)
    } else {
        dfs_step(e, n, dfs_run(e, n, (k - 1) as nat))
    }
}

/// The state in which the search ends.
pub open spec fn dfs_result(e: spec_fn(int, int) -> bool, n: nat) -> DfsState {
    dfs_run(e, n, choose|k: nat| dfs_done(n, #[trigger] dfs_run(e, n, k)))
}

/// Once over, the search stays as it is.
proof fn lemma_done_stays(e: spec_fn(int, int) -> bool, n: nat, k: nat, d: nat)
    requires
        dfs_done(n, dfs_run(e, n, k)),
    ensures
        dfs_run(e, n, k + d) == dfs_run(e, n, k),
    decreases d,
{
    if d > 0 {
        lemma_done_stays(e, n, k, (d - 1) as nat);
        assert(dfs_run(e, n, k + d) == dfs_step(e, n, dfs_run(e, n, (k + d - 1) as nat)));
    }
}

/// Any state in which the search is over is the one it ends in.
proof fn lemma_dfs_result(e: spec_fn(int, int) -> bool, n: nat, k: nat)
    requires
        dfs_done(n, dfs_run(e, n, k)),
    ensures
        dfs_result(e, n) == dfs_run(e, n, k),
{
    let k2 = choose|k: nat| dfs_done(n, #[trigger] dfs_run(e, n, k));
    if k2 <= k {
        lemma_done_stays(e, n, k2, (k - k2) as nat);
    } else {
        lemma_done_stays(e, n, k, (k2 - k) as nat);
    }
}

/// The number of nodes not yet discovered.
pub open spec fn undiscovered(d: Seq<bool>) -> nat
    decreases d.len(),
{
    if d.len() == 0 {
        0
    } else {
        undiscovered(d.drop_last()) + if d.last() { 0nat } else { 1nat }
    }
}

/// What is left to try on the stack: for each frame, its candidates not yet
/// tried, and one more for finishing it.
pub open spec fn stack_left(n: nat, w: Seq<(usize, usize)>) -> nat
    decreases w.len(),
{
    if w.len() == 0 {
        0
    } else {
        stack_left(n, w.drop_last()) + (n + 1 - w.last().1) as nat
    }
}

proof fn lemma_undiscovered_update(d: Seq<bool>, i: int)
    requires
        0 <= i < d.len(),
        !d[i],
    ensures
        undiscovered(d.update(i, true)) + 1 == undiscovered(d),
    decreases d.len(),
{
    let u = d.update(i, true);
    if i < d.len() - 1 {
        assert(u.drop_last() =~= d.drop_last().update(i, true));
        lemma_undiscovered_update(d.drop_last(), i);
    } else {
        assert(u.drop_last() =~= d.drop_last());
    }
}

/// The well-formedness kept by every step: the stack holds nodes with
/// candidates up to `n`.
pub open spec fn dfs_wf(n: nat, s: DfsState) -> bool {
    &&& s.disc.len() == n
    &&& s.start <= n
    &&& forall|j: int| 0 <= j < s.work.len() ==> (#[trigger] s.work[j]).0 < n && s.work[j].1 <= n
    &&& forall|j: int| 0 <= j < s.order.len() ==> #[trigger] s.order[j] < n
    &&& forall|j: int| 0 <= j < s.fin.len() ==> #[trigger] s.fin[j] < n
}

/// Runs the search over the graph whose edges are `m`: `m[u][v]` says
/// whether there is an edge from `u` to `v`. Gives the nodes in the order
/// the search discovered them and in the order it finished them.
pub fn dfs_orders(m: &Vec<Vec<bool>>, Ghost(e): Ghost<spec_fn(int, int) -> bool>) -> (r: (Vec<usize>, Vec<usize>))
    requires
        forall|u: int| 0 <= u < m.len() ==> (#[trigger] m@[u]).len() == m.len(),
        forall|u: int, v: int| 0 <= u < m.len() && 0 <= v < m.len() ==> #[trigger] e(u, v) == m@[u]@[v],
    ensures
        r.0@ == dfs_result(e, m.len() as nat).order,
        r.1@ == dfs_result(e, m.len() as nat).fin,
        forall|j: int| 0 <= j < r.0.len() ==> #[trigger] r.0@[j] < m.len(),
        forall|j: int| 0 <= j < r.1.len() ==> #[trigger] r.1@[j] < m.len(),
{
    let n = m.len();
    let ghost gn = n as nat;
    let mut disc: Vec<bool> = Vec::new();
    let mut j: usize = 0;
    while j < n
        invariant
            j <= n,
            disc@ == Seq::new(j as nat, |i: int| false),
        decreases n - j,
    {
        disc.push(false);
        j = j + 1;
    }
    let mut order: Vec<usize> = Vec::new();
    let mut fin: Vec<usize> = Vec::new();
    let mut work: Vec<(usize, usize)> = Vec::new();
    let mut start: usize = 0;
    let ghost mut k: nat = 0;
    proof {
        assert(disc@ =~= dfs_init(gn).disc);
    }
    while !(work.len() == 0 && start >= n)
        invariant
            n == m.len(),
            gn == n as nat,
            forall|u: int| 0 <= u < m.len() ==> (#[trigger] m@[u]).len() == m.len(),
            forall|u: int, v: int| 0 <= u < m.len() && 0 <= v < m.len() ==> #[trigger] e(u, v) == m@[u]@[v],
            (DfsState { disc: disc@, order: order@, fin: fin@, work: work@, start }) == dfs_run(e, gn, k),
            dfs_wf(gn, dfs_run(e, gn, k)),
        decreases undiscovered(disc@), stack_left(gn, work@), n - start,
    {
        let ghost before = DfsState { disc: disc@, order: order@, fin: fin@, work: work@, start };
        if work.len() == 0 {
            if disc[start] {
                start = start + 1;
            } else {
                proof {
                    lemma_undiscovered_update(disc@, start as int);
                }
                disc.set(start, true);
                order.push(start);
                work.push((start, 0));
                start = start + 1;
            }
        } else {
            let last = work.len() - 1;
            let (u, i) = work[last];
            if i >= n {
                proof {
                    assert(work@.drop_last() == work@.subrange(0, last as int));
                }
                work.pop();
                fin.push(u);
            } else {
                work.set(last, (u, i + 1));
                proof {
                    assert(work@.drop_last() =~= before.work.drop_last());
                }
                if m[u][i] && !disc[i] {
                    proof {
                        lemma_undiscovered_update(disc@, i as int);
                    }
                    disc.set(i, true);
                    order.push(i);
                    work.push((i, 0));
                }
            }
        }
        proof {
            k = k + 1;
            assert((DfsState { disc: disc@, order: order@, fin: fin@, work: work@, start }) == dfs_step(e, gn, before));
        }
    }
    proof {
        lemma_dfs_result(e, gn, k);
    }
    (order, fin)
}

/// What holds of every state of the search: a node is discovered exactly
/// when it is in the discovery order; no node is discovered or finished
/// twice; the stack holds distinct discovered, unfinished nodes; every
/// discovered node is finished or on the stack; every node before `start`
/// is discovered.
pub open spec fn dfs_inv(n: nat, s: DfsState) -> bool {
    &&& dfs_wf(n, s)
    &&& forall|v: usize| v < n ==> (#[trigger] s.disc[v as int] <==> s.order.contains(v))
    &&& s.order.no_duplicates()
    &&& s.fin.no_duplicates()
    &&& forall|j: int| 0 <= j < s.fin.len() ==> s.order.contains(#[trigger] s.fin[j])
    &&& forall|j: int| 0 <= j < s.work.len() ==> s.order.contains((#[trigger] s.work[j]).0) && !s.fin.contains(s.work[j].0)
    &&& forall|j1: int, j2: int| 0 <= j1 < s.work.len() && 0 <= j2 < s.work.len() && j1 != j2 ==> (#[trigger] s.work[j1]).0 != (#[trigger] s.work[j2]).0
    &&& forall|j: int| 0 <= j < s.order.len() ==> s.fin.contains(#[trigger] s.order[j]) || on_stack(s.work, s.order[j])
    &&& forall|v: int| 0 <= v < s.start ==> #[trigger] s.disc[v]
}

/// Whether `v` is a node on the stack.
pub open spec fn on_stack(w: Seq<(usize, usize)>, v: usize) -> bool {
    exists|j: int| 0 <= j < w.len() && (#[trigger] w[j]).0 == v
}

proof fn lemma_dfs_inv_init(n: nat)
    ensures
        dfs_inv(n, dfs_init(n)),
{
}

proof fn lemma_dfs_inv_step(e: spec_fn(int, int) -> bool, n: nat, s: DfsState)
    requires
        dfs_inv(n, s),
    ensures
        dfs_inv(n, dfs_step(e, n, s)),
{
    let t = dfs_step(e, n, s);
    if s.work.len() == 0 {
        if s.start >= n {
        } else if s.disc[s.start as int] {
        } else {
            let u = s.start;
            assert(!s.order.contains(u));
            assert forall|v: usize| v < n implies (#[trigger] t.disc[v as int] <==> t.order.contains(v)) by {
                if t.order.contains(v) && v != u {
                    let j = choose|j: int| 0 <= j < t.order.len() && t.order[j] == v;
                    assert(j < s.order.len());
                    assert(s.order[j] == v);
                }
                if s.order.contains(v) {
                    let j = choose|j: int| 0 <= j < s.order.len() && s.order[j] == v;
                    assert(t.order[j] == v);
                }
                if v == u {
                    assert(t.order[t.order.len() - 1] == u);
                }
            }
            assert forall|j: int| 0 <= j < t.fin.len() implies t.order.contains(#[trigger] t.fin[j]) by {
                let i = choose|i: int| 0 <= i < s.order.len() && s.order[i] == s.fin[j];
                assert(t.order[i] == s.fin[j]);
            }
            assert forall|j: int| 0 <= j < t.work.len() implies t.order.contains((#[trigger] t.work[j]).0) && !t.fin.contains(t.work[j].0) by {
                assert(t.order[t.order.len() - 1] == u);
                if t.fin.contains(u) {
                    let i = choose|i: int| 0 <= i < s.fin.len() && s.fin[i] == u;
                    assert(s.order.contains(s.fin[i]));
                }
            }
            assert forall|j: int| 0 <= j < t.order.len() implies t.fin.contains(#[trigger] t.order[j]) || on_stack(t.work, t.order[j]) by {
                if j < s.order.len() {
                    assert(t.order[j] == s.order[j]);
                    assert(s.fin.contains(s.order[j]) || on_stack(s.work, s.order[j]));
                } else {
                    assert(t.work[0].0 == u);
                }
            }
        }
    } else {
        let (u, i) = s.work.last();
        let top = s.work.len() - 1;
        if i >= n {
            assert(s.order.contains(u) && !s.fin.contains(u));
            assert forall|j: int| 0 <= j < t.fin.len() implies t.order.contains(#[trigger] t.fin[j]) by {
                if j < s.fin.len() {
                    assert(t.fin[j] == s.fin[j]);
                }
            }
            assert forall|j: int| 0 <= j < t.work.len() implies t.order.contains((#[trigger] t.work[j]).0) && !t.fin.contains(t.work[j].0) by {
                assert(t.work[j] == s.work[j]);
                assert(s.work[j].0 != s.work[top].0);
                if t.fin.contains(t.work[j].0) {
                    let k = choose|k: int| 0 <= k < t.fin.len() && t.fin[k] == t.work[j].0;
                    if k < s.fin.len() {
                        assert(s.fin[k] == s.work[j].0);
                    }
                }
            }
            assert forall|j1: int, j2: int| 0 <= j1 < t.work.len() && 0 <= j2 < t.work.len() && j1 != j2 implies (#[trigger] t.work[j1]).0 != (#[trigger] t.work[j2]).0 by {
                assert(t.work[j1] == s.work[j1] && t.work[j2] == s.work[j2]);
            }
            assert forall|j: int| 0 <= j < t.order.len() implies t.fin.contains(#[trigger] t.order[j]) || on_stack(t.work, t.order[j]) by {
                let x = s.order[j];
                if s.fin.contains(x) {
                    let k = choose|k: int| 0 <= k < s.fin.len() && s.fin[k] == x;
                    assert(t.fin[k] == x);
                } else {
                    let k = choose|k: int| 0 <= k < s.work.len() && (#[trigger] s.work[k]).0 == x;
                    if k == top {
                        assert(t.fin[t.fin.len() - 1] == x);
                    } else {
                        assert(t.work[k] == s.work[k]);
                    }
                }
            }
        } else {
            let w = s.work.update(top, (u, (i + 1) as usize));
            assert forall|v: usize| on_stack(s.work, v) <==> on_stack(w, v) by {
                if on_stack(s.work, v) {
                    let k = choose|k: int| 0 <= k < s.work.len() && (#[trigger] s.work[k]).0 == v;
                    assert(w[k].0 == v);
                }
                if on_stack(w, v) {
                    let k = choose|k: int| 0 <= k < w.len() && (#[trigger] w[k]).0 == v;
                    assert(s.work[k].0 == v);
                }
            }
            if e(u as int, i as int) && !s.disc[i as int] {
                let x = i;
                assert(!s.order.contains(x));
                assert forall|v: usize| v < n implies (#[trigger] t.disc[v as int] <==> t.order.contains(v)) by {
                    if t.order.contains(v) && v != x {
                        let j = choose|j: int| 0 <= j < t.order.len() && t.order[j] == v;
                        assert(j < s.order.len());
                        assert(s.order[j] == v);
                    }
                    if s.order.contains(v) {
                        let j = choose|j: int| 0 <= j < s.order.len() && s.order[j] == v;
                        assert(t.order[j] == v);
                    }
                    if v == x {
                        assert(t.order[t.order.len() - 1] == x);
                    }
                }
                assert forall|j: int| 0 <= j < t.fin.len() implies t.order.contains(#[trigger] t.fin[j]) by {
                    let k = choose|k: int| 0 <= k < s.order.len() && s.order[k] == s.fin[j];
                    assert(t.order[k] == s.fin[j]);
                }
                assert forall|j: int| 0 <= j < t.work.len() implies t.order.contains((#[trigger] t.work[j]).0) && !t.fin.contains(t.work[j].0) by {
                    if j < s.work.len() {
                        assert(t.work[j].0 == s.work[j].0);
                        let k = choose|k: int| 0 <= k < s.order.len() && s.order[k] == s.work[j].0;
                        assert(t.order[k] == s.work[j].0);
                    } else {
                        assert(t.order[t.order.len() - 1] == x);
                        if t.fin.contains(x) {
                            let k = choose|k: int| 0 <= k < s.fin.len() && s.fin[k] == x;
                            assert(s.order.contains(s.fin[k]));
                        }
                    }
                }
                assert forall|j1: int, j2: int| 0 <= j1 < t.work.len() && 0 <= j2 < t.work.len() && j1 != j2 implies (#[trigger] t.work[j1]).0 != (#[trigger] t.work[j2]).0 by {
                    if j1 < s.work.len() && j2 < s.work.len() {
                        assert(t.work[j1].0 == s.work[j1].0 && t.work[j2].0 == s.work[j2].0);
                    } else if j1 < s.work.len() {
                        assert(t.work[j1].0 == s.work[j1].0);
                        assert(s.order.contains(s.work[j1].0));
                    } else {
                        assert(t.work[j2].0 == s.work[j2].0);
                        assert(s.order.contains(s.work[j2].0));
                    }
                }
                assert forall|j: int| 0 <= j < t.order.len() implies t.fin.contains(#[trigger] t.order[j]) || on_stack(t.work, t.order[j]) by {
                    if j < s.order.len() {
                        assert(t.order[j] == s.order[j]);
                        if on_stack(s.work, s.order[j]) {
                            assert(on_stack(w, s.order[j]));
                            let k = choose|k: int| 0 <= k < w.len() && (#[trigger] w[k]).0 == s.order[j];
                            assert(t.work[k] == w[k]);
                        }
                    } else {
                        assert(t.work[t.work.len() - 1].0 == x);
                    }
                }
            } else {
                assert forall|j: int| 0 <= j < t.work.len() implies t.order.contains((#[trigger] t.work[j]).0) && !t.fin.contains(t.work[j].0) by {
                    assert(t.work[j].0 == s.work[j].0);
                }
                assert forall|j1: int, j2: int| 0 <= j1 < t.work.len() && 0 <= j2 < t.work.len() && j1 != j2 implies (#[trigger] t.work[j1]).0 != (#[trigger] t.work[j2]).0 by {
                    assert(t.work[j1].0 == s.work[j1].0 && t.work[j2].0 == s.work[j2].0);
                }
                assert forall|j: int| 0 <= j < t.order.len() implies t.fin.contains(#[trigger] t.order[j]) || on_stack(t.work, t.order[j]) by {
                    assert(s.fin.contains(s.order[j]) || on_stack(s.work, s.order[j]));
                }
            }
        }
    }
}

proof fn lemma_dfs_run_inv(e: spec_fn(int, int) -> bool, n: nat, k: nat)
    ensures
        dfs_inv(n, dfs_run(e, n, k)),
    decreases k,
{
    if k == 0 {
        lemma_dfs_inv_init(n);
    } else {
        lemma_dfs_run_inv(e, n, (k - 1) as nat);
        lemma_dfs_inv_step(e, n, dfs_run(e, n, (k - 1) as nat));
    }
}

/// The search ends: some number of steps brings it to a state where it is
/// over.
proof fn lemma_dfs_ends_from(e: spec_fn(int, int) -> bool, n: nat, k: nat)
    requires
        n <= usize::MAX,
    ensures
        exists|k2: nat| dfs_done(n, #[trigger] dfs_run(e, n, k2)),
    decreases undiscovered(dfs_run(e, n, k).disc), stack_left(n, dfs_run(e, n, k).work), n - dfs_run(e, n, k).start,
{
    let s = dfs_run(e, n, k);
    lemma_dfs_run_inv(e, n, k);
    if dfs_done(n, s) {
        assert(dfs_done(n, dfs_run(e, n, k)));
    } else {
        let t = dfs_run(e, n, k + 1);
        assert(t == dfs_step(e, n, s));
        if s.work.len() == 0 {
            if !s.disc[s.start as int] {
                lemma_undiscovered_update(s.disc, s.start as int);
                assert(undiscovered(t.disc) < undiscovered(s.disc));
            } else {
                assert(t.disc == s.disc && t.work == s.work && t.start == s.start + 1);
            }
        } else {
            let (u, i) = s.work.last();
            assert(i <= n);
            if i >= n {
                assert(t.work == s.work.drop_last());
                assert(t.disc == s.disc);
                assert(stack_left(n, s.work) == stack_left(n, s.work.drop_last()) + (n + 1 - i) as nat);
                assert(stack_left(n, t.work) < stack_left(n, s.work));
            } else {
                let w = s.work.update(s.work.len() - 1, (u, (i + 1) as usize));
                assert(w.drop_last() =~= s.work.drop_last());
                if e(u as int, i as int) && !s.disc[i as int] {
                    lemma_undiscovered_update(s.disc, i as int);
                    assert(undiscovered(t.disc) < undiscovered(s.disc));
                } else {
                    assert(t.work == w && t.disc == s.disc);
                    assert(w.last() == (u, (i + 1) as usize));
                    assert(stack_left(n, w) == stack_left(n, w.drop_last()) + (n + 1 - (i + 1)) as nat);
                    assert(stack_left(n, s.work) == stack_left(n, s.work.drop_last()) + (n + 1 - i) as nat);
                    assert(stack_left(n, t.work) < stack_left(n, s.work));
                }
            }
        }
        lemma_dfs_ends_from(e, n, k + 1);
    }
}

/// The search ends, having discovered and finished every node exactly once.
pub proof fn lemma_dfs_result_complete(e: spec_fn(int, int) -> bool, n: nat)
    requires
        n <= usize::MAX,
    ensures
        dfs_done(n, dfs_result(e, n)),
        dfs_result(e, n).order.no_duplicates(),
        dfs_result(e, n).fin.no_duplicates(),
        forall|v: usize| v < n ==> #[trigger] dfs_result(e, n).order.contains(v) && dfs_result(e, n).fin.contains(v),
        forall|j: int| 0 <= j < dfs_result(e, n).order.len() ==> #[trigger] dfs_result(e, n).order[j] < n,
        forall|j: int| 0 <= j < dfs_result(e, n).fin.len() ==> #[trigger] dfs_result(e, n).fin[j] < n,
{
    lemma_dfs_ends_from(e, n, 0);
    let k = choose|k: nat| dfs_done(n, #[trigger] dfs_run(e, n, k));
    lemma_dfs_result(e, n, k);
    lemma_dfs_run_inv(e, n, k);
    let s = dfs_result(e, n);
    assert forall|v: usize| v < n implies #[trigger] s.order.contains(v) && s.fin.contains(v) by {
        assert(s.disc[v as int]);
        let j = choose|j: int| 0 <= j < s.order.len() && s.order[j] == v;
        assert(s.fin.contains(s.order[j]) || on_stack(s.work, s.order[j]));
    }
}


// ── The first cycle the search meets ───────────────────────────────────

/// Whether the search's next step tries an edge from the top node back to
/// a node on the stack.
pub open spec fn back_edge_next(e: spec_fn(int, int) -> bool, n: nat, s: DfsState) -> bool {
    &&& s.work.len() > 0
    &&& s.work.last().1 < n
    &&& e(s.work.last().0 as int, s.work.last().1 as int)
    &&& on_stack(s.work, s.work.last().1)
}

/// The position on the stack of node `v`.
pub open spec fn stack_pos(w: Seq<(usize, usize)>, v: usize) -> int {
    choose|j: int| 0 <= j < w.len() && (#[trigger] w[j]).0 == v
}

/// The cycle a back edge closes: the stack's nodes from the edge's target
/// to the top, then the target again.
pub open spec fn back_cycle(s: DfsState) -> Seq<usize> {
    let v = s.work.last().1;
    s.work.subrange(stack_pos(s.work, v), s.work.len() as int).map_values(|f: (usize, usize)| f.0).push(v)
}

/// Whether the search meets its first back edge at step `k`.
pub open spec fn first_back_at(e: spec_fn(int, int) -> bool, n: nat, k: nat) -> bool {
    &&& back_edge_next(e, n, dfs_run(e, n, k))
    &&& forall|j: nat| j < k ==> !back_edge_next(e, n, #[trigger] dfs_run(e, n, j))
}

/// The cycle the search meets first, if it meets one.
pub open spec fn dfs_first_cycle(e: spec_fn(int, int) -> bool, n: nat) -> Option<Seq<usize>> {
    if exists|k: nat| #[trigger] first_back_at(e, n, k) {
        Some(back_cycle(dfs_run(e, n, choose|k: nat| #[trigger] first_back_at(e, n, k))))
    } else {
        None
    }
}

/// Whether each node on the stack has an edge to the next one.
pub open spec fn stack_path(e: spec_fn(int, int) -> bool, w: Seq<(usize, usize)>) -> bool {
    forall|j: int| 0 <= j < w.len() - 1 ==> #[trigger] e(w[j].0 as int, w[j + 1].0 as int)
}

/// What the search knows of the edges it tried: a finished node's
/// successors were all finished before it, and each successor a frame has
/// tried is finished or on the stack above that frame.
pub open spec fn fin_ok(e: spec_fn(int, int) -> bool, n: nat, s: DfsState) -> bool {
    &&& forall|b: int, v: int| 0 <= b < s.fin.len() && 0 <= v < n && #[trigger] e(s.fin[b] as int, v)
        ==> exists|a: int| 0 <= a < b && #[trigger] s.fin[a] == v as usize
    &&& forall|j: int, v: int| 0 <= j < s.work.len() && 0 <= v < s.work[j].1 && v < n && #[trigger] e(s.work[j].0 as int, v)
        ==> s.fin.contains(v as usize) || exists|j2: int| j < j2 < s.work.len() && #[trigger] s.work[j2].0 == v as usize
}

proof fn lemma_path_step(e: spec_fn(int, int) -> bool, n: nat, s: DfsState)
    requires
        stack_path(e, s.work),
    ensures
        stack_path(e, dfs_step(e, n, s).work),
{
    let t = dfs_step(e, n, s);
    if s.work.len() > 0 {
        let (u, i) = s.work.last();
        if i < n {
            let w = s.work.update(s.work.len() - 1, (u, (i + 1) as usize));
            assert forall|j: int| 0 <= j < t.work.len() - 1 implies #[trigger] e(t.work[j].0 as int, t.work[j + 1].0 as int) by {
                if j < s.work.len() - 1 {
                    assert(e(s.work[j].0 as int, s.work[j + 1].0 as int));
                }
            }
        } else {
            assert forall|j: int| 0 <= j < t.work.len() - 1 implies #[trigger] e(t.work[j].0 as int, t.work[j + 1].0 as int) by {
                assert(e(s.work[j].0 as int, s.work[j + 1].0 as int));
            }
        }
    }
}

#[verifier::spinoff_prover]
proof fn lemma_fin_ok_step(e: spec_fn(int, int) -> bool, n: nat, s: DfsState)
    requires
        dfs_inv(n, s),
        fin_ok(e, n, s),
        !back_edge_next(e, n, s),
    ensures
        fin_ok(e, n, dfs_step(e, n, s)),
{
    let t = dfs_step(e, n, s);
    if s.work.len() == 0 {
        if s.start < n && !s.disc[s.start as int] {
            assert forall|j: int, v: int| 0 <= j < t.work.len() && 0 <= v < t.work[j].1 && v < n && #[trigger] e(t.work[j].0 as int, v)
                implies t.fin.contains(v as usize) || exists|j2: int| j < j2 < t.work.len() && #[trigger] t.work[j2].0 == v as usize by {
            }
        }
    } else {
        let last = s.work.len() - 1;
        let (u, i) = s.work.last();
        if i >= n {
            assert forall|b: int, v: int| 0 <= b < t.fin.len() && 0 <= v < n && #[trigger] e(t.fin[b] as int, v)
                implies exists|a: int| 0 <= a < b && #[trigger] t.fin[a] == v as usize by {
                if b < s.fin.len() {
                    assert(t.fin[b] == s.fin[b]);
                    let a = choose|a: int| 0 <= a < b && #[trigger] s.fin[a] == v as usize;
                    assert(t.fin[a] == v as usize);
                } else {
                    assert(t.fin[b] == u);
                    assert(e(s.work[last].0 as int, v));
                    assert(s.fin.contains(v as usize));
                    let a = choose|a: int| 0 <= a < s.fin.len() && s.fin[a] == v as usize;
                    assert(t.fin[a] == v as usize);
                }
            }
            assert forall|j: int, v: int| 0 <= j < t.work.len() && 0 <= v < t.work[j].1 && v < n && #[trigger] e(t.work[j].0 as int, v)
                implies t.fin.contains(v as usize) || exists|j2: int| j < j2 < t.work.len() && #[trigger] t.work[j2].0 == v as usize by {
                assert(t.work[j] == s.work[j]);
                assert(e(s.work[j].0 as int, v));
                if s.fin.contains(v as usize) {
                    let a = choose|a: int| 0 <= a < s.fin.len() && s.fin[a] == v as usize;
                    assert(t.fin[a] == v as usize);
                } else {
                    let j2 = choose|j2: int| j < j2 < s.work.len() && #[trigger] s.work[j2].0 == v as usize;
                    if j2 == last {
                        assert(t.fin[s.fin.len() as int] == v as usize);
                    } else {
                        assert(t.work[j2].0 == v as usize);
                    }
                }
            }
        } else {
            let w = s.work.update(last, (u, (i + 1) as usize));
            assert forall|b: int, v: int| 0 <= b < t.fin.len() && 0 <= v < n && #[trigger] e(t.fin[b] as int, v)
                implies exists|a: int| 0 <= a < b && #[trigger] t.fin[a] == v as usize by {
                assert(e(s.fin[b] as int, v));
            }
            assert forall|j: int, v: int| 0 <= j < t.work.len() && 0 <= v < t.work[j].1 && v < n && #[trigger] e(t.work[j].0 as int, v)
                implies t.fin.contains(v as usize) || exists|j2: int| j < j2 < t.work.len() && #[trigger] t.work[j2].0 == v as usize by {
                if j < last {
                    assert(t.work[j] == s.work[j]);
                    assert(e(s.work[j].0 as int, v));
                    if !s.fin.contains(v as usize) {
                        let j2 = choose|j2: int| j < j2 < s.work.len() && #[trigger] s.work[j2].0 == v as usize;
                        assert(t.work[j2].0 == v as usize);
                    }
                } else if j == last {
                    assert(t.work[j].0 == u);
                    if v < i {
                        assert(e(s.work[last].0 as int, v));
                        if !s.fin.contains(v as usize) {
                            let j2 = choose|j2: int| last < j2 < s.work.len() && #[trigger] s.work[j2].0 == v as usize;
                        }
                    } else {
                        assert(v == i);
                        if !s.disc[i as int] {
                            assert(t.work[last + 1].0 == v as usize);
                        } else {
                            assert(!on_stack(s.work, i));
                            assert(s.order.contains(i));
                            let k = choose|k: int| 0 <= k < s.order.len() && s.order[k] == i;
                            assert(s.fin.contains(s.order[k]) || on_stack(s.work, s.order[k]));
                        }
                    }
                }
            }
        }
    }
}

} // verus!

verus! {

/// Runs the search over the graph whose edges are `m` until it first tries
/// an edge back to a node on its stack, and gives the cycle that edge
/// closes; `None` when it never does, and then the graph has no cycle: a
/// rank decreases along every edge.
pub fn dfs_first_back_cycle(m: &Vec<Vec<bool>>, Ghost(e): Ghost<spec_fn(int, int) -> bool>) -> (r: Option<Vec<usize>>)
    requires
        forall|u: int| 0 <= u < m.len() ==> (#[trigger] m@[u]).len() == m.len(),
        forall|u: int, v: int| 0 <= u < m.len() && 0 <= v < m.len() ==> #[trigger] e(u, v) == m@[u]@[v],
    ensures
        match r {
            Some(c) => dfs_first_cycle(e, m.len() as nat) == Some(c@) && c@.len() >= 2 && c@[0] == c@.last()
                && (forall|j: int| 0 <= j < c@.len() ==> #[trigger] c@[j] < m.len())
                && (forall|j: int| 0 <= j < c@.len() - 1 ==> #[trigger] e(c@[j] as int, c@[j + 1] as int)),
            None => dfs_first_cycle(e, m.len() as nat) is None && exists|rank: Seq<int>| rank.len() == m.len()
                && forall|u: int, v: int| 0 <= u < m.len() && 0 <= v < m.len() && #[trigger] e(u, v) ==> rank[v] < rank[u],
        },
{
    let n = m.len();
    let ghost gn = n as nat;
    let mut disc: Vec<bool> = Vec::new();
    let mut onstack: Vec<bool> = Vec::new();
    let mut j: usize = 0;
    while j < n
        invariant
            j <= n,
            disc@ == Seq::new(j as nat, |i: int| false),
            onstack@ == Seq::new(j as nat, |i: int| false),
        decreases n - j,
    {
        disc.push(false);
        onstack.push(false);
        j = j + 1;
    }
    let mut order: Vec<usize> = Vec::new();
    let mut fin: Vec<usize> = Vec::new();
    let mut work: Vec<(usize, usize)> = Vec::new();
    let mut start: usize = 0;
    let ghost mut k: nat = 0;
    proof {
        assert(disc@ =~= dfs_init(gn).disc);
        lemma_dfs_inv_init(gn);
    }
    while !(work.len() == 0 && start >= n)
        invariant
            n == m.len(),
            gn == n as nat,
            forall|u: int| 0 <= u < m.len() ==> (#[trigger] m@[u]).len() == m.len(),
            forall|u: int, v: int| 0 <= u < m.len() && 0 <= v < m.len() ==> #[trigger] e(u, v) == m@[u]@[v],
            (DfsState { disc: disc@, order: order@, fin: fin@, work: work@, start }) == dfs_run(e, gn, k),
            dfs_wf(gn, dfs_run(e, gn, k)),
            dfs_inv(gn, dfs_run(e, gn, k)),
            fin_ok(e, gn, dfs_run(e, gn, k)),
            stack_path(e, work@),
            onstack@.len() == n,
            forall|v: int| 0 <= v < n ==> (#[trigger] onstack@[v] <==> on_stack(work@, v as usize)),
            forall|j: nat| j < k ==> !back_edge_next(e, gn, #[trigger] dfs_run(e, gn, j)),
        decreases undiscovered(disc@), stack_left(gn, work@), n - start,
    {
        let ghost before = DfsState { disc: disc@, order: order@, fin: fin@, work: work@, start };
        if work.len() > 0 {
            let last = work.len() - 1;
            let (u, i) = work[last];
            if i < n && m[u][i] && onstack[i] {
                // The first back edge: the stack from `i` up, then `i`.
                proof {
                    assert(back_edge_next(e, gn, before));
                    assert(first_back_at(e, gn, k));
                }
                let mut p: usize = 0;
                while work[p].0 != i
                    invariant
                        p < work.len(),
                        on_stack(work@, i),
                        forall|q: int| 0 <= q < p ==> (#[trigger] work@[q]).0 != i,
                    decreases work.len() - p,
                {
                    proof {
                        let q = choose|q: int| 0 <= q < work@.len() && (#[trigger] work@[q]).0 == i;
                        if q == p {
                        }
                        assert(q > p);
                    }
                    p = p + 1;
                }
                let mut c: Vec<usize> = Vec::new();
                let mut q: usize = p;
                while q < work.len()
                    invariant
                        p <= q <= work.len(),
                        c@ == work@.subrange(p as int, q as int).map_values(|f: (usize, usize)| f.0),
                    decreases work.len() - q,
                {
                    c.push(work[q].0);
                    proof {
                        assert(work@.subrange(p as int, q + 1).map_values(|f: (usize, usize)| f.0)
                            =~= work@.subrange(p as int, q as int).map_values(|f: (usize, usize)| f.0).push(work@[q as int].0));
                    }
                    q = q + 1;
                }
                c.push(i);
                proof {
                    let s = before;
                    assert(stack_pos(s.work, i) == p as int) by {
                        let sp = stack_pos(s.work, i);
                        assert(0 <= sp < s.work.len() && s.work[sp].0 == i);
                        if sp != p as int {
                            assert(s.work[sp].0 != s.work[p as int].0);
                        }
                    }
                    assert(c@ == back_cycle(s));
                    let kk = choose|kk: nat| #[trigger] first_back_at(e, gn, kk);
                    if kk < k {
                        assert(!back_edge_next(e, gn, dfs_run(e, gn, kk)));
                    } else if kk > k {
                        assert(!back_edge_next(e, gn, dfs_run(e, gn, k)));
                    }
                    assert(dfs_first_cycle(e, gn) == Some(c@));
                    assert forall|j: int| 0 <= j < c@.len() - 1 implies #[trigger] e(c@[j] as int, c@[j + 1] as int) by {
                        if j < c@.len() - 2 {
                            assert(c@[j] == work@[p + j].0 && c@[j + 1] == work@[p + j + 1].0);
                            assert(e(work@[p + j].0 as int, work@[(p + j) + 1].0 as int));
                        } else {
                            assert(c@[j] == work@[last as int].0);
                        }
                    }
                    assert forall|j: int| 0 <= j < c@.len() implies #[trigger] c@[j] < m.len() by {
                        if j < c@.len() - 1 {
                            assert(c@[j] == work@[p + j].0);
                        }
                    }
                }
                return Some(c);
            }
        }
        proof {
            lemma_fin_ok_step(e, gn, before);
            lemma_path_step(e, gn, before);
            lemma_dfs_inv_step(e, gn, before);
        }
        if work.len() == 0 {
            if disc[start] {
                start = start + 1;
            } else {
                proof {
                    lemma_undiscovered_update(disc@, start as int);
                }
                disc.set(start, true);
                order.push(start);
                work.push((start, 0));
                onstack.set(start, true);
                proof {
                    assert(work@[0].0 == start);
                    assert(on_stack(work@, start));
                }
                start = start + 1;
            }
        } else {
            let last = work.len() - 1;
            let (u, i) = work[last];
            if i >= n {
                proof {
                    assert(work@.drop_last() == work@.subrange(0, last as int));
                }
                work.pop();
                fin.push(u);
                onstack.set(u, false);
                proof {
                    let s0 = before;
                    assert(dfs_inv(gn, s0));
                    if on_stack(work@, u) {
                        let q = choose|q: int| 0 <= q < work@.len() && (#[trigger] work@[q]).0 == u;
                        assert(s0.work[q].0 == u);
                        assert(s0.work[last as int].0 == u);
                        assert(s0.work[q].0 != s0.work[last as int].0);
                    }
                }
            } else {
                work.set(last, (u, i + 1));
                proof {
                    assert(work@.drop_last() =~= before.work.drop_last());
                }
                if m[u][i] && !disc[i] {
                    proof {
                        lemma_undiscovered_update(disc@, i as int);
                    }
                    disc.set(i, true);
                    order.push(i);
                    work.push((i, 0));
                    onstack.set(i, true);
                    proof {
                        assert(work@[last + 1].0 == i);
                        assert(on_stack(work@, i));
                    }
                }
            }
        }
        proof {
            k = k + 1;
            let t = DfsState { disc: disc@, order: order@, fin: fin@, work: work@, start };
            assert(t == dfs_step(e, gn, before));
            assert forall|v: int| 0 <= v < n implies (#[trigger] onstack@[v] <==> on_stack(work@, v as usize)) by {
                assert(before.disc.len() == n);
                if on_stack(before.work, v as usize) {
                    let q = choose|q: int| 0 <= q < before.work.len() && (#[trigger] before.work[q]).0 == v as usize;
                    if q < work@.len() {
                        assert(work@[q].0 == v as usize);
                    }
                }
                if on_stack(work@, v as usize) {
                    let q = choose|q: int| 0 <= q < work@.len() && (#[trigger] work@[q]).0 == v as usize;
                    if q < before.work.len() {
                        assert(before.work[q].0 == v as usize);
                    }
                }
            }
        }
    }
    proof {
        let s = dfs_run(e, gn, k);
        assert forall|kk: nat| !#[trigger] first_back_at(e, gn, kk) by {
            if kk >= k {
                lemma_done_stays(e, gn, k, (kk - k) as nat);
                assert(dfs_run(e, gn, k + (kk - k) as nat) == dfs_run(e, gn, kk));
            } else {
                assert(!back_edge_next(e, gn, dfs_run(e, gn, kk)));
            }
        }
        // Every node is finished; its position in the finish order ranks it.
        assert forall|v: int| 0 <= v < n implies #[trigger] s.fin.contains(v as usize) by {
            assert(s.disc[v]);
            assert(s.order.contains(v as usize));
            let q = choose|q: int| 0 <= q < s.order.len() && s.order[q] == v as usize;
            assert(s.fin.contains(s.order[q]) || on_stack(s.work, s.order[q]));
        }
        assert(!exists|kk: nat| #[trigger] first_back_at(e, gn, kk));
        assert(dfs_first_cycle(e, gn) is None);
        let rank = Seq::new(gn, |v: int| s.fin.index_of(v as usize));
        assert forall|u: int, v: int| 0 <= u < n && 0 <= v < n && #[trigger] e(u, v) implies rank[v] < rank[u] by {
            assert(s.fin.contains(u as usize));
            let b = s.fin.index_of(u as usize);
            assert(e(s.fin[b] as int, v));
            let a = choose|a: int| 0 <= a < b && #[trigger] s.fin[a] == v as usize;
            assert(s.fin.index_of(v as usize) == a) by {
                let x = s.fin.index_of(v as usize);
                assert(s.fin.contains(v as usize));
                if x != a {
                    assert(s.fin[x] == s.fin[a]);
                }
            }
        }
        assert(rank.len() == m.len());
        assert(exists|rank: Seq<int>| rank.len() == m.len()
            && forall|u: int, v: int| 0 <= u < m.len() && 0 <= v < m.len() && #[trigger] e(u, v) ==> rank[v] < rank[u]);
    }
    None
}

} // verus!
