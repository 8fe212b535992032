//! Directed multigraphs over the nodes `0..n`, given by adjacency lists, and
//! the traversals the topology analyses are built on: reachability, cycle
//! search by depth-first search, and Kahn's topological sort.
use vstd::prelude::*;

verus! {

/// The adjacency lists of a graph, as sequences.
pub open spec fn adj_view(adj: &Vec<Vec<usize>>) -> Seq<Seq<usize>> {
    adj@.map_values(|a: Vec<usize>| a@)
}

/// Whether every adjacency entry names a node of the graph.
pub open spec fn graph_wf(g: Seq<Seq<usize>>) -> bool {
    forall|u: int, k: int| 0 <= u < g.len() && 0 <= k < g[u].len() ==> #[trigger] g[u][k] < g.len()
}

/// Whether the graph has an edge from `u` to `v`.
pub open spec fn has_edge(g: Seq<Seq<usize>>, u: int, v: int) -> bool {
    0 <= u < g.len() && 0 <= v < g.len() && g[u].contains(v as usize)
}

/// Whether `p` is a walk: a sequence of nodes, each linked to the next.
pub open spec fn is_walk(g: Seq<Seq<usize>>, p: Seq<usize>) -> bool {
    &&& forall|i: int| 0 <= i < p.len() ==> #[trigger] p[i] < g.len()
    &&& forall|i: int| 0 <= i < p.len() - 1 ==> has_edge(g, #[trigger] p[i] as int, p[i + 1] as int)
}

/// Whether `v` can be reached from `s` along at least one edge.
pub open spec fn reaches(g: Seq<Seq<usize>>, s: int, v: int) -> bool {
    exists|p: Seq<usize>| #[trigger] is_walk(g, p) && p.len() >= 2 && p[0] == s && p.last() == v
}

/// Whether `c` is a cycle: a walk of at least one edge that ends where it
/// starts.
pub open spec fn is_cycle(g: Seq<Seq<usize>>, c: Seq<usize>) -> bool {
    is_walk(g, c) && c.len() >= 2 && c[0] == c.last()
}

/// Whether the graph is acyclic, witnessed by a rank that every edge
/// decreases.
pub open spec fn acyclic(g: Seq<Seq<usize>>) -> bool {
    exists|rank: Seq<int>| #[trigger] ranks_edges(g, rank)
}

/// Whether `rank` gives every node a rank and every edge goes to a lower rank.
pub open spec fn ranks_edges(g: Seq<Seq<usize>>, rank: Seq<int>) -> bool {
    &&& rank.len() == g.len()
    &&& forall|u: int, v: int| #[trigger] has_edge(g, u, v) ==> rank[v] < rank[u]
}

/// Along a walk, a rank that every edge decreases drops by at least one
/// per step.
proof fn lemma_walk_rank(g: Seq<Seq<usize>>, c: Seq<usize>, rank: Seq<int>, j: int)
    requires
        ranks_edges(g, rank),
        is_walk(g, c),
        0 <= j < c.len(),
    ensures
        rank[c[j] as int] <= rank[c[0] as int] - j,
    decreases j,
{
    if j > 0 {
        lemma_walk_rank(g, c, rank, j - 1);
        assert(has_edge(g, c[j - 1] as int, c[j] as int));
    }
}

/// An acyclic graph has no cycle.
pub proof fn lemma_acyclic_no_cycle(g: Seq<Seq<usize>>, c: Seq<usize>)
    ensures
        acyclic(g) ==> !is_cycle(g, c),
{
    if acyclic(g) && is_cycle(g, c) {
        let rank = choose|rank: Seq<int>| #[trigger] ranks_edges(g, rank);
        lemma_walk_rank(g, c, rank, c.len() - 1);
    }
}

/// The index, among the first `i` elements of `r`, of one with the greatest
/// rank.
proof fn lemma_max_rank(r: Seq<usize>, rank: Seq<int>, i: int) -> (b: int)
    requires
        1 <= i <= r.len(),
    ensures
        0 <= b < i,
        forall|k: int| 0 <= k < i ==> rank[r[k] as int] <= rank[r[b] as int],
    decreases i,
{
    if i == 1 {
        0
    } else {
        let b = lemma_max_rank(r, rank, i - 1);
        if rank[r[i - 1] as int] > rank[r[b] as int] {
            i - 1
        } else {
            b
        }
    }
}

/// Whether some node of `r` has an edge to `x`.
pub open spec fn has_pred_in(g: Seq<Seq<usize>>, r: Seq<usize>, x: int) -> bool {
    exists|j: int| 0 <= j < r.len() && #[trigger] has_edge(g, r[j] as int, x)
}

/// A non-empty set of nodes each of which has a predecessor in the set
/// rules out an acyclic graph.
pub proof fn lemma_pred_closed_not_acyclic(g: Seq<Seq<usize>>, r: Seq<usize>)
    requires
        r.len() > 0,
        forall|i: int| 0 <= i < r.len() ==> #[trigger] has_pred_in(g, r, r[i] as int),
    ensures
        !acyclic(g),
{
    if acyclic(g) {
        let rank = choose|rank: Seq<int>| #[trigger] ranks_edges(g, rank);
        let best = lemma_max_rank(r, rank, r.len() as int);
        assert(has_pred_in(g, r, r[best] as int));
        let j = choose|j: int| 0 <= j < r.len() && #[trigger] has_edge(g, r[j] as int, r[best] as int);
        assert(rank[r[best] as int] < rank[r[j] as int]);
    }
}

/// A walk that starts in a set closed under successors stays in it.
proof fn lemma_walk_stays(g: Seq<Seq<usize>>, p: Seq<usize>, inside: Seq<bool>, i: int)
    requires
        is_walk(g, p),
        inside.len() == g.len(),
        1 <= i < p.len(),
        inside[p[1] as int],
        forall|u: int, r: int| 0 <= u < g.len() && inside[u] && 0 <= r < g[u].len() ==> #[trigger] inside[#[trigger] g[u][r] as int],
    ensures
        inside[p[i] as int],
    decreases i,
{
    if i > 1 {
        lemma_walk_stays(g, p, inside, i - 1);
        assert(has_edge(g, p[i - 1] as int, p[i] as int));
        let r = choose|r: int| 0 <= r < g[p[i - 1] as int].len() && #[trigger] g[p[i - 1] as int][r] == p[i];
        assert(inside[g[p[i - 1] as int][r] as int]);
    }
}

/// A sequence of distinct nodes below `n` has at most `n` elements.
pub proof fn lemma_distinct_bounded(q: Seq<usize>, n: int)
    requires
        q.no_duplicates(),
        n >= 0,
        forall|i: int| 0 <= i < q.len() ==> #[trigger] q[i] < n,
    ensures
        q.len() <= n,
{
    let qi = q.map_values(|x: usize| x as int);
    assert(qi.no_duplicates()) by {
        assert forall|i: int, j: int| 0 <= i < qi.len() && 0 <= j < qi.len() && i != j implies qi[i] != qi[j] by {
            assert(q[i] != q[j]);
        }
    }
    qi.unique_seq_to_set();
    vstd::set_lib::lemma_int_range(0, n);
    assert(qi.to_set().subset_of(vstd::set_lib::set_int_range(0, n))) by {
        assert forall|x: int| qi.to_set().contains(x) implies vstd::set_lib::set_int_range(0, n).contains(x) by {
            let i = choose|i: int| 0 <= i < qi.len() && qi[i] == x;
            assert(q[i] < n);
        }
    }
    vstd::set_lib::lemma_len_subset(qi.to_set(), vstd::set_lib::set_int_range(0, n));
}

/// The nodes reachable from `s` along at least one edge, as a membership
/// vector indexed by node.
pub fn reachable_set(adj: &Vec<Vec<usize>>, s: usize) -> (seen: Vec<bool>)
    requires
        graph_wf(adj_view(adj)),
        s < adj.len(),
    ensures
        seen.len() == adj.len(),
        forall|v: int| 0 <= v < adj.len() ==> (#[trigger] seen@[v] <==> reaches(adj_view(adj), s as int, v)),
{
    let ghost g = adj_view(adj);
    let n = adj.len();
    let mut seen: Vec<bool> = Vec::new();
    let mut k: usize = 0;
    while k < n
        invariant
            k <= n,
            n == adj.len(),
            seen.len() == k,
            forall|v: int| 0 <= v < k ==> !#[trigger] seen@[v],
        decreases n - k,
    {
        seen.push(false);
        k = k + 1;
    }
    // `queue[head..]` are the nodes seen but not yet expanded; `queue`
    // holds every node seen, each once.
    let mut queue: Vec<usize> = Vec::new();
    let ghost mut wit: Seq<Seq<usize>> = Seq::new(n as nat, |v: int| Seq::<usize>::empty());
    let mut head: usize = 0;
    // Expanding `s` itself first: its successors are reached by one edge.
    let mut j: usize = 0;
    while j < adj[s].len()
        invariant
            n == adj.len(),
            g == adj_view(adj),
            graph_wf(g),
            s < n,
            seen.len() == n,
            wit.len() == n,
            head == 0,
            j <= adj[s as int].len(),
            forall|i: int| 0 <= i < queue.len() ==> #[trigger] queue@[i] < n && seen@[queue@[i] as int],
            queue@.no_duplicates(),
            forall|v: int| 0 <= v < n && #[trigger] seen@[v] ==> queue@.contains(v as usize),
            forall|v: int| 0 <= v < n && #[trigger] seen@[v] ==> ({
                let p = wit[v];
                is_walk(g, p) && p.len() >= 2 && p[0] == s && p.last() == v
            }),
            forall|t: int| 0 <= t < j ==> #[trigger] seen@[adj[s as int]@[t] as int],
        decreases adj[s as int].len() - j,
    {
        let v = adj[s][j];
        proof {
            assert(g[s as int][j as int] == v);
        }
        if !seen[v] {
            let ghost q0 = queue@;
            seen.set(v, true);
            queue.push(v);
            proof {
                assert forall|w: int| 0 <= w < n && #[trigger] seen@[w] implies queue@.contains(w as usize) by {
                    if w == v as int {
                        assert(queue@[queue.len() - 1] == v);
                    } else {
                        let i = choose|i: int| 0 <= i < q0.len() && #[trigger] q0[i] == w as usize;
                        assert(queue@[i] == w as usize);
                    }
                }
                let p = seq![s, v];
                assert(g[s as int].contains(v));
                assert(has_edge(g, s as int, v as int));
                wit = wit.update(v as int, p);
            }
        }
        j = j + 1;
    }
    while head < queue.len()
        invariant
            n == adj.len(),
            g == adj_view(adj),
            graph_wf(g),
            s < n,
            seen.len() == n,
            wit.len() == n,
            head <= queue.len(),
            forall|i: int| 0 <= i < queue.len() ==> #[trigger] queue@[i] < n && seen@[queue@[i] as int],
            queue@.no_duplicates(),
            forall|v: int| 0 <= v < n && #[trigger] seen@[v] ==> queue@.contains(v as usize),
            forall|v: int| 0 <= v < n && #[trigger] seen@[v] ==> ({
                let p = wit[v];
                is_walk(g, p) && p.len() >= 2 && p[0] == s && p.last() == v
            }),
            forall|t: int| 0 <= t < g[s as int].len() ==> #[trigger] seen@[g[s as int][t] as int],
            forall|i: int, t: int| 0 <= i < head && 0 <= t < g[queue@[i] as int].len() ==> #[trigger] seen@[g[#[trigger] queue@[i] as int][t] as int],
        decreases n - head,
    {
        proof {
            lemma_distinct_bounded(queue@, n as int);
        }
        let x = queue[head];
        let mut t: usize = 0;
        while t < adj[x].len()
            invariant
                n == adj.len(),
                g == adj_view(adj),
                graph_wf(g),
                s < n,
                x < n,
                seen.len() == n,
                wit.len() == n,
                head < queue.len(),
                queue@[head as int] == x,
                t <= g[x as int].len(),
                forall|i: int| 0 <= i < queue.len() ==> #[trigger] queue@[i] < n && seen@[queue@[i] as int],
                queue@.no_duplicates(),
            queue@.no_duplicates(),
                forall|v: int| 0 <= v < n && #[trigger] seen@[v] ==> queue@.contains(v as usize),
                forall|v: int| 0 <= v < n && #[trigger] seen@[v] ==> ({
                    let p = wit[v];
                    is_walk(g, p) && p.len() >= 2 && p[0] == s && p.last() == v
                }),
                forall|r: int| 0 <= r < g[s as int].len() ==> #[trigger] seen@[g[s as int][r] as int],
                forall|i: int, r: int| 0 <= i < head && 0 <= r < g[queue@[i] as int].len() ==> #[trigger] seen@[g[#[trigger] queue@[i] as int][r] as int],
                forall|r: int| 0 <= r < t ==> #[trigger] seen@[g[x as int][r] as int],
            decreases g[x as int].len() - t,
        {
            let v = adj[x][t];
            proof {
                assert(g[x as int][t as int] == v);
            }
            if !seen[v] {
                proof {
                    let px = wit[x as int];
                    let p = px.push(v);
                    assert(g[x as int].contains(v));
                    assert(has_edge(g, x as int, v as int));
                    assert(is_walk(g, p)) by {
                        assert forall|i: int| 0 <= i < p.len() - 1 implies has_edge(g, #[trigger] p[i] as int, p[i + 1] as int) by {
                            if i < px.len() - 1 {
                                assert(p[i] == px[i] && p[i + 1] == px[i + 1]);
                            }
                        }
                    }
                    wit = wit.update(v as int, p);
                }
                let ghost q0 = queue@;
                seen.set(v, true);
                queue.push(v);
                proof {
                    assert forall|w: int| 0 <= w < n && #[trigger] seen@[w] implies queue@.contains(w as usize) by {
                        if w == v as int {
                            assert(queue@[queue.len() - 1] == v);
                        } else {
                            let i = choose|i: int| 0 <= i < q0.len() && #[trigger] q0[i] == w as usize;
                            assert(queue@[i] == w as usize);
                        }
                    }
                }
            }
            t = t + 1;
        }
        head = head + 1;
        proof {
            assert forall|i: int, r: int| 0 <= i < head && 0 <= r < g[queue@[i] as int].len() implies #[trigger] seen@[g[#[trigger] queue@[i] as int][r] as int] by {
                if i == head - 1 {
                    assert(queue@[i] == x);
                }
            }
        }
    }
    proof {
        // The seen set is closed under successors, so every walk from `s`
        // stays inside it.
        assert forall|v: int| 0 <= v < n implies (#[trigger] seen@[v] <==> reaches(g, s as int, v)) by {
            if seen@[v] {
                let p = wit[v];
                assert(is_walk(g, p) && p.len() >= 2 && p[0] == s && p.last() == v);
            }
            if reaches(g, s as int, v) {
                let p = choose|p: Seq<usize>| #[trigger] is_walk(g, p) && p.len() >= 2 && p[0] == s && p.last() == v;
                assert(has_edge(g, p[0] as int, p[1] as int));
                let k0 = choose|k: int| 0 <= k < g[s as int].len() && #[trigger] g[s as int][k] == p[1];
                assert(seen@[g[s as int][k0] as int]);
                assert forall|u: int, r: int| 0 <= u < g.len() && seen@[u] && 0 <= r < g[u].len() implies #[trigger] seen@[#[trigger] g[u][r] as int] by {
                    assert(queue@.contains(u as usize));
                    let qi = choose|qi: int| 0 <= qi < queue.len() && #[trigger] queue@[qi] == u;
                    assert(seen@[g[queue@[qi] as int][r] as int]);
                }
                lemma_walk_stays(g, p, seen@, p.len() - 1);
            }
        }
    }
    seen
}

/// The neighbours still to be explored on a depth-first-search stack,
/// counting one more for each entry.
pub open spec fn stack_work(g: Seq<Seq<usize>>, st: Seq<(usize, usize)>) -> int
    decreases st.len(),
{
    if st.len() == 0 {
        0
    } else {
        stack_work(g, st.drop_last()) + (g[st.last().0 as int].len() - st.last().1) + 1
    }
}

/// Whether node `x` is on the stack.
pub open spec fn on_stack(st: Seq<(usize, usize)>, x: int) -> bool {
    exists|i: int| 0 <= i < st.len() && #[trigger] st[i].0 == x
}

/// The invariant of the depth-first search: colours (0 unvisited, 1 on the
/// stack, 2 finished), the stack as a path of edges, and the finished nodes
/// closed under successors with decreasing finishing ranks.
pub open spec fn dfs_inv(
    g: Seq<Seq<usize>>,
    color: Seq<u8>,
    st: Seq<(usize, usize)>,
    fin: Seq<int>,
    counter: int,
    vis: Seq<usize>,
) -> bool {
    &&& g.len() <= usize::MAX
    &&& color.len() == g.len()
    &&& fin.len() == g.len()
    &&& forall|x: int| 0 <= x < g.len() ==> #[trigger] color[x] <= 2
    &&& forall|x: int| 0 <= x < g.len() ==> (#[trigger] color[x] == 1 <==> on_stack(st, x))
    &&& forall|x: int| 0 <= x < g.len() ==> (#[trigger] color[x] != 0 <==> vis.contains(x as usize))
    &&& vis.no_duplicates()
    &&& forall|i: int| 0 <= i < vis.len() ==> #[trigger] vis[i] < g.len()
    &&& forall|i: int| 0 <= i < st.len() ==> #[trigger] st[i].0 < g.len() && st[i].1 <= g[st[i].0 as int].len()
    &&& forall|i: int, j: int| 0 <= i < j < st.len() ==> #[trigger] st[i].0 != #[trigger] st[j].0
    &&& forall|i: int| 1 <= i < st.len() ==> #[trigger] has_edge(g, st[i - 1].0 as int, st[i].0 as int)
    &&& forall|i: int| 0 <= i < st.len() - 1 ==> #[trigger] st[i].1 >= 1 && g[st[i].0 as int][st[i].1 - 1] == st[i + 1].0
    &&& forall|i: int, k: int| 0 <= i < st.len() && 0 <= k < st[i].1 && !(i < st.len() - 1 && k == st[i].1 - 1)
        ==> color[#[trigger] g[#[trigger] st[i].0 as int][k] as int] == 2
    &&& forall|u: int, k: int| 0 <= u < g.len() && color[u] == 2 && 0 <= k < g[u].len()
        ==> color[#[trigger] g[u][k] as int] == 2 && fin[g[u][k] as int] < fin[u]
    &&& forall|u: int| 0 <= u < g.len() && #[trigger] color[u] == 2 ==> fin[u] < counter
}

/// The work of a stack whose positions lie within their lists is not
/// negative.
proof fn lemma_work_nonneg(g: Seq<Seq<usize>>, st: Seq<(usize, usize)>)
    requires
        forall|i: int| 0 <= i < st.len() ==> #[trigger] st[i].1 <= g[st[i].0 as int].len(),
    ensures
        stack_work(g, st) >= 0,
    decreases st.len(),
{
    if st.len() > 0 {
        assert forall|i: int| 0 <= i < st.drop_last().len() implies #[trigger] st.drop_last()[i].1 <= g[st.drop_last()[i].0 as int].len() by {
            assert(st.drop_last()[i] == st[i]);
        }
        lemma_work_nonneg(g, st.drop_last());
        assert(st[st.len() - 1].1 <= g[st[st.len() - 1].0 as int].len());
    }
}

/// Replacing the top entry by one with a later position lowers the work.
proof fn lemma_work_advance(g: Seq<Seq<usize>>, st: Seq<(usize, usize)>, e: (usize, usize))
    requires
        st.len() > 0,
        e.0 == st.last().0,
        e.1 == st.last().1 + 1,
    ensures
        stack_work(g, st.update(st.len() - 1, e)) == stack_work(g, st) - 1,
{
    assert(st.update(st.len() - 1, e).drop_last() =~= st.drop_last());
}

/// Advancing past a finished neighbour keeps the invariant.
proof fn lemma_dfs_skip(
    g: Seq<Seq<usize>>,
    color: Seq<u8>,
    st0: Seq<(usize, usize)>,
    fin: Seq<int>,
    counter: int,
    vis: Seq<usize>,
)
    requires
        graph_wf(g),
        dfs_inv(g, color, st0, fin, counter, vis),
        st0.len() > 0,
        st0.last().1 < g[st0.last().0 as int].len() <= usize::MAX,
        color[g[st0.last().0 as int][st0.last().1 as int] as int] == 2,
    ensures
        dfs_inv(g, color, st0.update(st0.len() - 1, (st0.last().0, (st0.last().1 + 1) as usize)), fin, counter, vis),
{
    let top = st0.len() - 1;
    let st = st0.update(top, (st0.last().0, (st0.last().1 + 1) as usize));
    assert forall|i: int, k: int| 0 <= i < st.len() && 0 <= k < st[i].1 && !(i < st.len() - 1 && k == st[i].1 - 1)
        implies color[#[trigger] g[#[trigger] st[i].0 as int][k] as int] == 2 by {
        if i < top {
            assert(st[i] == st0[i]);
        }
    }
    assert forall|x: int| 0 <= x < g.len() implies (#[trigger] color[x] == 1 <==> on_stack(st, x)) by {
        if on_stack(st, x) {
            let i = choose|i: int| 0 <= i < st.len() && #[trigger] st[i].0 == x;
            assert(st0[i].0 == x);
        }
        if on_stack(st0, x) {
            let i = choose|i: int| 0 <= i < st0.len() && #[trigger] st0[i].0 == x;
            assert(st[i].0 == x);
        }
    }
    assert forall|i: int, j: int| 0 <= i < j < st.len() implies #[trigger] st[i].0 != #[trigger] st[j].0 by {
        assert(st[i].0 == st0[i].0 && st[j].0 == st0[j].0);
    }
    assert forall|i: int| 1 <= i < st.len() implies #[trigger] has_edge(g, st[i - 1].0 as int, st[i].0 as int) by {
        assert(st[i - 1].0 == st0[i - 1].0 && st[i].0 == st0[i].0);
    }
}

/// Pushing an unvisited neighbour keeps the invariant.
proof fn lemma_dfs_push(
    g: Seq<Seq<usize>>,
    color: Seq<u8>,
    st0: Seq<(usize, usize)>,
    fin: Seq<int>,
    counter: int,
    vis: Seq<usize>,
)
    requires
        graph_wf(g),
        dfs_inv(g, color, st0, fin, counter, vis),
        st0.len() > 0,
        st0.last().1 < g[st0.last().0 as int].len() <= usize::MAX,
        color[g[st0.last().0 as int][st0.last().1 as int] as int] == 0,
    ensures
        ({
            let next = g[st0.last().0 as int][st0.last().1 as int];
            let st1 = st0.update(st0.len() - 1, (st0.last().0, (st0.last().1 + 1) as usize));
            dfs_inv(g, color.update(next as int, 1), st1.push((next, 0usize)), fin, counter, vis.push(next))
        }),
{
    let top = st0.len() - 1;
    let node = st0.last().0;
    let idx = st0.last().1;
    let next = g[node as int][idx as int];
    let st1 = st0.update(top, (node, (idx + 1) as usize));
    let st = st1.push((next, 0usize));
    let c = color.update(next as int, 1);
    let v = vis.push(next);
    assert(g[node as int].contains(next));
    assert(has_edge(g, node as int, next as int));
    assert(!vis.contains(next));
    assert forall|x: int| 0 <= x < g.len() implies (#[trigger] c[x] != 0 <==> v.contains(x as usize)) by {
        if x != next {
            if v.contains(x as usize) {
                let i = choose|i: int| 0 <= i < v.len() && v[i] == x as usize;
                assert(vis[i] == x as usize);
            }
            if c[x] != 0 {
                let i = choose|i: int| 0 <= i < vis.len() && vis[i] == x as usize;
                assert(v[i] == x as usize);
            }
        } else {
            assert(v[v.len() - 1] == next);
        }
    }
    assert forall|x: int| 0 <= x < g.len() implies (#[trigger] c[x] == 1 <==> on_stack(st, x)) by {
        if x == next {
            assert(st[st.len() - 1].0 == x);
        } else {
            if on_stack(st, x) {
                let i = choose|i: int| 0 <= i < st.len() && #[trigger] st[i].0 == x;
                assert(st0[i].0 == x);
            }
            if c[x] == 1 {
                let i = choose|i: int| 0 <= i < st0.len() && #[trigger] st0[i].0 == x;
                assert(st[i].0 == x);
            }
        }
    }
    assert forall|i: int, j: int| 0 <= i < j < st.len() implies #[trigger] st[i].0 != #[trigger] st[j].0 by {
        assert(st[i].0 == st0[i].0);
        if j == st.len() - 1 {
            if st0[i].0 == next {
                assert(on_stack(st0, next as int));
            }
        } else {
            assert(st[j].0 == st0[j].0);
        }
    }
    assert forall|i: int| 1 <= i < st.len() implies #[trigger] has_edge(g, st[i - 1].0 as int, st[i].0 as int) by {
        assert(st[i - 1].0 == st0[i - 1].0);
        if i < st.len() - 1 {
            assert(st[i].0 == st0[i].0);
        }
    }
    assert(st[top] == (node, (idx + 1) as usize));
    assert(st[top + 1] == (next, 0usize));
    assert forall|i: int| 0 <= i < st.len() - 1 implies #[trigger] st[i].1 >= 1 && g[st[i].0 as int][st[i].1 - 1] == st[i + 1].0 by {
        if i < top {
            assert(st[i] == st0[i]);
            assert(st[i + 1].0 == st0[i + 1].0);
        }
    }
    assert forall|i: int, k: int| 0 <= i < st.len() && 0 <= k < st[i].1 && !(i < st.len() - 1 && k == st[i].1 - 1)
        implies c[#[trigger] g[#[trigger] st[i].0 as int][k] as int] == 2 by {
        if i < top {
            assert(st[i] == st0[i]);
            assert(color[g[st0[i].0 as int][k] as int] == 2);
        }
    }
    assert forall|u: int, k: int| 0 <= u < g.len() && c[u] == 2 && 0 <= k < g[u].len()
        implies c[#[trigger] g[u][k] as int] == 2 && fin[g[u][k] as int] < fin[u] by {
        assert(color[u] == 2);
        assert(color[g[u][k] as int] == 2);
    }
    assert forall|i: int| 0 <= i < st.len() implies #[trigger] st[i].0 < g.len() && st[i].1 <= g[st[i].0 as int].len() by {
        if i < top {
            assert(st[i] == st0[i]);
        }
    }
}

/// Finishing the top node, whose neighbours are all finished, keeps the
/// invariant.
proof fn lemma_dfs_pop(
    g: Seq<Seq<usize>>,
    color: Seq<u8>,
    st0: Seq<(usize, usize)>,
    fin: Seq<int>,
    counter: int,
    vis: Seq<usize>,
)
    requires
        graph_wf(g),
        dfs_inv(g, color, st0, fin, counter, vis),
        st0.len() > 0,
        st0.last().1 == g[st0.last().0 as int].len(),
    ensures
        dfs_inv(g, color.update(st0.last().0 as int, 2), st0.drop_last(), fin.update(st0.last().0 as int, counter), counter + 1, vis),
{
    let top = st0.len() - 1;
    let node = st0.last().0;
    let st = st0.drop_last();
    let c = color.update(node as int, 2);
    let f = fin.update(node as int, counter);
    assert(color[node as int] == 1) by {
        assert(on_stack(st0, node as int));
    }
    assert forall|x: int| 0 <= x < g.len() implies (#[trigger] c[x] != 0 <==> vis.contains(x as usize)) by {
        assert(color[x] != 0 <==> vis.contains(x as usize));
    }
    assert forall|x: int| 0 <= x < g.len() implies (#[trigger] c[x] == 1 <==> on_stack(st, x)) by {
        if x == node {
            if on_stack(st, x) {
                let i = choose|i: int| 0 <= i < st.len() && #[trigger] st[i].0 == x;
                assert(st0[i].0 == st0[top].0);
            }
        } else {
            if on_stack(st, x) {
                let i = choose|i: int| 0 <= i < st.len() && #[trigger] st[i].0 == x;
                assert(st0[i].0 == x);
            }
            if on_stack(st0, x) {
                let i = choose|i: int| 0 <= i < st0.len() && #[trigger] st0[i].0 == x;
                assert(i != top);
                assert(st[i].0 == x);
            }
        }
    }
    assert forall|u: int, k: int| 0 <= u < g.len() && c[u] == 2 && 0 <= k < g[u].len()
        implies c[#[trigger] g[u][k] as int] == 2 && f[g[u][k] as int] < f[u] by {
        if u == node {
            assert(color[g[st0[top].0 as int][k] as int] == 2);
        } else {
            assert(color[u] == 2);
            assert(color[g[u][k] as int] == 2);
        }
    }
    assert forall|i: int, k: int| 0 <= i < st.len() && 0 <= k < st[i].1 && !(i < st.len() - 1 && k == st[i].1 - 1)
        implies c[#[trigger] g[#[trigger] st[i].0 as int][k] as int] == 2 by {
        assert(st[i] == st0[i]);
        if i == st.len() - 1 && k == st[i].1 - 1 {
            assert(g[st0[i].0 as int][st0[i].1 - 1] == st0[i + 1].0);
        } else {
            assert(color[g[st0[i].0 as int][k] as int] == 2);
        }
    }
    assert forall|u: int| 0 <= u < g.len() && #[trigger] c[u] == 2 implies f[u] < counter + 1 by {
        if u != node {
            assert(color[u] == 2);
        }
    }
    assert forall|i: int| 1 <= i < st.len() implies #[trigger] has_edge(g, st[i - 1].0 as int, st[i].0 as int) by {
        assert(st[i - 1] == st0[i - 1] && st[i] == st0[i]);
    }
}

/// An edge from the top of the stack to a node on the stack closes a cycle
/// with the stack from that node on.
proof fn lemma_dfs_cycle(g: Seq<Seq<usize>>, st: Seq<(usize, usize)>, pos: int, next: usize, c: Seq<usize>)
    requires
        0 <= pos < st.len(),
        st[pos].0 == next,
        has_edge(g, st.last().0 as int, next as int),
        forall|i: int| 0 <= i < st.len() ==> #[trigger] st[i].0 < g.len(),
        forall|i: int| 1 <= i < st.len() ==> #[trigger] has_edge(g, st[i - 1].0 as int, st[i].0 as int),
        c.len() == st.len() - pos + 1,
        forall|j: int| 0 <= j < c.len() - 1 ==> #[trigger] c[j] == st[pos + j].0,
        c.last() == next,
    ensures
        is_cycle(g, c),
{
    assert forall|j: int| 0 <= j < c.len() - 1 implies has_edge(g, #[trigger] c[j] as int, c[j + 1] as int) by {
        if j < c.len() - 2 {
            assert(c[j + 1] == st[pos + j + 1].0);
            assert(has_edge(g, st[pos + j + 1 - 1].0 as int, st[pos + j + 1].0 as int));
        } else {
            assert(c[j] == st[st.len() - 1].0);
        }
    }
    assert forall|j: int| 0 <= j < c.len() implies #[trigger] c[j] < g.len() by {
        if j < c.len() - 1 {
            assert(c[j] == st[pos + j].0);
        }
    }
    assert(c[0] == st[pos].0);
}

/// Searches the graph for a cycle by depth-first search, starting from each
/// unvisited node in increasing order and exploring neighbours in list
/// order. The first edge found back to a node on the search stack closes
/// the cycle returned: the stack from that node on, and the node again.
pub fn find_cycle(adj: &Vec<Vec<usize>>) -> (r: Option<Vec<usize>>)
    requires
        graph_wf(adj_view(adj)),
    ensures
        match r {
            Some(c) => is_cycle(adj_view(adj), c@),
            None => acyclic(adj_view(adj)),
        },
{
    let ghost g = adj_view(adj);
    let n = adj.len();
    let mut color: Vec<u8> = Vec::new();
    let mut k: usize = 0;
    while k < n
        invariant
            k <= n,
            n == adj.len(),
            color.len() == k,
            forall|x: int| 0 <= x < k ==> #[trigger] color@[x] == 0,
        decreases n - k,
    {
        color.push(0);
        k = k + 1;
    }
    let ghost mut fin: Seq<int> = Seq::new(n as nat, |x: int| 0);
    let ghost mut counter: int = 0;
    let ghost mut vis: Seq<usize> = Seq::empty();
    let mut s: usize = 0;
    while s < n
        invariant
            n == adj.len(),
            g == adj_view(adj),
            graph_wf(g),
            s <= n,
            dfs_inv(g, color@, Seq::empty(), fin, counter, vis),
            forall|x: int| 0 <= x < s ==> #[trigger] color@[x] == 2,
        decreases n - s,
    {
        if color[s] == 0 {
            let mut stack: Vec<(usize, usize)> = Vec::new();
            proof {
                lemma_dfs_start(g, color@, fin, counter, vis, s);
            }
            color.set(s, 1);
            stack.push((s, 0));
            proof {
                vis = vis.push(s);
            }
            while stack.len() > 0
                invariant
                    n == adj.len(),
                    g == adj_view(adj),
                    graph_wf(g),
                    s < n,
                    dfs_inv(g, color@, stack@, fin, counter, vis),
                    forall|x: int| 0 <= x < s ==> #[trigger] color@[x] == 2,
                    color@[s as int] != 0,
                decreases n - vis.len(), stack_work(g, stack@),
            {
                let top = stack.len() - 1;
                let (node, idx) = stack[top];
                proof {
                    lemma_distinct_bounded(vis, n as int);
                }
                if idx < adj[node].len() {
                    let next = adj[node][idx];
                    let ghost st0 = stack@;
                    proof {
                        assert(g[node as int][idx as int] == next);
                        assert(g[node as int].contains(next));
                        assert(g[node as int].len() == adj[node as int].len());
                    }
                    if color[next] == 0 {
                        proof {
                            lemma_dfs_push(g, color@, st0, fin, counter, vis);
                        }
                        stack.set(top, (node, idx + 1));
                        color.set(next, 1);
                        stack.push((next, 0));
                        proof {
                            vis = vis.push(next);
                            lemma_distinct_bounded(vis, n as int);
                        }
                    } else if color[next] == 1 {
                        // An edge back to a node on the stack closes a cycle.
                        proof {
                            assert(on_stack(stack@, next as int));
                        }
                        let mut pos: usize = 0;
                        while stack[pos].0 != next
                            invariant
                                pos < stack.len(),
                                on_stack(stack@, next as int),
                                forall|i: int| 0 <= i < pos ==> #[trigger] stack@[i].0 != next,
                            decreases stack.len() - pos,
                        {
                            pos = pos + 1;
                            proof {
                                if pos == stack.len() {
                                    let i = choose|i: int| 0 <= i < stack@.len() && #[trigger] stack@[i].0 == next as int;
                                    assert(stack@[i].0 != next);
                                }
                            }
                        }
                        let mut cycle: Vec<usize> = Vec::new();
                        let mut i: usize = pos;
                        while i < stack.len()
                            invariant
                                pos <= i <= stack.len(),
                                cycle@.len() == i - pos,
                                forall|j: int| 0 <= j < cycle@.len() ==> #[trigger] cycle@[j] == stack@[pos + j].0,
                            decreases stack.len() - i,
                        {
                            cycle.push(stack[i].0);
                            i = i + 1;
                        }
                        cycle.push(next);
                        proof {
                            assert(has_edge(g, stack@.last().0 as int, next as int));
                            lemma_dfs_cycle(g, stack@, pos as int, next, cycle@);
                        }
                        return Some(cycle);
                    } else {
                        proof {
                            lemma_dfs_skip(g, color@, st0, fin, counter, vis);
                            lemma_work_advance(g, st0, (node, (idx + 1) as usize));
                        }
                        stack.set(top, (node, idx + 1));
                        proof {
                            lemma_work_nonneg(g, stack@);
                        }
                    }
                } else {
                    // Every neighbour is finished: finish `node`.
                    proof {
                        lemma_dfs_pop(g, color@, stack@, fin, counter, vis);
                        assert(stack_work(g, stack@.drop_last()) < stack_work(g, stack@));
                    }
                    color.set(node, 2);
                    stack.pop();
                    proof {
                        fin = fin.update(node as int, counter);
                        counter = counter + 1;
                        lemma_work_nonneg(g, stack@);
                    }
                }
            }
            proof {
                assert(color@[s as int] == 2) by {
                    assert(!on_stack(stack@, s as int));
                }
            }
        }
        s = s + 1;
    }
    proof {
        assert(ranks_edges(g, fin)) by {
            assert forall|u: int, v: int| #[trigger] has_edge(g, u, v) implies fin[v] < fin[u] by {
                let k = choose|k: int| 0 <= k < g[u].len() && #[trigger] g[u][k] == v as usize;
                assert(color@[u] == 2);
                assert(color@[g[u][k] as int] == 2);
            }
        }
    }
    None
}

/// Starting a search from an unvisited node keeps the invariant.
proof fn lemma_dfs_start(g: Seq<Seq<usize>>, color: Seq<u8>, fin: Seq<int>, counter: int, vis: Seq<usize>, s: usize)
    requires
        graph_wf(g),
        dfs_inv(g, color, Seq::empty(), fin, counter, vis),
        s < g.len(),
        color[s as int] == 0,
    ensures
        dfs_inv(g, color.update(s as int, 1), seq![(s, 0usize)], fin, counter, vis.push(s)),
{
    let c = color.update(s as int, 1);
    let st = seq![(s, 0usize)];
    let v = vis.push(s);
    assert(!vis.contains(s));
    assert forall|x: int| 0 <= x < g.len() implies (#[trigger] c[x] != 0 <==> v.contains(x as usize)) by {
        if x != s {
            if v.contains(x as usize) {
                let i = choose|i: int| 0 <= i < v.len() && v[i] == x as usize;
                assert(vis[i] == x as usize);
            }
            if c[x] != 0 {
                let i = choose|i: int| 0 <= i < vis.len() && vis[i] == x as usize;
                assert(v[i] == x as usize);
            }
        } else {
            assert(v[v.len() - 1] == s);
        }
    }
    assert forall|x: int| 0 <= x < g.len() implies (#[trigger] c[x] == 1 <==> on_stack(st, x)) by {
        if on_stack(st, x) {
            let i = choose|i: int| 0 <= i < st.len() && #[trigger] st[i].0 == x;
        }
        if x == s {
            assert(st[0].0 == x);
        } else {
            assert(color[x] != 1) by {
                if color[x] == 1 {
                    assert(on_stack(Seq::<(usize, usize)>::empty(), x));
                }
            }
        }
    }
    assert forall|u: int, k: int| 0 <= u < g.len() && c[u] == 2 && 0 <= k < g[u].len()
        implies c[#[trigger] g[u][k] as int] == 2 && fin[g[u][k] as int] < fin[u] by {
        assert(color[u] == 2);
        assert(color[g[u][k] as int] == 2);
    }
}

// ── Kahn's topological sort ──────────────────────────────────────────────

/// How many times `v` occurs in `s`.
pub open spec fn count_in(s: Seq<usize>, v: usize) -> nat
    decreases s.len(),
{
    if s.len() == 0 {
        0
    } else {
        count_in(s.drop_last(), v) + if s.last() == v { 1nat } else { 0nat }
    }
}

/// The entries naming `v` in the lists of the nodes below `m` that are not
/// yet done: the in-degree of `v` from the undone nodes.
pub open spec fn pending(g: Seq<Seq<usize>>, done: Seq<bool>, v: usize, m: int) -> nat
    decreases m,
{
    if m <= 0 {
        0
    } else {
        pending(g, done, v, m - 1) + if done[m - 1] { 0nat } else { count_in(g[m - 1], v) }
    }
}

/// The number of adjacency entries of the nodes below `m`.
pub open spec fn entries_below(g: Seq<Seq<usize>>, m: int) -> nat
    decreases m,
{
    if m <= 0 {
        0
    } else {
        entries_below(g, m - 1) + g[m - 1].len()
    }
}

/// The number of adjacency entries of the graph.
pub open spec fn total_entries(g: Seq<Seq<usize>>) -> nat {
    entries_below(g, g.len() as int)
}

proof fn lemma_count_bounds(s: Seq<usize>, v: usize)
    ensures
        count_in(s, v) <= s.len(),
        count_in(s, v) == 0 <==> !s.contains(v),
    decreases s.len(),
{
    if s.len() > 0 {
        lemma_count_bounds(s.drop_last(), v);
        if s.drop_last().contains(v) {
            let i = choose|i: int| 0 <= i < s.drop_last().len() && s.drop_last()[i] == v;
            assert(s[i] == v);
        }
        if s.contains(v) && s.last() != v {
            let i = choose|i: int| 0 <= i < s.len() && s[i] == v;
            assert(s.drop_last()[i] == v);
        }
    }
}

proof fn lemma_count_prefix(s: Seq<usize>, v: usize, k: int)
    requires
        0 <= k < s.len(),
    ensures
        count_in(s.take(k + 1), v) == count_in(s.take(k), v) + if s[k] == v { 1nat } else { 0nat },
        count_in(s.take(k + 1), v) <= count_in(s, v),
    decreases s.len() - k,
{
    assert(s.take(k + 1).drop_last() =~= s.take(k));
    if k + 1 < s.len() {
        lemma_count_prefix(s, v, k + 1);
    } else {
        assert(s.take(k + 1) =~= s);
    }
}

proof fn lemma_pending_done(g: Seq<Seq<usize>>, done: Seq<bool>, x: int, v: usize, m: int)
    requires
        0 <= x < done.len(),
        !done[x],
        m <= done.len(),
    ensures
        pending(g, done, v, m) == pending(g, done.update(x, true), v, m) + if x < m { count_in(g[x], v) } else { 0nat },
    decreases m,
{
    if m > 0 {
        lemma_pending_done(g, done, x, v, m - 1);
    }
}

proof fn lemma_pending_zero(g: Seq<Seq<usize>>, done: Seq<bool>, v: usize, m: int)
    requires
        m <= g.len(),
        m <= done.len(),
    ensures
        pending(g, done, v, m) == 0 <==> forall|u: int| 0 <= u < m && !done[u] ==> !#[trigger] g[u].contains(v),
    decreases m,
{
    if m > 0 {
        lemma_pending_zero(g, done, v, m - 1);
        lemma_count_bounds(g[m - 1], v);
    }
}

proof fn lemma_pending_bound(g: Seq<Seq<usize>>, done: Seq<bool>, v: usize, m: int)
    ensures
        pending(g, done, v, m) <= entries_below(g, m),
    decreases m,
{
    if m > 0 {
        lemma_pending_bound(g, done, v, m - 1);
        lemma_count_bounds(g[m - 1], v);
    }
}

/// Whether every predecessor of each node of `order` comes earlier in it.
pub open spec fn preds_before(g: Seq<Seq<usize>>, order: Seq<usize>) -> bool {
    forall|i: int, u: int| 0 <= i < order.len() && #[trigger] has_edge(g, u, order[i] as int)
        ==> exists|j: int| 0 <= j < i && #[trigger] order[j] == u as usize
}

/// Whether no edge leads from a later node of `order` to an earlier one.
pub open spec fn is_topological(g: Seq<Seq<usize>>, order: Seq<usize>) -> bool {
    forall|i: int, j: int| 0 <= i < j < order.len() ==> !has_edge(g, #[trigger] order[j] as int, #[trigger] order[i] as int)
}

proof fn lemma_preds_before_topological(g: Seq<Seq<usize>>, order: Seq<usize>)
    requires
        preds_before(g, order),
        order.no_duplicates(),
    ensures
        is_topological(g, order),
{
    assert forall|i: int, j: int| 0 <= i < j < order.len() implies !has_edge(g, #[trigger] order[j] as int, #[trigger] order[i] as int) by {
        if has_edge(g, order[j] as int, order[i] as int) {
            let k = choose|k: int| 0 <= k < i && #[trigger] order[k] == order[j];
        }
    }
}

/// The state of Kahn's algorithm: `queue[..head]` is the order produced so
/// far, `queue[head..]` the undone nodes of in-degree zero, `indeg` the
/// in-degree of each node from the undone nodes.
pub open spec fn kahn_inv(g: Seq<Seq<usize>>, indeg: Seq<usize>, queue: Seq<usize>, head: int, done: Seq<bool>, pos: Seq<int>) -> bool {
    &&& graph_wf(g)
    &&& g.len() <= usize::MAX
    &&& indeg.len() == g.len()
    &&& done.len() == g.len()
    &&& pos.len() == g.len()
    &&& 0 <= head <= queue.len()
    &&& queue.no_duplicates()
    &&& forall|i: int| 0 <= i < queue.len() ==> #[trigger] queue[i] < g.len()
    &&& forall|v: int| 0 <= v < g.len() ==> #[trigger] indeg[v] == pending(g, done, v as usize, g.len() as int)
    &&& forall|i: int| 0 <= i < queue.len() ==> (#[trigger] done[queue[i] as int] <==> i < head)
    &&& forall|i: int| 0 <= i < head ==> #[trigger] pos[queue[i] as int] == i
    &&& forall|v: int| 0 <= v < g.len() && #[trigger] done[v] ==> queue.take(head).contains(v as usize)
    &&& forall|i: int| head <= i < queue.len() ==> #[trigger] indeg[queue[i] as int] == 0
    &&& forall|v: int| 0 <= v < g.len() && !done[v] && #[trigger] indeg[v] == 0 ==> queue.subrange(head, queue.len() as int).contains(v as usize)
    &&& preds_before(g, queue.take(head))
}

proof fn lemma_entries_mono(g: Seq<Seq<usize>>, a: int, b: int)
    requires
        0 <= a <= b,
    ensures
        entries_below(g, a) <= entries_below(g, b),
    decreases b - a,
{
    if a < b {
        lemma_entries_mono(g, a, b - 1);
    }
}

/// A sequence of distinct integers all in a finite set is no longer than
/// the set.
proof fn lemma_distinct_in_set(q: Seq<usize>, s: Set<int>)
    requires
        q.no_duplicates(),
        s.finite(),
        forall|i: int| 0 <= i < q.len() ==> s.contains(#[trigger] q[i] as int),
    ensures
        q.len() <= s.len(),
{
    let qi = q.map_values(|x: usize| x as int);
    assert(qi.no_duplicates()) by {
        assert forall|i: int, j: int| 0 <= i < qi.len() && 0 <= j < qi.len() && i != j implies qi[i] != qi[j] by {
            assert(q[i] != q[j]);
        }
    }
    qi.unique_seq_to_set();
    assert(qi.to_set().subset_of(s)) by {
        assert forall|x: int| qi.to_set().contains(x) implies s.contains(x) by {
            let i = choose|i: int| 0 <= i < qi.len() && qi[i] == x;
            assert(s.contains(q[i] as int));
        }
    }
    vstd::set_lib::lemma_len_subset(qi.to_set(), s);
}

/// A sequence of `n` distinct nodes below `n` holds every node below `n`.
pub proof fn lemma_distinct_full(q: Seq<usize>, n: int, v: int)
    requires
        q.no_duplicates(),
        q.len() == n,
        forall|i: int| 0 <= i < q.len() ==> #[trigger] q[i] < n,
        0 <= v < n,
    ensures
        q.contains(v as usize),
{
    if !q.contains(v as usize) {
        let s = vstd::set_lib::set_int_range(0, n).remove(v);
        vstd::set_lib::lemma_int_range(0, n);
        assert forall|i: int| 0 <= i < q.len() implies s.contains(#[trigger] q[i] as int) by {
            assert(q[i] != v as usize);
        }
        lemma_distinct_in_set(q, s);
    }
}

/// Whether node `v` is absent from `q`.
pub open spec fn missing(q: Seq<usize>, v: int) -> bool {
    !q.contains(v as usize)
}

/// Whether `rank` decreases along every edge into a node outside `rem`.
pub open spec fn ranks_outside(g: Seq<Seq<usize>>, rem: Seq<usize>, rank: Seq<int>) -> bool {
    &&& rank.len() == g.len()
    &&& forall|u: int, v: int| #[trigger] has_edge(g, u, v) && !rem.contains(v as usize) ==> rank[v] < rank[u]
}

/// What Kahn's algorithm leaves when the graph has a cycle: the nodes, in
/// increasing order, that kept incoming edges. Each of them has a
/// predecessor among them, every successor of one of them is one of them,
/// and the other nodes are ranked by the order in which they were taken.
pub open spec fn kahn_remainder(g: Seq<Seq<usize>>, rem: Seq<usize>) -> bool {
    &&& rem.len() > 0
    &&& forall|i: int| 0 <= i < rem.len() ==> #[trigger] rem[i] < g.len()
    &&& forall|i: int, j: int| 0 <= i < j < rem.len() ==> #[trigger] rem[i] < #[trigger] rem[j]
    &&& forall|i: int| 0 <= i < rem.len() ==> #[trigger] has_pred_in(g, rem, rem[i] as int)
    &&& forall|u: int, v: int| #[trigger] has_edge(g, u, v) && rem.contains(u as usize) ==> rem.contains(v as usize)
    &&& exists|rank: Seq<int>| #[trigger] ranks_outside(g, rem, rank)
}

/// The state of Kahn's algorithm while the out-edges of `x`, the node last
/// taken, are removed up to position `t`.
pub open spec fn kahn_step_inv(
    g: Seq<Seq<usize>>,
    indeg: Seq<usize>,
    queue: Seq<usize>,
    head: int,
    done: Seq<bool>,
    pos: Seq<int>,
    x: usize,
    t: int,
) -> bool {
    &&& graph_wf(g)
    &&& g.len() <= usize::MAX
    &&& indeg.len() == g.len()
    &&& done.len() == g.len()
    &&& pos.len() == g.len()
    &&& 1 <= head <= queue.len()
    &&& queue[head - 1] == x
    &&& 0 <= t <= g[x as int].len()
    &&& queue.no_duplicates()
    &&& forall|i: int| 0 <= i < queue.len() ==> #[trigger] queue[i] < g.len()
    &&& forall|v: int| 0 <= v < g.len() ==> #[trigger] indeg[v] + count_in(g[x as int].take(t), v as usize)
        == pending(g, done, v as usize, g.len() as int) + count_in(g[x as int], v as usize)
    &&& forall|i: int| 0 <= i < queue.len() ==> (#[trigger] done[queue[i] as int] <==> i < head)
    &&& forall|i: int| 0 <= i < head ==> #[trigger] pos[queue[i] as int] == i
    &&& forall|v: int| 0 <= v < g.len() && #[trigger] done[v] ==> queue.take(head).contains(v as usize)
    &&& forall|i: int| head <= i < queue.len() ==> #[trigger] indeg[queue[i] as int] == 0
    &&& forall|v: int| 0 <= v < g.len() && !done[v] && #[trigger] indeg[v] == 0 ==> queue.subrange(head, queue.len() as int).contains(v as usize)
    &&& preds_before(g, queue.take(head))
}

/// A done node has every predecessor done.
proof fn lemma_done_preds(g: Seq<Seq<usize>>, queue: Seq<usize>, head: int, done: Seq<bool>, v: int, u: int)
    requires
        0 <= head <= queue.len(),
        preds_before(g, queue.take(head)),
        forall|i: int| 0 <= i < queue.len() ==> (#[trigger] done[queue[i] as int] <==> i < head),
        done.len() == g.len(),
        g.len() <= usize::MAX,
        0 <= v < g.len(),
        done[v],
        queue.take(head).contains(v as usize),
        has_edge(g, u, v),
    ensures
        done[u],
        exists|j: int, i: int| 0 <= j < i < head && queue[j] == u as usize && queue[i] == v as usize,
{
    let q = queue.take(head);
    let i = choose|i: int| 0 <= i < q.len() && q[i] == v as usize;
    assert(has_edge(g, u, q[i] as int));
    let j = choose|j: int| 0 <= j < i && #[trigger] q[j] == u as usize;
    assert(queue[j] == u as usize);
    assert(queue[i] == v as usize);
    assert(done[queue[j] as int]);
}

/// Taking the next node of in-degree zero from the queue.
proof fn lemma_kahn_take(g: Seq<Seq<usize>>, indeg: Seq<usize>, queue: Seq<usize>, head: int, done: Seq<bool>, pos: Seq<int>)
    requires
        kahn_inv(g, indeg, queue, head, done, pos),
        head < queue.len(),
        g.len() <= usize::MAX,
    ensures
        !done[queue[head] as int],
        kahn_step_inv(g, indeg, queue, head + 1, done.update(queue[head] as int, true), pos.update(queue[head] as int, head), queue[head], 0),
{
    let x = queue[head];
    let n = g.len() as int;
    let d2 = done.update(x as int, true);
    let p2 = pos.update(x as int, head);
    assert forall|v: int| 0 <= v < n implies #[trigger] indeg[v] + count_in(g[x as int].take(0), v as usize)
        == pending(g, d2, v as usize, n) + count_in(g[x as int], v as usize) by {
        lemma_pending_done(g, done, x as int, v as usize, n);
        assert(g[x as int].take(0) =~= Seq::<usize>::empty());
    }
    assert forall|i: int| 0 <= i < queue.len() implies (#[trigger] d2[queue[i] as int] <==> i < head + 1) by {
        if i != head {
            assert(queue[i] != queue[head]);
        }
    }
    assert forall|i: int| 0 <= i < head + 1 implies #[trigger] p2[queue[i] as int] == i by {
        if i != head {
            assert(queue[i] != queue[head]);
        }
    }
    assert forall|v: int| 0 <= v < n && #[trigger] d2[v] implies queue.take(head + 1).contains(v as usize) by {
        if v == x as int {
            assert(queue.take(head + 1)[head] == x);
        } else {
            let i = choose|i: int| 0 <= i < queue.take(head).len() && queue.take(head)[i] == v as usize;
            assert(queue.take(head + 1)[i] == v as usize);
        }
    }
    assert forall|v: int| 0 <= v < n && !d2[v] && #[trigger] indeg[v] == 0 implies queue.subrange(head + 1, queue.len() as int).contains(v as usize) by {
        let sr = queue.subrange(head, queue.len() as int);
        let i = choose|i: int| 0 <= i < sr.len() && sr[i] == v as usize;
        assert(i != 0);
        assert(queue.subrange(head + 1, queue.len() as int)[i - 1] == v as usize);
    }
    // Every predecessor of `x` is done, since its in-degree is zero.
    lemma_pending_zero(g, done, x, n);
    let q1 = queue.take(head + 1);
    assert forall|i: int, u: int| 0 <= i < q1.len() && #[trigger] has_edge(g, u, q1[i] as int)
        implies exists|j: int| 0 <= j < i && #[trigger] q1[j] == u as usize by {
        if i < head {
            assert(queue.take(head)[i] == q1[i]);
            assert(has_edge(g, u, queue.take(head)[i] as int));
            let j = choose|j: int| 0 <= j < i && #[trigger] queue.take(head)[j] == u as usize;
            assert(q1[j] == u as usize);
        } else {
            assert(q1[i] == x);
            assert(g[u].contains(x));
            assert(queue[head] == x);
            assert(indeg[queue[head] as int] == 0);
            assert(indeg[x as int] == pending(g, done, x, n));
            assert(done[u]);
            let k = choose|k: int| 0 <= k < queue.take(head).len() && queue.take(head)[k] == u as usize;
            assert(q1[k] == u as usize);
        }
    }
    assert(queue.take(head + 1) =~= q1);
}

/// Removing the edge from `x` at position `t`.
proof fn lemma_kahn_step(
    g: Seq<Seq<usize>>,
    indeg: Seq<usize>,
    queue: Seq<usize>,
    head: int,
    done: Seq<bool>,
    pos: Seq<int>,
    x: usize,
    t: int,
)
    requires
        kahn_step_inv(g, indeg, queue, head, done, pos, x, t),
        t < g[x as int].len(),
    ensures
        ({
            let w = g[x as int][t];
            &&& indeg[w as int] >= 1
            &&& kahn_step_inv(
                g,
                indeg.update(w as int, (indeg[w as int] - 1) as usize),
                if indeg[w as int] == 1 { queue.push(w) } else { queue },
                head,
                done,
                pos,
                x,
                t + 1,
            )
        }),
{
    let n = g.len() as int;
    let w = g[x as int][t];
    lemma_count_prefix(g[x as int], w, t);
    assert(count_in(g[x as int].take(t + 1), w) == count_in(g[x as int].take(t), w) + 1);
    assert(indeg[w as int] >= 1);
    // `w` is not done: `x` would otherwise precede it in the order.
    assert(g[x as int].contains(w));
    assert(has_edge(g, x as int, w as int));
    if done[w as int] {
        assert(queue.take(head).contains(w));
        lemma_done_preds(g, queue, head, done, w as int, x as int);
        let (j, i) = choose|j: int, i: int| 0 <= j < i < head && queue[j] == x && queue[i] == w;
        assert(queue[j] == queue[head - 1]);
    }
    let ind2 = indeg.update(w as int, (indeg[w as int] - 1) as usize);
    let q2 = if indeg[w as int] == 1 { queue.push(w) } else { queue };
    // `w` is not queued: it is not done and its in-degree is not zero.
    assert(!queue.contains(w)) by {
        if queue.contains(w) {
            let i = choose|i: int| 0 <= i < queue.len() && queue[i] == w;
            if i < head {
                assert(done[queue[i] as int]);
            } else {
                assert(indeg[queue[i] as int] == 0);
            }
        }
    }
    assert forall|v: int| 0 <= v < n implies #[trigger] ind2[v] + count_in(g[x as int].take(t + 1), v as usize)
        == pending(g, done, v as usize, n) + count_in(g[x as int], v as usize) by {
        lemma_count_prefix(g[x as int], v as usize, t);
    }
    assert(q2.no_duplicates()) by {
        if indeg[w as int] == 1 {
            assert forall|i: int, j: int| 0 <= i < q2.len() && 0 <= j < q2.len() && i != j implies q2[i] != q2[j] by {
                if j == q2.len() - 1 && i < queue.len() {
                    assert(queue[i] != w);
                } else if i == q2.len() - 1 && j < queue.len() {
                    assert(queue[j] != w);
                }
            }
        }
    }
    assert(q2.take(head) =~= queue.take(head));
    assert forall|i: int| 0 <= i < q2.len() implies (#[trigger] done[q2[i] as int] <==> i < head) by {
        if i == queue.len() {
            assert(q2[i] == w);
        }
    }
    assert forall|i: int| 0 <= i < head implies #[trigger] pos[q2[i] as int] == i by {
        assert(q2[i] == queue[i]);
    }
    assert forall|i: int| head <= i < q2.len() implies #[trigger] ind2[q2[i] as int] == 0 by {
        if i < queue.len() {
            assert(queue[i] != w);
        }
    }
    assert forall|v: int| 0 <= v < n && !done[v] && #[trigger] ind2[v] == 0 implies q2.subrange(head, q2.len() as int).contains(v as usize) by {
        if v == w as int {
            assert(q2.subrange(head, q2.len() as int)[q2.len() - 1 - head] == w);
        } else {
            let sr = queue.subrange(head, queue.len() as int);
            let i = choose|i: int| 0 <= i < sr.len() && sr[i] == v as usize;
            assert(q2.subrange(head, q2.len() as int)[i] == v as usize);
        }
    }
    assert forall|i: int| 0 <= i < q2.len() implies #[trigger] q2[i] < n by {
        if i == queue.len() {
            assert(q2[i] == w);
        }
    }
}

/// Once every out-edge of `x` is removed, the main invariant holds again.
proof fn lemma_kahn_step_done(g: Seq<Seq<usize>>, indeg: Seq<usize>, queue: Seq<usize>, head: int, done: Seq<bool>, pos: Seq<int>, x: usize)
    requires
        kahn_step_inv(g, indeg, queue, head, done, pos, x, g[x as int].len() as int),
    ensures
        kahn_inv(g, indeg, queue, head, done, pos),
{
    assert(g[x as int].take(g[x as int].len() as int) =~= g[x as int]);
}

/// When the queue is exhausted: the order holds at most `n` nodes, and if
/// it holds all of them it is topological and the graph acyclic.
proof fn lemma_kahn_end(g: Seq<Seq<usize>>, indeg: Seq<usize>, queue: Seq<usize>, head: int, done: Seq<bool>, pos: Seq<int>)
    requires
        kahn_inv(g, indeg, queue, head, done, pos),
        head == queue.len(),
    ensures
        queue.len() <= g.len(),
        queue.len() == g.len() ==> is_topological(g, queue) && acyclic(g),
        queue.len() < g.len() ==> exists|v: int| 0 <= v < g.len() && #[trigger] indeg[v] > 0,
{
    let n = g.len() as int;
    lemma_distinct_bounded(queue, n);
    assert(queue.take(head) =~= queue);
    if queue.len() == n {
        lemma_preds_before_topological(g, queue);
        let rank = Seq::new(n as nat, |v: int| -pos[v]);
        assert forall|u: int, v: int| #[trigger] has_edge(g, u, v) implies rank[v] < rank[u] by {
            lemma_distinct_full(queue, n, v);
            let i = choose|i: int| 0 <= i < queue.len() && queue[i] == v as usize;
            assert(done[v]);
            lemma_done_preds(g, queue, head, done, v, u);
            let (j2, i2) = choose|j2: int, i2: int| 0 <= j2 < i2 < head && queue[j2] == u as usize && queue[i2] == v as usize;
            assert(pos[queue[j2] as int] == j2);
            assert(pos[queue[i2] as int] == i2);
        }
        assert(ranks_edges(g, rank));
    } else {
        assert(exists|v: int| 0 <= v < n && #[trigger] missing(queue, v)) by {
            if forall|v: int| 0 <= v < n ==> !#[trigger] missing(queue, v) {
                let s = vstd::set_lib::set_int_range(0, n);
                vstd::set_lib::lemma_int_range(0, n);
                // The queue would hold `n` distinct values.
                let qi = queue.map_values(|x: usize| x as int);
                assert(s.subset_of(qi.to_set())) by {
                    assert forall|y: int| s.contains(y) implies qi.to_set().contains(y) by {
                        assert(!missing(queue, y));
                        let i = choose|i: int| 0 <= i < queue.len() && queue[i] == y as usize;
                        assert(qi[i] == y);
                    }
                }
                assert(qi.no_duplicates()) by {
                    assert forall|i: int, j: int| 0 <= i < qi.len() && 0 <= j < qi.len() && i != j implies qi[i] != qi[j] by {
                        assert(queue[i] != queue[j]);
                    }
                }
                qi.unique_seq_to_set();
                vstd::set_lib::lemma_len_subset(s, qi.to_set());
            }
        }
        let v = choose|v: int| 0 <= v < n && #[trigger] missing(queue, v);
        assert(!done[v]) by {
            if done[v] {
                assert(queue.take(head).contains(v as usize));
            }
        }
        if indeg[v] == 0 {
            assert(queue.subrange(head, queue.len() as int).len() == 0);
        }
    }
}

/// The nodes left with incoming edges when the order is incomplete.
proof fn lemma_kahn_remainder(g: Seq<Seq<usize>>, indeg: Seq<usize>, queue: Seq<usize>, head: int, done: Seq<bool>, pos: Seq<int>, rem: Seq<usize>)
    requires
        kahn_inv(g, indeg, queue, head, done, pos),
        head == queue.len(),
        exists|v: int| 0 <= v < g.len() && #[trigger] indeg[v] > 0,
        forall|i: int| 0 <= i < rem.len() ==> #[trigger] rem[i] < g.len() && indeg[rem[i] as int] > 0,
        forall|i: int, j: int| 0 <= i < j < rem.len() ==> #[trigger] rem[i] < #[trigger] rem[j],
        forall|y: int| 0 <= y < g.len() && #[trigger] indeg[y] > 0 ==> rem.contains(y as usize),
    ensures
        kahn_remainder(g, rem),
        !acyclic(g),
{
    let n = g.len() as int;
    assert(queue.take(head) =~= queue);
    // A node is outside the remainder exactly when it is done.
    assert forall|v: int| 0 <= v < n implies (rem.contains(v as usize) <==> !#[trigger] done[v]) by {
        if rem.contains(v as usize) {
            let i = choose|i: int| 0 <= i < rem.len() && rem[i] == v as usize;
            if done[v] {
                lemma_pending_zero(g, done, v as usize, n);
                assert forall|u: int| 0 <= u < n && !done[u] implies !#[trigger] g[u].contains(v as usize) by {
                    if g[u].contains(v as usize) {
                        lemma_done_preds(g, queue, head, done, v, u);
                    }
                }
            }
        } else {
            if !done[v] {
                if indeg[v] == 0 {
                    assert(queue.subrange(head, queue.len() as int).len() == 0);
                }
            }
        }
    }
    let v0 = choose|v: int| 0 <= v < g.len() && #[trigger] indeg[v] > 0;
    assert(rem.contains(v0 as usize));
    assert forall|i: int| 0 <= i < rem.len() implies #[trigger] has_pred_in(g, rem, rem[i] as int) by {
        let r = rem[i] as int;
        lemma_pending_zero(g, done, r as usize, n);
        let u = choose|u: int| 0 <= u < n && !done[u] && #[trigger] g[u].contains(r as usize);
        assert(rem.contains(u as usize));
        let j = choose|j: int| 0 <= j < rem.len() && rem[j] == u as usize;
        assert(has_edge(g, rem[j] as int, r));
    }
    assert forall|u: int, v: int| #[trigger] has_edge(g, u, v) && rem.contains(u as usize) implies rem.contains(v as usize) by {
        if !rem.contains(v as usize) {
            assert(done[v]);
            lemma_done_preds(g, queue, head, done, v, u);
        }
    }
    let rank = Seq::new(n as nat, |v: int| -pos[v]);
    assert forall|u: int, v: int| #[trigger] has_edge(g, u, v) && !rem.contains(v as usize) implies rank[v] < rank[u] by {
        assert(done[v]);
        lemma_done_preds(g, queue, head, done, v, u);
        let (j2, i2) = choose|j2: int, i2: int| 0 <= j2 < i2 < head && queue[j2] == u as usize && queue[i2] == v as usize;
        assert(pos[queue[j2] as int] == j2);
        assert(pos[queue[i2] as int] == i2);
    }
    assert(ranks_outside(g, rem, rank));
    lemma_pred_closed_not_acyclic(g, rem);
}

/// Kahn's topological sort: nodes of in-degree zero are queued in
/// increasing order; each node taken from the queue is appended to the
/// order and its out-edges removed, queueing each neighbour whose
/// in-degree drops to zero. The order is returned if it holds every node;
/// otherwise the nodes left with incoming edges, in increasing order.
pub fn kahn(adj: &Vec<Vec<usize>>) -> (r: Result<Vec<usize>, Vec<usize>>)
    requires
        graph_wf(adj_view(adj)),
        total_entries(adj_view(adj)) <= usize::MAX,
    ensures
        r is Ok <==> acyclic(adj_view(adj)),
        r matches Ok(order) ==> {
            &&& order@.len() == adj.len()
            &&& order@.no_duplicates()
            &&& forall|i: int| 0 <= i < order@.len() ==> #[trigger] order@[i] < adj.len()
            &&& is_topological(adj_view(adj), order@)
        },
        r matches Err(rem) ==> kahn_remainder(adj_view(adj), rem@),
{
    let ghost g = adj_view(adj);
    let n = adj.len();
    let mut indeg: Vec<usize> = Vec::new();
    let mut k: usize = 0;
    while k < n
        invariant
            k <= n,
            n == adj.len(),
            indeg.len() == k,
            forall|x: int| 0 <= x < k ==> #[trigger] indeg@[x] == 0,
        decreases n - k,
    {
        indeg.push(0);
        k = k + 1;
    }
    let ghost done0: Seq<bool> = Seq::new(n as nat, |x: int| false);
    let mut u: usize = 0;
    while u < n
        invariant
            n == adj.len(),
            g == adj_view(adj),
            graph_wf(g),
            total_entries(g) <= usize::MAX,
            u <= n,
            indeg.len() == n,
            done0.len() == n,
            forall|x: int| 0 <= x < n ==> !#[trigger] done0[x],
            forall|v: int| 0 <= v < n ==> #[trigger] indeg@[v] == pending(g, done0, v as usize, u as int),
        decreases n - u,
    {
        let mut j: usize = 0;
        while j < adj[u].len()
            invariant
                n == adj.len(),
                g == adj_view(adj),
                graph_wf(g),
                total_entries(g) <= usize::MAX,
                u < n,
                j <= g[u as int].len(),
                indeg.len() == n,
                done0.len() == n,
                forall|x: int| 0 <= x < n ==> !#[trigger] done0[x],
                forall|v: int| 0 <= v < n ==> #[trigger] indeg@[v] == pending(g, done0, v as usize, u as int) + count_in(g[u as int].take(j as int), v as usize),
            decreases g[u as int].len() - j,
        {
            let v = adj[u][j];
            proof {
                assert(g[u as int][j as int] == v);
                assert forall|w: int| 0 <= w < n implies #[trigger] count_in(g[u as int].take(j as int + 1), w as usize) == count_in(g[u as int].take(j as int), w as usize) + if g[u as int][j as int] == w as usize { 1nat } else { 0nat } by {
                    lemma_count_prefix(g[u as int], w as usize, j as int);
                }
                lemma_count_prefix(g[u as int], v, j as int);
                lemma_count_bounds(g[u as int], v);
                lemma_pending_bound(g, done0, v, u as int + 1);
                lemma_entries_mono(g, u as int + 1, n as int);
                assert(pending(g, done0, v, u as int + 1) == pending(g, done0, v, u as int) + count_in(g[u as int], v));
            }
            indeg.set(v, indeg[v] + 1);
            j = j + 1;
        }
        proof {
            assert(g[u as int].take(g[u as int].len() as int) =~= g[u as int]);
        }
        u = u + 1;
    }
    let mut queue: Vec<usize> = Vec::new();
    let mut v: usize = 0;
    while v < n
        invariant
            n == adj.len(),
            v <= n,
            indeg.len() == n,
            queue@.no_duplicates(),
            forall|i: int| 0 <= i < queue.len() ==> #[trigger] queue@[i] < v,
            forall|i: int| 0 <= i < queue.len() ==> #[trigger] indeg@[queue@[i] as int] == 0,
            forall|x: int| 0 <= x < v && #[trigger] indeg@[x] == 0 ==> queue@.contains(x as usize),
        decreases n - v,
    {
        if indeg[v] == 0 {
            let ghost q0 = queue@;
            queue.push(v);
            proof {
                assert forall|x: int| 0 <= x < v + 1 && #[trigger] indeg@[x] == 0 implies queue@.contains(x as usize) by {
                    if x < v {
                        let i = choose|i: int| 0 <= i < q0.len() && q0[i] == x as usize;
                        assert(queue@[i] == x as usize);
                    } else {
                        assert(queue@[queue.len() - 1] == x as usize);
                    }
                }
            }
        }
        v = v + 1;
    }
    let ghost mut done: Seq<bool> = done0;
    let ghost mut pos: Seq<int> = Seq::new(n as nat, |x: int| 0);
    let mut head: usize = 0;
    proof {
        assert(queue@.subrange(0, queue.len() as int) =~= queue@);
        assert(queue@.take(0) =~= Seq::<usize>::empty());
        assert(kahn_inv(g, indeg@, queue@, 0, done, pos));
    }
    while head < queue.len()
        invariant
            n == adj.len(),
            g == adj_view(adj),
            kahn_inv(g, indeg@, queue@, head as int, done, pos),
        decreases n - head,
    {
        proof {
            lemma_distinct_bounded(queue@, n as int);
        }
        let x = queue[head];
        let ghost done_old = done;
        proof {
            lemma_kahn_take(g, indeg@, queue@, head as int, done, pos);
            done = done.update(x as int, true);
            pos = pos.update(x as int, head as int);
        }
        head = head + 1;
        let mut t: usize = 0;
        while t < adj[x].len()
            invariant
                n == adj.len(),
                g == adj_view(adj),
                x < n,
                t <= g[x as int].len(),
                head <= queue.len(),
                queue@[head - 1] == x,
                !done_old[x as int],
                done == done_old.update(x as int, true),
                kahn_step_inv(g, indeg@, queue@, head as int, done, pos, x, t as int),
            decreases g[x as int].len() - t,
        {
            let w = adj[x][t];
            proof {
                assert(g[x as int][t as int] == w);
                lemma_kahn_step(g, indeg@, queue@, head as int, done, pos, x, t as int);
            }
            indeg.set(w, indeg[w] - 1);
            if indeg[w] == 0 {
                queue.push(w);
            }
            t = t + 1;
        }
        proof {
            lemma_kahn_step_done(g, indeg@, queue@, head as int, done, pos, x);
        }
    }
    proof {
        lemma_kahn_end(g, indeg@, queue@, head as int, done, pos);
    }
    if queue.len() == n {
        Ok(queue)
    } else {
        let mut rem: Vec<usize> = Vec::new();
        let mut v: usize = 0;
        while v < n
            invariant
                n == adj.len(),
                v <= n,
                indeg.len() == n,
                rem@.len() <= v,
                forall|i: int| 0 <= i < rem@.len() ==> #[trigger] rem@[i] < v && indeg@[rem@[i] as int] > 0,
                forall|i: int, j: int| 0 <= i < j < rem@.len() ==> #[trigger] rem@[i] < #[trigger] rem@[j],
                forall|y: int| 0 <= y < v && #[trigger] indeg@[y] > 0 ==> rem@.contains(y as usize),
            decreases n - v,
        {
            if indeg[v] > 0 {
                let ghost r0 = rem@;
                rem.push(v);
                proof {
                    assert forall|y: int| 0 <= y < v + 1 && #[trigger] indeg@[y] > 0 implies rem@.contains(y as usize) by {
                        if y < v {
                            let i = choose|i: int| 0 <= i < r0.len() && r0[i] == y as usize;
                            assert(rem@[i] == y as usize);
                        } else {
                            assert(rem@[rem@.len() - 1] == y as usize);
                        }
                    }
                }
            }
            v = v + 1;
        }
        proof {
            lemma_kahn_remainder(g, indeg@, queue@, head as int, done, pos, rem@);
        }
        Err(rem)
    }
}

// ── Building adjacency lists ─────────────────────────────────────────────

/// Adding an entry to one list adds one to the entry count.
pub proof fn lemma_entries_push(g: Seq<Seq<usize>>, u: int, x: usize, m: int)
    requires
        0 <= u < g.len(),
        m <= g.len(),
    ensures
        entries_below(g.update(u, g[u].push(x)), m) == entries_below(g, m) + if u < m { 1nat } else { 0nat },
    decreases m,
{
    if m > 0 {
        lemma_entries_push(g, u, x, m - 1);
    }
}

/// Replacing a list by one of the same length keeps the entry count.
pub proof fn lemma_entries_same_len(g: Seq<Seq<usize>>, u: int, s: Seq<usize>, m: int)
    requires
        0 <= u < g.len(),
        m <= g.len(),
        s.len() == g[u].len(),
    ensures
        entries_below(g.update(u, s), m) == entries_below(g, m),
    decreases m,
{
    if m > 0 {
        lemma_entries_same_len(g, u, s, m - 1);
    }
}

/// The occurrences in `s` of the values below `m`.
pub open spec fn counts_below(s: Seq<usize>, m: int) -> nat
    decreases m,
{
    if m <= 0 {
        0
    } else {
        counts_below(s, m - 1) + count_in(s, (m - 1) as usize)
    }
}

proof fn lemma_counts_below_push(s: Seq<usize>, x: usize, m: int)
    requires
        0 <= m <= usize::MAX + 1,
    ensures
        counts_below(s.push(x), m) == counts_below(s, m) + if x < m { 1nat } else { 0nat },
    decreases m,
{
    if m > 0 {
        lemma_counts_below_push(s, x, m - 1);
        assert(s.push(x).drop_last() =~= s);
    }
}

/// When every value of `s` is below `m`, counting each value below `m`
/// counts every element once.
proof fn lemma_counts_below_len(s: Seq<usize>, m: int)
    requires
        0 <= m <= usize::MAX + 1,
        forall|k: int| 0 <= k < s.len() ==> #[trigger] s[k] < m,
    ensures
        counts_below(s, m) == s.len(),
    decreases s.len(),
{
    if s.len() == 0 {
        lemma_counts_below_zero(s, m);
    } else {
        let t = s.drop_last();
        assert forall|k: int| 0 <= k < t.len() implies #[trigger] t[k] < m by {
            assert(t[k] == s[k]);
        }
        lemma_counts_below_len(t, m);
        lemma_counts_below_push(t, s.last(), m);
        assert(t.push(s.last()) =~= s);
    }
}

proof fn lemma_counts_below_zero(s: Seq<usize>, m: int)
    requires
        s.len() == 0,
    ensures
        counts_below(s, m) == 0,
    decreases m,
{
    if m > 0 {
        lemma_counts_below_zero(s, m - 1);
    }
}

/// The elements of `s` in increasing order (a counting sort over the
/// values below `n`).
pub fn sorted_list(s: &Vec<usize>, n: usize) -> (r: Vec<usize>)
    requires
        forall|k: int| 0 <= k < s.len() ==> #[trigger] s@[k] < n,
    ensures
        r@.len() == s@.len(),
        forall|w: usize| r@.contains(w) <==> s@.contains(w),
        forall|i: int, j: int| 0 <= i < j < r@.len() ==> #[trigger] r@[i] <= #[trigger] r@[j],
        forall|k: int| 0 <= k < r@.len() ==> #[trigger] r@[k] < n,
{
    let mut r: Vec<usize> = Vec::new();
    let mut v: usize = 0;
    while v < n
        invariant
            v <= n,
            forall|k: int| 0 <= k < s.len() ==> #[trigger] s@[k] < n,
            r@.len() == counts_below(s@, v as int),
            forall|w: usize| r@.contains(w) <==> (w < v && s@.contains(w)),
            forall|i: int, j: int| 0 <= i < j < r@.len() ==> #[trigger] r@[i] <= #[trigger] r@[j],
            forall|k: int| 0 <= k < r@.len() ==> #[trigger] r@[k] < v,
        decreases n - v,
    {
        let mut k: usize = 0;
        let ghost r0 = r@;
        while k < s.len()
            invariant
                v < n,
                k <= s.len(),
                r0.len() == counts_below(s@, v as int),
                r@.len() == r0.len() + count_in(s@.take(k as int), v),
                forall|i: int| 0 <= i < r0.len() ==> #[trigger] r@[i] == r0[i],
                forall|i: int| r0.len() <= i < r@.len() ==> #[trigger] r@[i] == v,
                forall|w: usize| r0.contains(w) <==> (w < v && s@.contains(w)),
                forall|i: int, j: int| 0 <= i < j < r0.len() ==> #[trigger] r0[i] <= #[trigger] r0[j],
                forall|i: int| 0 <= i < r0.len() ==> #[trigger] r0[i] < v,
                count_in(s@.take(k as int), v) > 0 ==> s@.contains(v),
            decreases s.len() - k,
        {
            proof {
                lemma_count_prefix(s@, v, k as int);
            }
            if s[k] == v {
                r.push(v);
            }
            k = k + 1;
        }
        proof {
            assert(s@.take(s.len() as int) =~= s@);
            lemma_count_bounds(s@, v);
            assert forall|w: usize| r@.contains(w) <==> (w < v + 1 && s@.contains(w)) by {
                if r@.contains(w) {
                    let i = choose|i: int| 0 <= i < r@.len() && r@[i] == w;
                    if i < r0.len() {
                        assert(r0[i] == w);
                    }
                }
                if w < v + 1 && s@.contains(w) {
                    if w < v {
                        let i = choose|i: int| 0 <= i < r0.len() && r0[i] == w;
                        assert(r@[i] == w);
                    } else {
                        assert(r@[r0.len() as int] == w);
                    }
                }
            }
            assert forall|i: int, j: int| 0 <= i < j < r@.len() implies #[trigger] r@[i] <= #[trigger] r@[j] by {
                if j < r0.len() {
                    assert(r0[i] <= r0[j]);
                } else if i < r0.len() {
                    assert(r0[i] < v);
                }
            }
            assert forall|k: int| 0 <= k < r@.len() implies #[trigger] r@[k] < v + 1 by {
                if k < r0.len() {
                    assert(r0[k] < v);
                }
            }
        }
        v = v + 1;
    }
    proof {
        lemma_counts_below_len(s@, n as int);
    }
    r
}

/// What a sequence extended by one element contains.
pub proof fn lemma_push_contains(s: Seq<usize>, w: usize)
    ensures
        forall|x: usize| #[trigger] s.push(w).contains(x) <==> (s.contains(x) || x == w),
{
    assert forall|x: usize| #[trigger] s.push(w).contains(x) <==> (s.contains(x) || x == w) by {
        if s.push(w).contains(x) && x != w {
            let k = choose|k: int| 0 <= k < s.push(w).len() && s.push(w)[k] == x;
            assert(s[k] == x);
        }
        if s.contains(x) {
            let k = choose|k: int| 0 <= k < s.len() && s[k] == x;
            assert(s.push(w)[k] == x);
        }
        if x == w {
            assert(s.push(w)[s.len() as int] == x);
        }
    }
}

/// The adjacency matrix of the graph: `m[u][v]` says whether there is an
/// edge from `u` to `v`.
pub fn edge_matrix(adj: &Vec<Vec<usize>>) -> (m: Vec<Vec<bool>>)
    requires
        graph_wf(adj_view(adj)),
    ensures
        m.len() == adj.len(),
        forall|u: int| 0 <= u < m.len() ==> (#[trigger] m@[u]).len() == adj.len(),
        forall|u: int, v: int| 0 <= u < adj.len() && 0 <= v < adj.len() ==> #[trigger] m@[u]@[v] == has_edge(adj_view(adj), u, v),
{
    let n = adj.len();
    let ghost g = adj_view(adj);
    let mut m: Vec<Vec<bool>> = Vec::new();
    let mut u: usize = 0;
    while u < n
        invariant
            u <= n,
            n == adj.len(),
            g == adj_view(adj),
            graph_wf(g),
            m.len() == u,
            forall|a: int| 0 <= a < u ==> (#[trigger] m@[a]).len() == n,
            forall|a: int, v: int| 0 <= a < u && 0 <= v < n ==> #[trigger] m@[a]@[v] == has_edge(g, a, v),
        decreases n - u,
    {
        let mut row: Vec<bool> = Vec::new();
        let mut v: usize = 0;
        while v < n
            invariant
                v <= n,
                row@ == Seq::new(v as nat, |i: int| false),
            decreases n - v,
        {
            row.push(false);
            v = v + 1;
        }
        let ghost succ = g[u as int];
        assert(adj@[u as int]@ == succ);
        let mut k: usize = 0;
        while k < adj[u].len()
            invariant
                u < n,
                n == adj.len(),
                g == adj_view(adj),
                graph_wf(g),
                succ == g[u as int],
                succ == adj@[u as int]@,
                k <= succ.len(),
                row.len() == n,
                forall|v: int| 0 <= v < n ==> #[trigger] row@[v] == succ.take(k as int).contains(v as usize),
            decreases adj[u as int].len() - k,
        {
            let w = adj[u][k];
            proof {
                assert(w == succ[k as int]);
                assert(w < n);
                assert(succ.take(k as int + 1) =~= succ.take(k as int).push(w));
            }
            row.set(w, true);
            proof {
                assert forall|v: int| 0 <= v < n implies #[trigger] row@[v] == succ.take(k as int + 1).contains(v as usize) by {
                    if v == w as int {
                        assert(succ.take(k as int + 1)[k as int] == w);
                    } else {
                        if succ.take(k as int + 1).contains(v as usize) {
                            let j = choose|j: int| 0 <= j < k + 1 && #[trigger] succ.take(k as int + 1)[j] == v as usize;
                            assert(succ.take(k as int)[j] == v as usize);
                        }
                    }
                }
            }
            k = k + 1;
        }
        proof {
            assert(succ.take(succ.len() as int) =~= succ);
        }
        m.push(row);
        u = u + 1;
    }
    m
}

} // verus!
