//! Graph-theoretic analysis of a deployment topology.
//!
//! A topology is a labelled directed multigraph whose nodes are the machines
//! (by name) and whose edges are the links between them. The checks that
//! `validate_deep` enforces (edge-degree limits, acyclic Inline edges) and
//! the advisory analyses (feedback loops, single points of failure,
//! reachability, orphans, observability) are computed here on the graph
//! whose nodes are the machine names in increasing order.
use vstd::prelude::*;
use vstd::string::StringExecFns;
use crate::strings::{join, join_strings};
use crate::deploy::{DynamicTopology, TopologyView, MachineInstanceView};
use crate::link::{LinkKind, LinkSpec, LinkSpecView};
use crate::port::{PortDecl, PortDir, PortSchema, SchemaMap, schema_for, is_observe_out};
use crate::flow::FlowKind;
use crate::seq_util::lemma_filter_push;
use crate::order::{
    strictly_sorted, names_of, insert_sorted, position_of, lemma_lt_irreflexive, seq_lt, pair_lt,
    pairs_sorted, pairs_of, insert_sorted_pair, lemma_kind_names_ordered, lemma_pair_lt_props,
};
use crate::graph::{
    adj_view, graph_wf, has_edge, total_entries, entries_below, lemma_entries_push,
    lemma_entries_same_len, sorted_list, lemma_push_contains, acyclic, ranks_edges, is_cycle, is_walk, find_cycle,
    kahn, kahn_remainder, has_pred_in, ranks_outside, is_topological, reaches, reachable_set, edge_matrix,
};
use crate::dfs::{dfs_orders, dfs_result, lemma_dfs_result_complete, dfs_first_cycle, dfs_first_back_cycle};

verus! {

// ── Machine names ───────────────────────────────────────────────────────

/// Whether the topology has a machine named `name`.
pub open spec fn is_machine(t: TopologyView, name: Seq<char>) -> bool {
    exists|j: int| 0 <= j < t.machines.len() && #[trigger] t.machines[j].name == name
}

/// Whether `nodes` lists every machine name of the topology once, in
/// increasing order.
pub open spec fn node_order(t: TopologyView, nodes: Seq<Seq<char>>) -> bool {
    &&& strictly_sorted(nodes)
    &&& forall|x: Seq<char>| nodes.contains(x) <==> is_machine(t, x)
}

/// The machine names of a topology, each once, in increasing order.
pub fn sorted_machine_names(spec: &DynamicTopology) -> (r: Vec<String>)
    ensures
        node_order(spec@, names_of(r@)),
{
    let ghost t = spec@;
    let mut r: Vec<String> = Vec::new();
    let mut i: usize = 0;
    while i < spec.machines.len()
        invariant
            i <= spec.machines.len(),
            t == spec@,
            strictly_sorted(names_of(r@)),
            forall|x: Seq<char>| names_of(r@).contains(x) <==> exists|j: int| 0 <= j < i && #[trigger] t.machines[j].name == x,
        decreases spec.machines.len() - i,
    {
        let ghost before = names_of(r@);
        insert_sorted(&mut r, spec.machines[i].name.as_str());
        proof {
            assert(t.machines[i as int].name == spec.machines@[i as int].name@);
            assert forall|x: Seq<char>| names_of(r@).contains(x) <==> exists|j: int| 0 <= j < i + 1 && #[trigger] t.machines[j].name == x by {
                assert(names_of(r@).to_set().contains(x) == names_of(r@).contains(x));
                assert(before.to_set().contains(x) == before.contains(x));
                if x != t.machines[i as int].name {
                    if exists|j: int| 0 <= j < i + 1 && #[trigger] t.machines[j].name == x {
                        let j = choose|j: int| 0 <= j < i + 1 && #[trigger] t.machines[j].name == x;
                        assert(j < i);
                    }
                }
            }
        }
        i = i + 1;
    }
    r
}

/// Names in a strictly increasing sequence are distinct.
pub proof fn lemma_sorted_distinct(nodes: Seq<Seq<char>>, i: int, j: int)
    requires
        strictly_sorted(nodes),
        0 <= i < nodes.len(),
        0 <= j < nodes.len(),
        nodes[i] == nodes[j],
    ensures
        i == j,
{
    if i < j {
        lemma_lt_irreflexive(nodes[i]);
        assert(crate::order::seq_lt(nodes[i], nodes[j]));
    } else if j < i {
        lemma_lt_irreflexive(nodes[i]);
        assert(crate::order::seq_lt(nodes[j], nodes[i]));
    }
}

// ── Link graphs ─────────────────────────────────────────────────────────

/// Whether some link selected by `keep` runs from machine `a` to machine `b`.
pub open spec fn link_runs(links: Seq<LinkSpecView>, keep: spec_fn(LinkSpecView) -> bool, a: Seq<char>, b: Seq<char>) -> bool {
    exists|i: int| 0 <= i < links.len() && #[trigger] keep(links[i]) && links[i].out.0 == a && links[i].into.0 == b
}

/// Whether `g` is the graph over `nodes` with an edge from node `u` to node
/// `v` exactly when a link selected by `keep` runs between their names.
pub open spec fn graph_of_links(links: Seq<LinkSpecView>, keep: spec_fn(LinkSpecView) -> bool, nodes: Seq<Seq<char>>, g: Seq<Seq<usize>>) -> bool {
    &&& g.len() == nodes.len()
    &&& g.len() <= usize::MAX
    &&& graph_wf(g)
    &&& total_entries(g) <= links.len()
    &&& forall|u: int, v: int| 0 <= u < g.len() && 0 <= v < g.len() ==> (#[trigger] has_edge(g, u, v) <==> link_runs(links, keep, nodes[u], nodes[v]))
}

/// The graph over `nodes` of the links whose flag in `keep` is set; each
/// adjacency list in increasing order.
pub fn link_graph(links: &Vec<LinkSpec>, keep: &Vec<bool>, Ghost(pred): Ghost<spec_fn(LinkSpecView) -> bool>, nodes: &Vec<String>) -> (adj: Vec<Vec<usize>>)
    requires
        keep.len() == links.len(),
        forall|i: int| 0 <= i < links.len() ==> #[trigger] keep@[i] == pred(links@[i]@),
        strictly_sorted(names_of(nodes@)),
    ensures
        graph_of_links(links@.map_values(|l: LinkSpec| l@), pred, names_of(nodes@), adj_view(&adj)),
        forall|u: int, i: int, j: int| 0 <= u < adj.len() && 0 <= i < j < adj@[u]@.len() ==> #[trigger] adj@[u]@[i] <= #[trigger] adj@[u]@[j],
{
    let ghost ls = links@.map_values(|l: LinkSpec| l@);
    let ghost names = names_of(nodes@);
    let n = nodes.len();
    let mut adj: Vec<Vec<usize>> = Vec::new();
    let mut k: usize = 0;
    while k < n
        invariant
            k <= n,
            n == nodes.len(),
            adj.len() == k,
            forall|u: int| 0 <= u < k ==> #[trigger] adj@[u]@.len() == 0,
        decreases n - k,
    {
        adj.push(Vec::new());
        k = k + 1;
    }
    proof {
        assert(entries_below(adj_view(&adj), n as int) == 0) by {
            lemma_entries_zero(adj_view(&adj), n as int);
        }
        assert forall|u: int, v: int| 0 <= u < n && 0 <= v < n implies !#[trigger] has_edge(adj_view(&adj), u, v) by {
            assert(adj_view(&adj)[u].len() == 0);
        }
    }
    let mut i: usize = 0;
    while i < links.len()
        invariant
            n == nodes.len(),
            n == adj.len(),
            i <= links.len(),
            ls == links@.map_values(|l: LinkSpec| l@),
            names == names_of(nodes@),
            strictly_sorted(names),
            keep.len() == links.len(),
            forall|j: int| 0 <= j < links.len() ==> #[trigger] keep@[j] == pred(links@[j]@),
            graph_wf(adj_view(&adj)),
            total_entries(adj_view(&adj)) <= i,
            forall|u: int, v: int| 0 <= u < n && 0 <= v < n ==> (#[trigger] has_edge(adj_view(&adj), u, v) <==>
                exists|j: int| 0 <= j < i && #[trigger] pred(ls[j]) && ls[j].out.0 == names[u] && ls[j].into.0 == names[v]),
        decreases links.len() - i,
    {
        if keep[i] {
            let a = position_of(nodes, links[i].out.0.as_str());
            let b = position_of(nodes, links[i].into.0.as_str());
            match (a, b) {
                (Some(a), Some(b)) => {
                    let ghost g0 = adj_view(&adj);
                    let mut list = adj[a].clone();
                    list.push(b);
                    adj.set(a, list);
                    proof {
                        let g1 = adj_view(&adj);
                        assert(g1 =~= g0.update(a as int, g0[a as int].push(b)));
                        lemma_entries_push(g0, a as int, b, n as int);
                        assert forall|u: int, v: int| 0 <= u < n && 0 <= v < n implies (#[trigger] has_edge(g1, u, v) <==>
                            exists|j: int| 0 <= j < i + 1 && #[trigger] pred(ls[j]) && ls[j].out.0 == names[u] && ls[j].into.0 == names[v]) by {
                            assert(ls[i as int] == links@[i as int]@);
                            if has_edge(g1, u, v) {
                                if u == a && v == b {
                                    assert(pred(ls[i as int]));
                                } else if u == a {
                                    let k = choose|k: int| 0 <= k < g1[u].len() && g1[u][k] == v as usize;
                                    assert(k < g0[u].len());
                                    assert(g0[u][k] == v as usize);
                                    assert(has_edge(g0, u, v));
                                } else {
                                    assert(has_edge(g0, u, v));
                                }
                            }
                            if exists|j: int| 0 <= j < i + 1 && #[trigger] pred(ls[j]) && ls[j].out.0 == names[u] && ls[j].into.0 == names[v] {
                                let j = choose|j: int| 0 <= j < i + 1 && #[trigger] pred(ls[j]) && ls[j].out.0 == names[u] && ls[j].into.0 == names[v];
                                if j == i {
                                    lemma_sorted_distinct(names, u, a as int);
                                    lemma_sorted_distinct(names, v, b as int);
                                    assert(g1[a as int][g0[a as int].len() as int] == b);
                                } else {
                                    assert(has_edge(g0, u, v));
                                    let k = choose|k: int| 0 <= k < g0[u].len() && g0[u][k] == v as usize;
                                    if u == a {
                                        assert(g1[u][k] == v as usize);
                                    }
                                }
                            }
                        }
                    }
                },
                _ => {
                    proof {
                        assert forall|u: int, v: int| 0 <= u < n && 0 <= v < n implies (#[trigger] has_edge(adj_view(&adj), u, v) <==>
                            exists|j: int| 0 <= j < i + 1 && #[trigger] pred(ls[j]) && ls[j].out.0 == names[u] && ls[j].into.0 == names[v]) by {
                            if exists|j: int| 0 <= j < i + 1 && #[trigger] pred(ls[j]) && ls[j].out.0 == names[u] && ls[j].into.0 == names[v] {
                                let j = choose|j: int| 0 <= j < i + 1 && #[trigger] pred(ls[j]) && ls[j].out.0 == names[u] && ls[j].into.0 == names[v];
                                if j == i {
                                    assert(names[u] == nodes@[u]@);
                                    assert(names[v] == nodes@[v]@);
                                }
                            }
                        }
                    }
                },
            }
        } else {
            proof {
                assert(ls[i as int] == links@[i as int]@);
            }
        }
        i = i + 1;
    }
    // Each adjacency list in increasing order.
    let mut u: usize = 0;
    while u < n
        invariant
            n == nodes.len(),
            n == adj.len(),
            u <= n,
            graph_wf(adj_view(&adj)),
            total_entries(adj_view(&adj)) <= links.len(),
            forall|x: int, v: int| 0 <= x < n && 0 <= v < n ==> (#[trigger] has_edge(adj_view(&adj), x, v) <==>
                exists|j: int| 0 <= j < links.len() && #[trigger] pred(ls[j]) && ls[j].out.0 == names[x] && ls[j].into.0 == names[v]),
            forall|x: int, i: int, j: int| 0 <= x < u && 0 <= i < j < adj@[x]@.len() ==> #[trigger] adj@[x]@[i] <= #[trigger] adj@[x]@[j],
        decreases n - u,
    {
        let ghost g0 = adj_view(&adj);
        proof {
            assert forall|k: int| 0 <= k < adj@[u as int]@.len() implies #[trigger] adj@[u as int]@[k] < n by {
                assert(g0[u as int][k] == adj@[u as int]@[k]);
            }
        }
        let sorted = sorted_list(&adj[u], n);
        adj.set(u, sorted);
        proof {
            let g1 = adj_view(&adj);
            assert(g1 =~= g0.update(u as int, sorted@));
            lemma_entries_same_len(g0, u as int, sorted@, n as int);
            assert forall|x: int, v: int| 0 <= x < n && 0 <= v < n implies (#[trigger] has_edge(g1, x, v) == has_edge(g0, x, v)) by {
                if x == u {
                    assert(g1[x].contains(v as usize) == g0[x].contains(v as usize));
                }
            }
            assert forall|x: int, k: int| 0 <= x < g1.len() && 0 <= k < g1[x].len() implies #[trigger] g1[x][k] < g1.len() by {
                if x == u {
                    assert(sorted@[k] < n);
                } else {
                    assert(g0[x][k] < n);
                }
            }
        }
        u = u + 1;
    }
    adj
}

proof fn lemma_entries_zero(g: Seq<Seq<usize>>, m: int)
    requires
        m <= g.len(),
        forall|u: int| 0 <= u < g.len() ==> #[trigger] g[u].len() == 0,
    ensures
        entries_below(g, m) == 0,
    decreases m,
{
    if m > 0 {
        lemma_entries_zero(g, m - 1);
    }
}

// ── Graphs on machine names ─────────────────────────────────────────────

/// Whether a link selected by `keep` runs from machine `a` to machine `b`.
pub open spec fn named_edge(t: TopologyView, keep: spec_fn(LinkSpecView) -> bool, a: Seq<char>, b: Seq<char>) -> bool {
    link_runs(t.links, keep, a, b) && is_machine(t, a) && is_machine(t, b)
}

/// Whether `rank` decreases along every selected link between machines.
pub open spec fn ranks_names(t: TopologyView, keep: spec_fn(LinkSpecView) -> bool, rank: spec_fn(Seq<char>) -> int) -> bool {
    forall|a: Seq<char>, b: Seq<char>| #[trigger] named_edge(t, keep, a, b) ==> rank(b) < rank(a)
}

/// Whether the selected links form no cycle among the machines.
pub open spec fn names_acyclic(t: TopologyView, keep: spec_fn(LinkSpecView) -> bool) -> bool {
    exists|rank: spec_fn(Seq<char>) -> int| #[trigger] ranks_names(t, keep, rank)
}

/// Whether `c` is a cycle of machine names along selected links: each name
/// linked to the next, the last equal to the first.
pub open spec fn is_name_cycle(t: TopologyView, keep: spec_fn(LinkSpecView) -> bool, c: Seq<Seq<char>>) -> bool {
    &&& c.len() >= 2
    &&& c[0] == c.last()
    &&& forall|i: int| 0 <= i < c.len() - 1 ==> #[trigger] named_edge(t, keep, c[i], c[i + 1])
}

/// Whether `rank` decreases along every selected link into a machine
/// outside `c`.
pub open spec fn ranks_names_outside(t: TopologyView, keep: spec_fn(LinkSpecView) -> bool, c: Seq<Seq<char>>, rank: spec_fn(Seq<char>) -> int) -> bool {
    forall|a: Seq<char>, b: Seq<char>| #[trigger] named_edge(t, keep, a, b) && !c.contains(b) ==> rank(b) < rank(a)
}

/// Whether a selected link runs to machine `x` from a machine of `c`.
pub open spec fn has_named_pred(t: TopologyView, keep: spec_fn(LinkSpecView) -> bool, c: Seq<Seq<char>>, x: Seq<char>) -> bool {
    exists|j: int| 0 <= j < c.len() && #[trigger] named_edge(t, keep, c[j], x)
}

/// What remains of the machines when a topological sort along the selected
/// links stops on a cycle: machine names in increasing order, each with a
/// predecessor among them, closed under successors, and the other machines
/// ranked so that every selected link into one of them decreases the rank.
pub open spec fn name_remainder(t: TopologyView, keep: spec_fn(LinkSpecView) -> bool, c: Seq<Seq<char>>) -> bool {
    &&& c.len() > 0
    &&& strictly_sorted(c)
    &&& forall|i: int| 0 <= i < c.len() ==> is_machine(t, #[trigger] c[i])
    &&& forall|i: int| 0 <= i < c.len() ==> #[trigger] has_named_pred(t, keep, c, c[i])
    &&& forall|a: Seq<char>, b: Seq<char>| #[trigger] named_edge(t, keep, a, b) && c.contains(a) ==> c.contains(b)
    &&& exists|rank: spec_fn(Seq<char>) -> int| #[trigger] ranks_names_outside(t, keep, c, rank)
}

/// Walking back from the first name of `c`, `k` steps, each to a
/// predecessor among `c`: the position reached.
pub open spec fn back_walk(t: TopologyView, keep: spec_fn(LinkSpecView) -> bool, c: Seq<Seq<char>>, k: nat) -> int
    decreases k,
{
    if k == 0 {
        0
    } else {
        let p = back_walk(t, keep, c, (k - 1) as nat);
        choose|j: int| 0 <= j < c.len() && #[trigger] named_edge(t, keep, c[j], c[p])
    }
}

proof fn lemma_back_walk(t: TopologyView, keep: spec_fn(LinkSpecView) -> bool, c: Seq<Seq<char>>, k: nat)
    requires
        name_remainder(t, keep, c),
    ensures
        0 <= back_walk(t, keep, c, k) < c.len(),
        k > 0 ==> named_edge(t, keep, c[back_walk(t, keep, c, k)], c[back_walk(t, keep, c, (k - 1) as nat)]),
    decreases k,
{
    if k > 0 {
        lemma_back_walk(t, keep, c, (k - 1) as nat);
        let p = back_walk(t, keep, c, (k - 1) as nat);
        assert(has_named_pred(t, keep, c, c[p]));
    }
}

/// What a topological sort cannot order holds a cycle: when the sort stops,
/// some cycle of selected links runs through machines of the remainder only.
pub proof fn lemma_remainder_holds_cycle(t: TopologyView, keep: spec_fn(LinkSpecView) -> bool, c: Seq<Seq<char>>)
    requires
        name_remainder(t, keep, c),
    ensures
        exists|cyc: Seq<Seq<char>>| #[trigger] is_name_cycle(t, keep, cyc) && forall|i: int| 0 <= i < cyc.len() ==> c.contains(#[trigger] cyc[i]),
{
    let m = c.len();
    let q = Seq::new((m + 1) as nat, |k: int| back_walk(t, keep, c, k as nat));
    assert forall|k: int| 0 <= k < q.len() implies 0 <= #[trigger] q[k] < m by {
        lemma_back_walk(t, keep, c, k as nat);
    }
    if q.no_duplicates() {
        q.unique_seq_to_set();
        vstd::set_lib::lemma_int_range(0, m as int);
        assert(q.to_set().subset_of(vstd::set_lib::set_int_range(0, m as int))) by {
            assert forall|x: int| q.to_set().contains(x) implies vstd::set_lib::set_int_range(0, m as int).contains(x) by {
                let i = choose|i: int| 0 <= i < q.len() && q[i] == x;
                assert(0 <= q[i] < m);
            }
        }
        vstd::set_lib::lemma_len_subset(q.to_set(), vstd::set_lib::set_int_range(0, m as int));
    }
    assert(!q.no_duplicates());
    let (a, b) = choose|a: int, b: int| 0 <= a < q.len() && 0 <= b < q.len() && a != b && q[a] == q[b];
    let lo = if a < b { a } else { b };
    let hi = if a < b { b } else { a };
    let cyc = Seq::new((hi - lo + 1) as nat, |i: int| c[back_walk(t, keep, c, (hi - i) as nat)]);
    assert forall|i: int| 0 <= i < cyc.len() - 1 implies #[trigger] named_edge(t, keep, cyc[i], cyc[i + 1]) by {
        lemma_back_walk(t, keep, c, (hi - i) as nat);
        assert((hi - i - 1) as nat == ((hi - i) as nat - 1) as nat);
    }
    lemma_back_walk(t, keep, c, hi as nat);
    lemma_back_walk(t, keep, c, lo as nat);
    assert(q[lo] == q[hi]);
    assert(back_walk(t, keep, c, lo as nat) == back_walk(t, keep, c, hi as nat));
    assert(cyc[cyc.len() - 1] == c[back_walk(t, keep, c, lo as nat)]);
    assert(cyc[0] == cyc.last());
    assert forall|i: int| 0 <= i < cyc.len() implies c.contains(#[trigger] cyc[i]) by {
        lemma_back_walk(t, keep, c, (hi - i) as nat);
    }
    assert(is_name_cycle(t, keep, cyc));
}

/// Whether `order` lists every machine name once and no selected link leads
/// from a later machine to an earlier one.
pub open spec fn name_topological(t: TopologyView, keep: spec_fn(LinkSpecView) -> bool, order: Seq<Seq<char>>) -> bool {
    &&& order.no_duplicates()
    &&& forall|x: Seq<char>| order.contains(x) <==> is_machine(t, x)
    &&& forall|i: int, j: int| 0 <= i < j < order.len() ==> !named_edge(t, keep, #[trigger] order[j], #[trigger] order[i])
}

/// The position of a name among the nodes.
pub open spec fn node_index(nodes: Seq<Seq<char>>, x: Seq<char>) -> int {
    choose|i: int| 0 <= i < nodes.len() && nodes[i] == x
}

/// The names of a sequence of nodes.
pub open spec fn names_at(nodes: Seq<Seq<char>>, idx: Seq<usize>) -> Seq<Seq<char>> {
    idx.map_values(|u: usize| nodes[u as int])
}

/// Named edges and graph edges agree.
proof fn lemma_edge_transfer(t: TopologyView, keep: spec_fn(LinkSpecView) -> bool, nodes: Seq<Seq<char>>, g: Seq<Seq<usize>>, u: int, v: int)
    requires
        node_order(t, nodes),
        graph_of_links(t.links, keep, nodes, g),
        0 <= u < nodes.len(),
        0 <= v < nodes.len(),
    ensures
        has_edge(g, u, v) <==> named_edge(t, keep, nodes[u], nodes[v]),
{
    assert(nodes.contains(nodes[u]));
    assert(nodes.contains(nodes[v]));
}

/// The index of a machine name among the nodes.
proof fn lemma_node_index(t: TopologyView, nodes: Seq<Seq<char>>, x: Seq<char>)
    requires
        node_order(t, nodes),
        is_machine(t, x),
    ensures
        0 <= node_index(nodes, x) < nodes.len(),
        nodes[node_index(nodes, x)] == x,
{
    assert(nodes.contains(x));
}

/// The graph is acyclic exactly when the selected links are.
proof fn lemma_acyclic_transfer(t: TopologyView, keep: spec_fn(LinkSpecView) -> bool, nodes: Seq<Seq<char>>, g: Seq<Seq<usize>>)
    requires
        node_order(t, nodes),
        graph_of_links(t.links, keep, nodes, g),
    ensures
        acyclic(g) <==> names_acyclic(t, keep),
{
    if acyclic(g) {
        let rank = choose|rank: Seq<int>| #[trigger] ranks_edges(g, rank);
        let rn = |x: Seq<char>| rank[node_index(nodes, x)];
        assert forall|a: Seq<char>, b: Seq<char>| #[trigger] named_edge(t, keep, a, b) implies rn(b) < rn(a) by {
            lemma_node_index(t, nodes, a);
            lemma_node_index(t, nodes, b);
            lemma_edge_transfer(t, keep, nodes, g, node_index(nodes, a), node_index(nodes, b));
        }
        assert(ranks_names(t, keep, rn));
    }
    if names_acyclic(t, keep) {
        let rn = choose|rank: spec_fn(Seq<char>) -> int| #[trigger] ranks_names(t, keep, rank);
        let rank = Seq::new(nodes.len(), |u: int| rn(nodes[u]));
        assert forall|u: int, v: int| #[trigger] has_edge(g, u, v) implies rank[v] < rank[u] by {
            lemma_edge_transfer(t, keep, nodes, g, u, v);
        }
        assert(ranks_edges(g, rank));
    }
}

/// A cycle of the graph names a cycle of machines.
proof fn lemma_cycle_transfer(t: TopologyView, keep: spec_fn(LinkSpecView) -> bool, nodes: Seq<Seq<char>>, g: Seq<Seq<usize>>, c: Seq<usize>)
    requires
        node_order(t, nodes),
        graph_of_links(t.links, keep, nodes, g),
        is_cycle(g, c),
    ensures
        is_name_cycle(t, keep, names_at(nodes, c)),
{
    let nc = names_at(nodes, c);
    assert forall|i: int| 0 <= i < nc.len() - 1 implies #[trigger] named_edge(t, keep, nc[i], nc[i + 1]) by {
        assert(has_edge(g, c[i] as int, c[i + 1] as int));
        lemma_edge_transfer(t, keep, nodes, g, c[i] as int, c[i + 1] as int);
    }
}

/// What Kahn's algorithm leaves names what remains of the machines.
proof fn lemma_remainder_transfer(t: TopologyView, keep: spec_fn(LinkSpecView) -> bool, nodes: Seq<Seq<char>>, g: Seq<Seq<usize>>, rem: Seq<usize>)
    requires
        node_order(t, nodes),
        graph_of_links(t.links, keep, nodes, g),
        kahn_remainder(g, rem),
    ensures
        name_remainder(t, keep, names_at(nodes, rem)),
{
    let c = names_at(nodes, rem);
    assert forall|i: int, j: int| 0 <= i < j < c.len() implies crate::order::seq_lt(#[trigger] c[i], #[trigger] c[j]) by {
        assert(rem[i] < rem[j]);
    }
    assert forall|i: int| 0 <= i < c.len() implies is_machine(t, #[trigger] c[i]) by {
        assert(nodes.contains(nodes[rem[i] as int]));
    }
    assert forall|i: int| 0 <= i < c.len() implies #[trigger] has_named_pred(t, keep, c, c[i]) by {
        assert(has_pred_in(g, rem, rem[i] as int));
        let j = choose|j: int| 0 <= j < rem.len() && #[trigger] has_edge(g, rem[j] as int, rem[i] as int);
        lemma_edge_transfer(t, keep, nodes, g, rem[j] as int, rem[i] as int);
        assert(named_edge(t, keep, c[j], c[i]));
    }
    // Membership of a node's name in `c` is membership of the node in `rem`.
    assert forall|u: int| 0 <= u < nodes.len() implies (#[trigger] c.contains(nodes[u]) <==> rem.contains(u as usize)) by {
        if c.contains(nodes[u]) {
            let i = choose|i: int| 0 <= i < c.len() && c[i] == nodes[u];
            lemma_sorted_distinct(nodes, rem[i] as int, u);
            assert(rem[i] == u as usize);
        }
        if rem.contains(u as usize) {
            let i = choose|i: int| 0 <= i < rem.len() && rem[i] == u as usize;
            assert(c[i] == nodes[u]);
        }
    }
    assert forall|a: Seq<char>, b: Seq<char>| #[trigger] named_edge(t, keep, a, b) && c.contains(a) implies c.contains(b) by {
        lemma_node_index(t, nodes, a);
        lemma_node_index(t, nodes, b);
        let u = node_index(nodes, a);
        let v = node_index(nodes, b);
        lemma_edge_transfer(t, keep, nodes, g, u, v);
        assert(c.contains(nodes[u]));
        assert(c.contains(nodes[v]));
    }
    let rank = choose|rank: Seq<int>| #[trigger] ranks_outside(g, rem, rank);
    let rn = |x: Seq<char>| rank[node_index(nodes, x)];
    assert forall|a: Seq<char>, b: Seq<char>| #[trigger] named_edge(t, keep, a, b) && !c.contains(b) implies rn(b) < rn(a) by {
        lemma_node_index(t, nodes, a);
        lemma_node_index(t, nodes, b);
        let u = node_index(nodes, a);
        let v = node_index(nodes, b);
        lemma_edge_transfer(t, keep, nodes, g, u, v);
        assert(!c.contains(nodes[v]));
        assert(!rem.contains(v as usize));
    }
    assert(ranks_names_outside(t, keep, c, rn));
}

/// The names of the nodes listed in `idx`.
fn names_at_nodes(nodes: &Vec<String>, idx: &Vec<usize>) -> (r: Vec<String>)
    requires
        forall|i: int| 0 <= i < idx.len() ==> #[trigger] idx@[i] < nodes.len(),
    ensures
        names_of(r@) == names_at(names_of(nodes@), idx@),
{
    let mut r: Vec<String> = Vec::new();
    let mut i: usize = 0;
    while i < idx.len()
        invariant
            i <= idx.len(),
            forall|i: int| 0 <= i < idx.len() ==> #[trigger] idx@[i] < nodes.len(),
            r.len() == i,
            forall|j: int| 0 <= j < i ==> #[trigger] r@[j]@ == nodes@[idx@[j] as int]@,
        decreases idx.len() - i,
    {
        r.push(nodes[idx[i]].clone());
        i = i + 1;
    }
    proof {
        assert(names_of(r@) =~= names_at(names_of(nodes@), idx@));
    }
    r
}

// ── Selections of links ─────────────────────────────────────────────────

/// Inline links between distinct machines.
pub open spec fn inline_link(l: LinkSpecView) -> bool {
    l.kind is Inline && l.out.0 != l.into.0
}

/// Links between distinct machines, of any kind.
pub open spec fn any_link(l: LinkSpecView) -> bool {
    l.out.0 != l.into.0
}

/// The selection of Inline links between distinct machines.
pub open spec fn inline_links() -> spec_fn(LinkSpecView) -> bool {
    |l: LinkSpecView| inline_link(l)
}

/// The selection of links between distinct machines.
pub open spec fn any_links() -> spec_fn(LinkSpecView) -> bool {
    |l: LinkSpecView| any_link(l)
}

/// Whether some machine named `name` is declared Moore.
pub open spec fn is_moore_name(t: TopologyView, name: Seq<char>) -> bool {
    exists|j: int| 0 <= j < t.machines.len() && #[trigger] t.machines[j].name == name && t.machines[j].is_moore
}

/// Links of which neither end is a Moore machine.
pub open spec fn non_moore_link(t: TopologyView) -> spec_fn(LinkSpecView) -> bool {
    |l: LinkSpecView| !is_moore_name(t, l.out.0) && !is_moore_name(t, l.into.0)
}

/// Whether some machine named `name` is declared Moore.
fn moore_named(spec: &DynamicTopology, name: &String) -> (r: bool)
    ensures
        r == is_moore_name(spec@, name@),
{
    let mut j: usize = 0;
    while j < spec.machines.len()
        invariant
            j <= spec.machines.len(),
            forall|k: int| 0 <= k < j ==> !(#[trigger] spec@.machines[k].name == name@ && spec@.machines[k].is_moore),
        decreases spec.machines.len() - j,
    {
        if spec.machines[j].is_moore && spec.machines[j].name == *name {
            proof {
                assert(spec@.machines[j as int].name == name@);
            }
            return true;
        }
        proof {
            assert(spec@.machines[j as int] == spec.machines@[j as int]@);
        }
        j = j + 1;
    }
    false
}

/// Which links a selection keeps: `Inline` between distinct machines
/// (`0`), any kind between distinct machines (`1`), or with no Moore
/// machine at either end (`2`).
fn keep_links(spec: &DynamicTopology, which: u8, Ghost(pred): Ghost<spec_fn(LinkSpecView) -> bool>) -> (keep: Vec<bool>)
    requires
        which == 0 ==> pred == inline_links(),
        which == 1 ==> pred == any_links(),
        which == 2 ==> pred == non_moore_link(spec@),
        which <= 2,
    ensures
        keep.len() == spec.links.len(),
        forall|i: int| 0 <= i < spec.links.len() ==> #[trigger] keep@[i] == pred(spec.links@[i]@),
{
    let mut keep: Vec<bool> = Vec::new();
    let mut i: usize = 0;
    while i < spec.links.len()
        invariant
            i <= spec.links.len(),
            keep.len() == i,
            which == 0 ==> pred == inline_links(),
            which == 1 ==> pred == any_links(),
            which == 2 ==> pred == non_moore_link(spec@),
            which <= 2,
            forall|j: int| 0 <= j < i ==> #[trigger] keep@[j] == pred(spec.links@[j]@),
        decreases spec.links.len() - i,
    {
        let l = &spec.links[i];
        let distinct = l.out.0 != l.into.0;
        let k = if which == 0 {
            distinct && matches!(l.kind, LinkKind::Inline)
        } else if which == 1 {
            distinct
        } else {
            !moore_named(spec, &l.out.0) && !moore_named(spec, &l.into.0)
        };
        keep.push(k);
        i = i + 1;
    }
    keep
}

/// The graph over the sorted machine names of a selection of links.
fn selected_graph(spec: &DynamicTopology, nodes: &Vec<String>, which: u8, Ghost(pred): Ghost<spec_fn(LinkSpecView) -> bool>) -> (adj: Vec<Vec<usize>>)
    requires
        which == 0 ==> pred == inline_links(),
        which == 1 ==> pred == any_links(),
        which == 2 ==> pred == non_moore_link(spec@),
        which <= 2,
        node_order(spec@, names_of(nodes@)),
    ensures
        graph_of_links(spec@.links, pred, names_of(nodes@), adj_view(&adj)),
        total_entries(adj_view(&adj)) <= usize::MAX,
        forall|u: int, i: int, j: int| 0 <= u < adj.len() && 0 <= i < j < adj@[u]@.len() ==> #[trigger] adj@[u]@[i] <= #[trigger] adj@[u]@[j],
{
    let keep = keep_links(spec, which, Ghost(pred));
    let adj = link_graph(&spec.links, &keep, Ghost(pred), nodes);
    proof {
        assert(spec@.links =~= spec.links@.map_values(|l: LinkSpec| l@));
        assert(spec@.links.len() == spec.links.len());
    }
    adj
}

// ── Enforced checks ─────────────────────────────────────────────────────

/// Whether `c` lists, in increasing order of name, exactly the machines
/// that lie on a cycle of selected links.
pub open spec fn on_cycle_names(t: TopologyView, keep: spec_fn(LinkSpecView) -> bool, c: Seq<Seq<char>>) -> bool {
    &&& strictly_sorted(c)
    &&& forall|x: Seq<char>| #[trigger] c.contains(x) <==> is_machine(t, x) && names_reach(t, keep, x, x)
}

/// The nodes that reach themselves, in increasing order.
fn self_reaching(adj: &Vec<Vec<usize>>) -> (idx: Vec<usize>)
    requires
        graph_wf(adj_view(adj)),
    ensures
        forall|i: int| 0 <= i < idx.len() ==> #[trigger] idx@[i] < adj.len(),
        forall|i: int, j: int| 0 <= i < j < idx.len() ==> #[trigger] idx@[i] < #[trigger] idx@[j],
        forall|v: int| 0 <= v < adj.len() ==> (idx@.contains(v as usize) <==> reaches(adj_view(adj), v, v)),
{
    let mut idx: Vec<usize> = Vec::new();
    let mut u: usize = 0;
    while u < adj.len()
        invariant
            u <= adj.len(),
            graph_wf(adj_view(adj)),
            forall|i: int| 0 <= i < idx.len() ==> #[trigger] idx@[i] < u,
            forall|i: int, j: int| 0 <= i < j < idx.len() ==> #[trigger] idx@[i] < #[trigger] idx@[j],
            forall|v: int| 0 <= v < u ==> (idx@.contains(v as usize) <==> reaches(adj_view(adj), v, v)),
        decreases adj.len() - u,
    {
        let seen = reachable_set(adj, u);
        let ghost before = idx@;
        if seen[u] {
            idx.push(u);
        }
        proof {
            assert forall|v: int| 0 <= v <= u implies (idx@.contains(v as usize) <==> reaches(adj_view(adj), v, v)) by {
                if v < u {
                    if idx@.contains(v as usize) {
                        let i = choose|i: int| 0 <= i < idx@.len() && idx@[i] == v as usize;
                        if i < before.len() {
                            assert(before[i] == v as usize);
                        }
                    }
                    if before.contains(v as usize) {
                        let i = choose|i: int| 0 <= i < before.len() && before[i] == v as usize;
                        assert(idx@[i] == v as usize);
                    }
                } else {
                    if before.contains(v as usize) {
                        let i = choose|i: int| 0 <= i < before.len() && before[i] == v as usize;
                    }
                    if seen@[u as int] {
                        assert(idx@[before.len() as int] == u);
                    }
                }
            }
        }
        u = u + 1;
    }
    idx
}

/// Inline acyclicity: the subgraph of Inline links between distinct
/// machines must be a DAG, an Inline cycle being a synchronous call that
/// never returns. `None` when it is; otherwise the machines that form the
/// Inline cycles (each lying on one), in increasing order of name.
pub fn inline_cycle(spec: &DynamicTopology) -> (r: Option<Vec<String>>)
    ensures
        r is None <==> names_acyclic(spec@, inline_links()),
        r matches Some(c) ==> c.len() > 0 && on_cycle_names(spec@, inline_links(), names_of(c@)),
{
    let ghost pred = inline_links();
    let nodes = sorted_machine_names(spec);
    let adj = selected_graph(spec, &nodes, 0, Ghost(pred));
    proof {
        lemma_acyclic_transfer(spec@, pred, names_of(nodes@), adj_view(&adj));
    }
    match find_cycle(&adj) {
        None => None,
        Some(cyc) => {
            let ghost g = adj_view(&adj);
            let ghost ns = names_of(nodes@);
            proof {
                crate::graph::lemma_acyclic_no_cycle(g, cyc@);
            }
            let idx = self_reaching(&adj);
            let r = names_at_nodes(&nodes, &idx);
            proof {
                let c = names_of(r@);
                assert(ns.len() == nodes.len());
                assert forall|i: int, j: int| 0 <= i < j < c.len() implies crate::order::seq_lt(#[trigger] c[i], #[trigger] c[j]) by {
                    assert(idx@[i] < idx@[j]);
                }
                assert forall|x: Seq<char>| #[trigger] c.contains(x) <==> is_machine(spec@, x) && names_reach(spec@, pred, x, x) by {
                    if c.contains(x) {
                        let i = choose|i: int| 0 <= i < c.len() && c[i] == x;
                        let v = idx@[i] as int;
                        assert(idx@.contains(v as usize));
                        lemma_reach_transfer(spec@, pred, ns, g, v, v);
                        assert(ns.contains(ns[v]));
                    }
                    if is_machine(spec@, x) && names_reach(spec@, pred, x, x) {
                        lemma_node_index(spec@, ns, x);
                        let v = node_index(ns, x);
                        lemma_reach_transfer(spec@, pred, ns, g, v, v);
                        let i = choose|i: int| 0 <= i < idx@.len() && idx@[i] == v as usize;
                        assert(c[i] == x);
                    }
                }
                // The first node of the cycle found reaches itself.
                let v = cyc@[0] as int;
                assert(is_walk(g, cyc@));
                assert(reaches(g, v, v));
                let i = choose|i: int| 0 <= i < idx@.len() && idx@[i] == v as usize;
                assert(c.len() > 0);
            }
            Some(r)
        },
    }
}

/// The execution order of the Inline subgraph: every machine once, each
/// after the machines that call it inline; or, when Inline links form a
/// cycle, the machines that cannot be ordered.
pub fn inline_topological_order(spec: &DynamicTopology) -> (r: Result<Vec<String>, Vec<String>>)
    ensures
        r is Ok <==> names_acyclic(spec@, inline_links()),
        r matches Ok(order) ==> name_topological(spec@, inline_links(), names_of(order@)),
        r matches Err(c) ==> name_remainder(spec@, inline_links(), names_of(c@)),
{
    let ghost pred = inline_links();
    let nodes = sorted_machine_names(spec);
    let adj = selected_graph(spec, &nodes, 0, Ghost(pred));
    proof {
        lemma_acyclic_transfer(spec@, pred, names_of(nodes@), adj_view(&adj));
    }
    match kahn(&adj) {
        Ok(order) => {
            proof {
                lemma_order_transfer(spec@, pred, names_of(nodes@), adj_view(&adj), order@);
            }
            Ok(names_at_nodes(&nodes, &order))
        },
        Err(rem) => {
            proof {
                lemma_remainder_transfer(spec@, pred, names_of(nodes@), adj_view(&adj), rem@);
            }
            Err(names_at_nodes(&nodes, &rem))
        },
    }
}

/// A topological order of all nodes names a topological order of all
/// machines.
proof fn lemma_order_transfer(t: TopologyView, keep: spec_fn(LinkSpecView) -> bool, nodes: Seq<Seq<char>>, g: Seq<Seq<usize>>, order: Seq<usize>)
    requires
        node_order(t, nodes),
        graph_of_links(t.links, keep, nodes, g),
        order.len() == g.len(),
        order.no_duplicates(),
        forall|i: int| 0 <= i < order.len() ==> #[trigger] order[i] < g.len(),
        is_topological(g, order),
    ensures
        name_topological(t, keep, names_at(nodes, order)),
{
    let c = names_at(nodes, order);
    assert(c.no_duplicates()) by {
        assert forall|i: int, j: int| 0 <= i < c.len() && 0 <= j < c.len() && i != j implies c[i] != c[j] by {
            if c[i] == c[j] {
                lemma_sorted_distinct(nodes, order[i] as int, order[j] as int);
            }
        }
    }
    assert forall|x: Seq<char>| c.contains(x) <==> is_machine(t, x) by {
        if c.contains(x) {
            let i = choose|i: int| 0 <= i < c.len() && c[i] == x;
            assert(nodes.contains(nodes[order[i] as int]));
        }
        if is_machine(t, x) {
            lemma_node_index(t, nodes, x);
            let u = node_index(nodes, x);
            crate::graph::lemma_distinct_full(order, g.len() as int, u);
            let i = choose|i: int| 0 <= i < order.len() && order[i] == u as usize;
            assert(c[i] == x);
        }
    }
    assert forall|i: int, j: int| 0 <= i < j < c.len() implies !named_edge(t, keep, #[trigger] c[j], #[trigger] c[i]) by {
        lemma_edge_transfer(t, keep, nodes, g, order[j] as int, order[i] as int);
    }
}

/// The edges between the machines `nodes` (by position) along links
/// between machines neither of which is Moore.
pub open spec fn non_moore_edge(t: TopologyView, nodes: Seq<Seq<char>>) -> spec_fn(int, int) -> bool {
    |u: int, v: int| 0 <= u < nodes.len() && 0 <= v < nodes.len() && link_runs(t.links, non_moore_link(t), nodes[u], nodes[v])
}

/// The cycle among non-Moore machines that a depth-first search meets
/// first, starting from each machine in increasing order of name and
/// trying successors in increasing order of name: the names along it, the
/// first repeated at the end; `None` when it meets none.
pub open spec fn first_non_moore_cycle(t: TopologyView, nodes: Seq<Seq<char>>) -> Option<Seq<Seq<char>>> {
    match dfs_first_cycle(non_moore_edge(t, nodes), nodes.len() as nat) {
        Some(c) => Some(names_at(nodes, c)),
        None => None,
    }
}

impl DynamicTopology {
    /// A cycle among the machines of which none is Moore, found by
    /// depth-first search over the machine names in increasing order, each
    /// machine's successors tried in increasing order of name: the first
    /// edge back to a machine on the search stack closes it, and the names
    /// along it come back, the first repeated at the end. `None` when there
    /// is no such cycle.
    pub fn find_non_moore_cycle(&self) -> (r: Option<Vec<String>>)
        ensures
            r is None <==> names_acyclic(self@, non_moore_link(self@)),
            r matches Some(c) ==> is_name_cycle(self@, non_moore_link(self@), names_of(c@)),
            exists|nodes: Seq<Seq<char>>| #[trigger] node_order(self@, nodes) && match r {
                Some(c) => first_non_moore_cycle(self@, nodes) == Some(names_of(c@)),
                None => first_non_moore_cycle(self@, nodes) is None,
            },
    {
        let ghost pred = non_moore_link(self@);
        let ghost t = self@;
        let nodes = sorted_machine_names(self);
        let ghost names = names_of(nodes@);
        let adj = selected_graph(self, &nodes, 2, Ghost(pred));
        let ghost g = adj_view(&adj);
        proof {
            lemma_acyclic_transfer(t, pred, names, g);
        }
        let m = edge_matrix(&adj);
        let ghost e = non_moore_edge(t, names);
        proof {
            assert forall|a: int, b: int| 0 <= a < m.len() && 0 <= b < m.len() implies #[trigger] e(a, b) == m@[a]@[b] by {
                assert(m@[a]@[b] == has_edge(g, a, b));
            }
        }
        match dfs_first_back_cycle(&m, Ghost(e)) {
            None => {
                proof {
                    let rank = choose|rank: Seq<int>| rank.len() == m.len()
                        && forall|u: int, v: int| 0 <= u < m.len() && 0 <= v < m.len() && #[trigger] e(u, v) ==> rank[v] < rank[u];
                    assert forall|u: int, v: int| #[trigger] has_edge(g, u, v) implies rank[v] < rank[u] by {
                        assert(e(u, v));
                    }
                    assert(ranks_edges(g, rank));
                }
                None
            },
            Some(c) => {
                proof {
                    assert(is_cycle(g, c@)) by {
                        assert forall|i: int| 0 <= i < c@.len() - 1 implies has_edge(g, #[trigger] c@[i] as int, c@[i + 1] as int) by {
                            assert(e(c@[i] as int, c@[i + 1] as int));
                        }
                    }
                    lemma_cycle_transfer(t, pred, names, g, c@);
                    crate::graph::lemma_acyclic_no_cycle(g, c@);
                }
                let r = names_at_nodes(&nodes, &c);
                proof {
                    assert(first_non_moore_cycle(t, names) == Some(names_of(r@)));
                }
                Some(r)
            },
        }
    }
}

// ── Edge-degree limits ──────────────────────────────────────────────────

/// A port whose number of links of one kind exceeds that kind's limit.
#[derive(Debug)]
pub struct DegreeViolation {
    pub machine: String,
    pub port: String,
    pub link_kind: String,
    pub direction: String,
    pub limit: usize,
    pub actual: usize,
}

/// The value of a degree violation, names by their characters.
pub struct DegreeViolationView {
    pub machine: Seq<char>,
    pub port: Seq<char>,
    pub link_kind: Seq<char>,
    pub direction: Seq<char>,
    pub limit: usize,
    pub actual: usize,
}

impl View for DegreeViolation {
    type V = DegreeViolationView;

    open spec fn view(&self) -> DegreeViolationView {
        DegreeViolationView {
            machine: self.machine@,
            port: self.port@,
            link_kind: self.link_kind@,
            direction: self.direction@,
            limit: self.limit,
            actual: self.actual,
        }
    }
}

impl Clone for DegreeViolation {
    fn clone(&self) -> (r: Self)
        ensures
            r@ == self@,
    {
        DegreeViolation {
            machine: self.machine.clone(),
            port: self.port.clone(),
            link_kind: self.link_kind.clone(),
            direction: self.direction.clone(),
            limit: self.limit,
            actual: self.actual,
        }
    }
}

/// The degree-limited kinds: `Inline` (0), `Channel` (1), `CasFreeRing`
/// (2); the other kinds have no limit (-1).
pub open spec fn kind_tag(k: LinkKind) -> int {
    match k {
        LinkKind::Inline => 0,
        LinkKind::Channel { .. } => 1,
        LinkKind::CasFreeRing { .. } => 2,
        _ => -1,
    }
}

/// Whether links of a kind limit the degree of ports in a direction:
/// one call per Inline output, one consumer per Channel input, one
/// producer and one consumer per CasFreeRing.
pub open spec fn degree_limited(tag: int, out: bool) -> bool {
    (tag == 0 && out) || (tag == 1 && !out) || tag == 2
}

/// The name of a degree-limited kind.
pub open spec fn tag_name(tag: int) -> Seq<char> {
    if tag == 0 {
        "Inline"@
    } else if tag == 1 {
        "Channel"@
    } else {
        "CasFreeRing"@
    }
}

/// The name of a direction.
pub open spec fn dir_name(out: bool) -> Seq<char> {
    if out {
        "output"@
    } else {
        "input"@
    }
}

/// Whether a link starts (`out`) or ends (`!out`) at port `(m, p)`.
pub open spec fn at_port(l: LinkSpecView, m: Seq<char>, p: Seq<char>, out: bool) -> bool {
    if out {
        l.out == (m, p)
    } else {
        l.into == (m, p)
    }
}

/// The links among the first `k` of kind `tag` at port `(m, p)` in
/// direction `out`.
pub open spec fn port_degree(links: Seq<LinkSpecView>, m: Seq<char>, p: Seq<char>, out: bool, tag: int, k: int) -> nat
    decreases k,
{
    if k <= 0 {
        0
    } else {
        port_degree(links, m, p, out, tag, k - 1) + if kind_tag(links[k - 1].kind) == tag && at_port(links[k - 1], m, p, out) {
            1nat
        } else {
            0nat
        }
    }
}

/// The links of kind `tag` at port `(m, p)` in direction `out`.
pub open spec fn degree_of(t: TopologyView, m: Seq<char>, p: Seq<char>, out: bool, tag: int) -> nat {
    port_degree(t.links, m, p, out, tag, t.links.len() as int)
}

/// Whether `v` reports that port `(v.machine, v.port)` has more than one
/// link of kind `tag` in direction `out`, where that kind allows one.
pub open spec fn reports_violation(t: TopologyView, v: DegreeViolationView, tag: int, out: bool) -> bool {
    &&& degree_limited(tag, out)
    &&& v.link_kind == tag_name(tag)
    &&& v.direction == dir_name(out)
    &&& v.limit == 1
    &&& v.actual == degree_of(t, v.machine, v.port, out, tag)
    &&& v.actual > 1
}

/// Whether `v` reports a degree violation of the topology.
pub open spec fn is_degree_violation(t: TopologyView, v: DegreeViolationView) -> bool {
    exists|tag: int, out: bool| #[trigger] reports_violation(t, v, tag, out)
}

/// The order of violations: by machine, port, kind name, then direction.
pub open spec fn violation_before(a: DegreeViolationView, b: DegreeViolationView) -> bool {
    ||| pair_lt((a.machine, a.port), (b.machine, b.port))
    ||| (a.machine, a.port) == (b.machine, b.port) && seq_lt(a.link_kind, b.link_kind)
    ||| (a.machine, a.port) == (b.machine, b.port) && a.link_kind == b.link_kind && seq_lt(a.direction, b.direction)
}

/// Whether `vs` reports the violation of kind `tag` in direction `out` at
/// port `(m, p)`.
pub open spec fn lists_violation(vs: Seq<DegreeViolationView>, m: Seq<char>, p: Seq<char>, tag: int, out: bool) -> bool {
    exists|i: int| 0 <= i < vs.len() && #[trigger] vs[i].machine == m && vs[i].port == p
        && vs[i].link_kind == tag_name(tag) && vs[i].direction == dir_name(out)
}

/// Whether port `x` is an end of link `j`.
pub open spec fn endpoint_of(t: TopologyView, j: int, x: (Seq<char>, Seq<char>)) -> bool {
    t.links[j].out == x || t.links[j].into == x
}

/// Whether port `x` is an end of one of the first `n` links.
pub open spec fn is_endpoint(t: TopologyView, x: (Seq<char>, Seq<char>), n: int) -> bool {
    exists|j: int| 0 <= j < n && #[trigger] endpoint_of(t, j, x)
}

/// The number of links of kind `tag` at port `(m, p)` in direction `out`.
fn count_degree(spec: &DynamicTopology, m: &String, p: &String, out: bool, tag: u8) -> (c: usize)
    requires
        tag <= 2,
    ensures
        c == degree_of(spec@, m@, p@, out, tag as int),
{
    let ghost t = spec@;
    let mut c: usize = 0;
    let mut i: usize = 0;
    while i < spec.links.len()
        invariant
            i <= spec.links.len(),
            t == spec@,
            t.links.len() == spec.links.len(),
            tag <= 2,
            c == port_degree(t.links, m@, p@, out, tag as int, i as int),
            c <= i,
        decreases spec.links.len() - i,
    {
        let l = &spec.links[i];
        let k: u8 = match l.kind {
            LinkKind::Inline => 0,
            LinkKind::Channel { .. } => 1,
            LinkKind::CasFreeRing { .. } => 2,
            _ => 3,
        };
        let here = if out {
            l.out.0 == *m && l.out.1 == *p
        } else {
            l.into.0 == *m && l.into.1 == *p
        };
        proof {
            assert(t.links[i as int] == l@);
        }
        if k == tag && here {
            c = c + 1;
        }
        i = i + 1;
    }
    c
}

/// A link of kind `tag` at a port, if there is one, makes the port an
/// end of some link.
proof fn lemma_degree_positive(links: Seq<LinkSpecView>, m: Seq<char>, p: Seq<char>, out: bool, tag: int, k: int)
    requires
        0 <= k <= links.len(),
        port_degree(links, m, p, out, tag, k) > 0,
    ensures
        exists|j: int| 0 <= j < k && #[trigger] at_port(links[j], m, p, out),
    decreases k,
{
    if k > 0 {
        if port_degree(links, m, p, out, tag, k - 1) > 0 {
            lemma_degree_positive(links, m, p, out, tag, k - 1);
            let j = choose|j: int| 0 <= j < k - 1 && #[trigger] at_port(links[j], m, p, out);
        } else {
            assert(at_port(links[k - 1], m, p, out));
        }
    }
}

/// Adds to `vs` the violation of kind `tag` in direction `out` at port
/// `(m, p)`, if there is one.
fn add_port_violation(spec: &DynamicTopology, m: &String, p: &String, out: bool, tag: u8, vs: &mut Vec<DegreeViolation>)
    requires
        tag <= 2,
        degree_limited(tag as int, out),
    ensures
        degree_of(spec@, m@, p@, out, tag as int) > 1 ==> final(vs)@ == old(vs)@.push(final(vs)@.last()) && ({
            let v = final(vs)@.last()@;
            &&& v.machine == m@ && v.port == p@
            &&& reports_violation(spec@, v, tag as int, out)
        }),
        degree_of(spec@, m@, p@, out, tag as int) <= 1 ==> final(vs)@ == old(vs)@,
{
    let c = count_degree(spec, m, p, out, tag);
    if c > 1 {
        let kind = if tag == 0 {
            "Inline"
        } else if tag == 1 {
            "Channel"
        } else {
            "CasFreeRing"
        };
        let dir = if out {
            "output"
        } else {
            "input"
        };
        vs.push(DegreeViolation {
            machine: m.clone(),
            port: p.clone(),
            link_kind: kind.to_owned(),
            direction: dir.to_owned(),
            limit: 1,
            actual: c,
        });
    }
}

/// The violations at port `(m, p)`, ordered by kind name, then direction.
fn port_violations(spec: &DynamicTopology, m: &String, p: &String) -> (vs: Vec<DegreeViolation>)
    ensures
        forall|i: int| 0 <= i < vs.len() ==> #[trigger] vs@[i]@.machine == m@ && vs@[i]@.port == p@ && is_degree_violation(spec@, vs@[i]@),
        forall|i: int, j: int| 0 <= i < j < vs.len() ==> violation_before(#[trigger] vs@[i]@, #[trigger] vs@[j]@),
        forall|tag: int, out: bool| degree_limited(tag, out) && #[trigger] degree_of(spec@, m@, p@, out, tag) > 1
            ==> lists_violation(vs@.map_values(|v: DegreeViolation| v@), m@, p@, tag, out),
{
    let mut vs: Vec<DegreeViolation> = Vec::new();
    proof {
        lemma_kind_names_ordered();
    }
    let ghost v0 = vs@;
    add_port_violation(spec, m, p, false, 2, &mut vs);
    let ghost v1 = vs@;
    add_port_violation(spec, m, p, true, 2, &mut vs);
    let ghost v2 = vs@;
    add_port_violation(spec, m, p, false, 1, &mut vs);
    let ghost v3 = vs@;
    add_port_violation(spec, m, p, true, 0, &mut vs);
    proof {
        let t = spec@;
        let vv = vs@.map_values(|v: DegreeViolation| v@);
        // Each entry came from one of the four checks, in this order.
        let combo = |v: DegreeViolationView|
            if v.link_kind == "CasFreeRing"@ && v.direction == "input"@ {
                0int
            } else if v.link_kind == "CasFreeRing"@ {
                1int
            } else if v.link_kind == "Channel"@ {
                2int
            } else {
                3int
            };
        reveal_strlit("CasFreeRing");
        reveal_strlit("Channel");
        reveal_strlit("Inline");
        reveal_strlit("input");
        reveal_strlit("output");
        assert(v0.len() == 0);
        assert forall|i: int| 0 <= i < vs.len() implies #[trigger] vs@[i]@.machine == m@ && vs@[i]@.port == p@ && is_degree_violation(t, vs@[i]@) && (
            (i < v1.len() ==> combo(vs@[i]@) == 0) && (v1.len() <= i < v2.len() ==> combo(vs@[i]@) == 1)
            && (v2.len() <= i < v3.len() ==> combo(vs@[i]@) == 2) && (v3.len() <= i ==> combo(vs@[i]@) == 3)) by {
            if i < v1.len() {
                assert(vs@[i] == v1[i]);
                assert(reports_violation(t, vs@[i]@, 2, false));
            } else if i < v2.len() {
                assert(vs@[i] == v2[i]);
                assert(reports_violation(t, vs@[i]@, 2, true));
            } else if i < v3.len() {
                assert(vs@[i] == v3[i]);
                assert(reports_violation(t, vs@[i]@, 1, false));
            } else {
                assert(reports_violation(t, vs@[i]@, 0, true));
            }
        }
        assert(v1.len() <= v2.len() <= v3.len() <= vs.len());
        assert forall|i: int, j: int| 0 <= i < j < vs.len() implies violation_before(#[trigger] vs@[i]@, #[trigger] vs@[j]@) by {
            assert(v1.len() <= 1 && v2.len() <= v1.len() + 1 && v3.len() <= v2.len() + 1 && vs.len() <= v3.len() + 1);
            assert(combo(vs@[i]@) < combo(vs@[j]@));
        }
        assert forall|tag: int, out: bool| degree_limited(tag, out) && #[trigger] degree_of(t, m@, p@, out, tag) > 1
            implies lists_violation(vv, m@, p@, tag, out) by {
            if tag == 2 && !out {
                assert(vv[v0.len() as int] == vs@[v0.len() as int]@);
            } else if tag == 2 && out {
                assert(vv[v1.len() as int] == vs@[v1.len() as int]@);
            } else if tag == 1 {
                assert(vv[v2.len() as int] == vs@[v2.len() as int]@);
            } else {
                assert(vv[v3.len() as int] == vs@[v3.len() as int]@);
            }
        }
    }
    vs
}

/// The ports whose number of links of a degree-limited kind exceeds the
/// limit: an `Inline` output with more than one link, a `Channel` input
/// with more than one, a `CasFreeRing` port with more than one in either
/// direction. Ordered by machine, port, kind name, then direction; empty
/// when every limit holds.
pub fn degree_violations(spec: &DynamicTopology) -> (r: Vec<DegreeViolation>)
    ensures
        forall|i: int| 0 <= i < r.len() ==> is_degree_violation(spec@, #[trigger] r@[i]@),
        forall|i: int, j: int| 0 <= i < j < r.len() ==> violation_before(#[trigger] r@[i]@, #[trigger] r@[j]@),
        forall|m: Seq<char>, p: Seq<char>, tag: int, out: bool| degree_limited(tag, out) && #[trigger] degree_of(spec@, m, p, out, tag) > 1
            ==> lists_violation(r@.map_values(|v: DegreeViolation| v@), m, p, tag, out),
{
    let ghost t = spec@;
    // Every end of a link, once, in increasing order.
    let mut ports: Vec<(String, String)> = Vec::new();
    let mut i: usize = 0;
    while i < spec.links.len()
        invariant
            i <= spec.links.len(),
            t == spec@,
            t.links.len() == spec.links.len(),
            pairs_sorted(pairs_of(ports@)),
            forall|x: (Seq<char>, Seq<char>)| pairs_of(ports@).contains(x) <==> #[trigger] is_endpoint(t, x, i as int),
        decreases spec.links.len() - i,
    {
        let ghost p0 = pairs_of(ports@);
        insert_sorted_pair(&mut ports, spec.links[i].out.0.as_str(), spec.links[i].out.1.as_str());
        let ghost p1 = pairs_of(ports@);
        insert_sorted_pair(&mut ports, spec.links[i].into.0.as_str(), spec.links[i].into.1.as_str());
        proof {
            assert(t.links[i as int] == spec.links@[i as int]@);
            assert forall|x: (Seq<char>, Seq<char>)| pairs_of(ports@).contains(x) <==> #[trigger] is_endpoint(t, x, i + 1) by {
                if is_endpoint(t, x, i + 1) {
                    let j = choose|j: int| 0 <= j < i + 1 && #[trigger] endpoint_of(t, j, x);
                    if j < i {
                        assert(is_endpoint(t, x, i as int));
                        assert(p0.contains(x));
                    }
                }
                if p0.contains(x) {
                    assert(is_endpoint(t, x, i as int));
                    let j = choose|j: int| 0 <= j < i && #[trigger] endpoint_of(t, j, x);
                    assert(endpoint_of(t, j, x));
                }
                if pairs_of(ports@).contains(x) && !p0.contains(x) {
                    assert(endpoint_of(t, i as int, x));
                }
            }
        }
        i = i + 1;
    }
    let mut r: Vec<DegreeViolation> = Vec::new();
    let mut k: usize = 0;
    while k < ports.len()
        invariant
            k <= ports.len(),
            t == spec@,
            pairs_sorted(pairs_of(ports@)),
            forall|x: (Seq<char>, Seq<char>)| pairs_of(ports@).contains(x) <==> #[trigger] is_endpoint(t, x, t.links.len() as int),
            forall|i: int| 0 <= i < r.len() ==> is_degree_violation(t, #[trigger] r@[i]@),
            forall|i: int| 0 <= i < r.len() ==> exists|j: int| 0 <= j < k && (#[trigger] r@[i]@.machine, r@[i]@.port) == pairs_of(ports@)[j],
            forall|i: int, j: int| 0 <= i < j < r.len() ==> violation_before(#[trigger] r@[i]@, #[trigger] r@[j]@),
            forall|j: int, tag: int, out: bool| 0 <= j < k && degree_limited(tag, out) && #[trigger] degree_of(t, pairs_of(ports@)[j].0, pairs_of(ports@)[j].1, out, tag) > 1
                ==> lists_violation(r@.map_values(|v: DegreeViolation| v@), pairs_of(ports@)[j].0, pairs_of(ports@)[j].1, tag, out),
        decreases ports.len() - k,
    {
        let ghost pp = pairs_of(ports@);
        let vs = port_violations(spec, &ports[k].0, &ports[k].1);
        let ghost r0 = r@;
        let mut q: usize = 0;
        while q < vs.len()
            invariant
                q <= vs.len(),
                r@.len() == r0.len() + q,
                forall|i: int| 0 <= i < r0.len() ==> #[trigger] r@[i] == r0[i],
                forall|i: int| #![trigger vs@[i]] 0 <= i < q ==> r@[r0.len() + i]@ == vs@[i]@,
            decreases vs.len() - q,
        {
            r.push(vs[q].clone());
            q = q + 1;
        }
        proof {
            assert(pp[k as int] == (ports@[k as int].0@, ports@[k as int].1@));
            assert forall|i: int| 0 <= i < r.len() implies is_degree_violation(t, #[trigger] r@[i]@) by {
                if i >= r0.len() {
                    assert(r@[i]@ == vs@[i - r0.len()]@);
                    assert(vs@[i - r0.len()]@.machine == ports@[k as int].0@);
                } else {
                    assert(r@[i] == r0[i]);
                    assert(is_degree_violation(t, r0[i]@));
                }
            }
            assert forall|i: int| 0 <= i < r.len() implies exists|j: int| 0 <= j < k + 1 && (#[trigger] r@[i]@.machine, r@[i]@.port) == pp[j] by {
                if i >= r0.len() {
                    assert(r@[i]@ == vs@[i - r0.len()]@);
                    assert((r@[i]@.machine, r@[i]@.port) == pp[k as int]);
                } else {
                    assert(r@[i] == r0[i]);
                }
            }
            assert forall|i: int, j: int| 0 <= i < j < r.len() implies violation_before(#[trigger] r@[i]@, #[trigger] r@[j]@) by {
                if j >= r0.len() {
                    assert(r@[j]@ == vs@[j - r0.len()]@);
                    if i >= r0.len() {
                        assert(r@[i]@ == vs@[i - r0.len()]@);
                    } else {
                        assert(r@[i] == r0[i]);
                        let jj = choose|jj: int| 0 <= jj < k && (#[trigger] r0[i]@.machine, r0[i]@.port) == pp[jj];
                        assert(pair_lt(pp[jj], pp[k as int]));
                    }
                } else {
                    assert(r@[i] == r0[i] && r@[j] == r0[j]);
                }
            }
            let rv = r@.map_values(|v: DegreeViolation| v@);
            let r0v = r0.map_values(|v: DegreeViolation| v@);
            let vsv = vs@.map_values(|v: DegreeViolation| v@);
            assert forall|j: int, tag: int, out: bool| 0 <= j < k + 1 && degree_limited(tag, out) && #[trigger] degree_of(t, pp[j].0, pp[j].1, out, tag) > 1
                implies lists_violation(rv, pp[j].0, pp[j].1, tag, out) by {
                if j < k {
                    assert(lists_violation(r0v, pp[j].0, pp[j].1, tag, out));
                    let i = choose|i: int| 0 <= i < r0v.len() && #[trigger] r0v[i].machine == pp[j].0 && r0v[i].port == pp[j].1
                        && r0v[i].link_kind == tag_name(tag) && r0v[i].direction == dir_name(out);
                    assert(rv[i] == r0v[i]);
                } else {
                    assert(lists_violation(vsv, pp[j].0, pp[j].1, tag, out));
                    let i = choose|i: int| 0 <= i < vsv.len() && #[trigger] vsv[i].machine == pp[j].0 && vsv[i].port == pp[j].1
                        && vsv[i].link_kind == tag_name(tag) && vsv[i].direction == dir_name(out);
                    assert(rv[r0.len() + i] == vsv[i]);
                }
            }
        }
        k = k + 1;
    }
    proof {
        let pp = pairs_of(ports@);
        assert forall|m: Seq<char>, p: Seq<char>, tag: int, out: bool| degree_limited(tag, out) && #[trigger] degree_of(t, m, p, out, tag) > 1
            implies lists_violation(r@.map_values(|v: DegreeViolation| v@), m, p, tag, out) by {
            lemma_degree_positive(t.links, m, p, out, tag, t.links.len() as int);
            let j = choose|j: int| 0 <= j < t.links.len() && #[trigger] at_port(t.links[j], m, p, out);
            assert(endpoint_of(t, j, (m, p)));
            assert(is_endpoint(t, (m, p), t.links.len() as int));
            assert(pp.contains((m, p)));
            let q = choose|q: int| 0 <= q < pp.len() && pp[q] == (m, p);
            assert(degree_of(t, pp[q].0, pp[q].1, out, tag) > 1);
        }
    }
    r
}

// ── Reachability ────────────────────────────────────────────────────────

/// Whether `c` is a walk of machine names along selected links.
pub open spec fn is_name_walk(t: TopologyView, keep: spec_fn(LinkSpecView) -> bool, c: Seq<Seq<char>>) -> bool {
    forall|i: int| 0 <= i < c.len() - 1 ==> #[trigger] named_edge(t, keep, c[i], c[i + 1])
}

/// Whether machine `b` can be reached from `a` along at least one
/// selected link.
pub open spec fn names_reach(t: TopologyView, keep: spec_fn(LinkSpecView) -> bool, a: Seq<char>, b: Seq<char>) -> bool {
    exists|c: Seq<Seq<char>>| #[trigger] is_name_walk(t, keep, c) && c.len() >= 2 && c[0] == a && c.last() == b
}

/// Reachability in the graph is reachability between the machines.
proof fn lemma_reach_transfer(t: TopologyView, keep: spec_fn(LinkSpecView) -> bool, nodes: Seq<Seq<char>>, g: Seq<Seq<usize>>, s: int, v: int)
    requires
        node_order(t, nodes),
        graph_of_links(t.links, keep, nodes, g),
        0 <= s < nodes.len(),
        0 <= v < nodes.len(),
    ensures
        reaches(g, s, v) <==> names_reach(t, keep, nodes[s], nodes[v]),
{
    if reaches(g, s, v) {
        let p = choose|p: Seq<usize>| #[trigger] is_walk(g, p) && p.len() >= 2 && p[0] == s && p.last() == v;
        let c = names_at(nodes, p);
        assert forall|i: int| 0 <= i < c.len() - 1 implies #[trigger] named_edge(t, keep, c[i], c[i + 1]) by {
            assert(has_edge(g, p[i] as int, p[i + 1] as int));
            lemma_edge_transfer(t, keep, nodes, g, p[i] as int, p[i + 1] as int);
        }
        assert(is_name_walk(t, keep, c));
    }
    if names_reach(t, keep, nodes[s], nodes[v]) {
        let c = choose|c: Seq<Seq<char>>| #[trigger] is_name_walk(t, keep, c) && c.len() >= 2 && c[0] == nodes[s] && c.last() == nodes[v];
        assert forall|i: int| 0 <= i < c.len() implies is_machine(t, #[trigger] c[i]) by {
            if i < c.len() - 1 {
                assert(named_edge(t, keep, c[i], c[i + 1]));
            } else {
                let j = i - 1;
                assert(named_edge(t, keep, c[j], c[j + 1]));
            }
        }
        let p = Seq::new(c.len(), |i: int| node_index(nodes, c[i]) as usize);
        assert forall|i: int| 0 <= i < p.len() implies #[trigger] p[i] < g.len() && nodes[p[i] as int] == c[i] by {
            lemma_node_index(t, nodes, c[i]);
        }
        assert forall|i: int| 0 <= i < p.len() - 1 implies has_edge(g, #[trigger] p[i] as int, p[i + 1] as int) by {
            assert(named_edge(t, keep, c[i], c[i + 1]));
            assert(nodes[p[i] as int] == c[i] && nodes[p[i + 1] as int] == c[i + 1]);
            lemma_edge_transfer(t, keep, nodes, g, p[i] as int, p[i + 1] as int);
        }
        assert(is_walk(g, p));
        lemma_sorted_distinct(nodes, p[0] as int, s);
        lemma_sorted_distinct(nodes, p[p.len() - 1] as int, v);
    }
}

/// Whether `x` is the name of a node below `v` marked in `seen`.
pub open spec fn seen_name(names: Seq<Seq<char>>, seen: Seq<bool>, v: int, x: Seq<char>) -> bool {
    exists|w: int| 0 <= w < v && #[trigger] names[w] == x && seen[w]
}

/// The machines reachable from `source` along at least one link between
/// distinct machines, each once, in increasing order of name. Empty when
/// `source` is not a machine.
pub fn reachable_from(spec: &DynamicTopology, source: &str) -> (r: Vec<String>)
    ensures
        strictly_sorted(names_of(r@)),
        forall|x: Seq<char>| names_of(r@).contains(x) <==> names_reach(spec@, any_links(), source@, x),
{
    let ghost pred = any_links();
    let ghost t = spec@;
    let nodes = sorted_machine_names(spec);
    let ghost names = names_of(nodes@);
    let adj = selected_graph(spec, &nodes, 1, Ghost(pred));
    let mut r: Vec<String> = Vec::new();
    match position_of(&nodes, source) {
        None => {
            proof {
                assert forall|x: Seq<char>| !names_reach(t, pred, source@, x) by {
                    if names_reach(t, pred, source@, x) {
                        let c = choose|c: Seq<Seq<char>>| #[trigger] is_name_walk(t, pred, c) && c.len() >= 2 && c[0] == source@ && c.last() == x;
                        let j: int = 0;
                        assert(named_edge(t, pred, c[j], c[j + 1]));
                        assert(names.contains(source@));
                        let k = choose|k: int| 0 <= k < names.len() && names[k] == source@;
                        assert(nodes@[k]@ == source@);
                    }
                }
                assert(names_of(r@) =~= Seq::<Seq<char>>::empty());
            }
            r
        },
        Some(s) => {
            let seen = reachable_set(&adj, s);
            let mut v: usize = 0;
            while v < nodes.len()
                invariant
                    v <= nodes.len(),
                    seen.len() == nodes.len(),
                    names == names_of(nodes@),
                    node_order(t, names),
                    t == spec@,
                    pred == any_links(),
                    graph_of_links(t.links, pred, names, adj_view(&adj)),
                    s < nodes.len(),
                    names[s as int] == source@,
                    forall|w: int| 0 <= w < nodes.len() ==> (#[trigger] seen@[w] <==> reaches(adj_view(&adj), s as int, w)),
                    names_of(r@).len() <= v,
                    forall|i: int| 0 <= i < names_of(r@).len() ==> #[trigger] seen_name(names, seen@, v as int, names_of(r@)[i]),
                    forall|w: int| 0 <= w < v && #[trigger] seen@[w] ==> names_of(r@).contains(names[w]),
                    forall|i: int, j: int| 0 <= i < j < names_of(r@).len() ==> crate::order::seq_lt(#[trigger] names_of(r@)[i], #[trigger] names_of(r@)[j]),
                    names_of(r@).len() > 0 ==> exists|w: int| 0 <= w < v && #[trigger] names[w] == names_of(r@).last(),
                decreases nodes.len() - v,
            {
                let ghost rr = names_of(r@);
                proof {
                    assert forall|i: int| 0 <= i < rr.len() implies #[trigger] seen_name(names, seen@, v + 1, rr[i]) by {
                        assert(seen_name(names, seen@, v as int, rr[i]));
                        let w = choose|w: int| 0 <= w < v && #[trigger] names[w] == rr[i] && seen@[w];
                    }
                }
                if seen[v] {
                    let ghost r0 = names_of(r@);
                    r.push(nodes[v].clone());
                    proof {
                        let rn = names_of(r@);
                        assert(rn =~= r0.push(names[v as int]));
                        assert forall|i: int, j: int| 0 <= i < j < rn.len() implies crate::order::seq_lt(#[trigger] rn[i], #[trigger] rn[j]) by {
                            if j == rn.len() - 1 {
                                assert(seen_name(names, seen@, v as int, r0[i]));
                                let wi = choose|w: int| 0 <= w < v && #[trigger] names[w] == r0[i] && seen@[w];
                                assert(crate::order::seq_lt(names[wi], names[v as int]));
                            }
                        }
                        assert forall|w: int| 0 <= w < v + 1 && #[trigger] seen@[w] implies rn.contains(names[w]) by {
                            if w == v {
                                assert(rn[rn.len() - 1] == names[w]);
                            } else {
                                let i = choose|i: int| 0 <= i < r0.len() && r0[i] == names[w];
                                assert(rn[i] == names[w]);
                            }
                        }
                        assert forall|i: int| 0 <= i < rn.len() implies #[trigger] seen_name(names, seen@, v + 1, rn[i]) by {
                            if i < r0.len() {
                                assert(seen_name(names, seen@, v as int, r0[i]));
                                let w = choose|w: int| 0 <= w < v && #[trigger] names[w] == r0[i] && seen@[w];
                                assert(names[w] == rn[i]);
                            } else {
                                assert(names[v as int] == rn[i]);
                            }
                        }
                    }
                }
                v = v + 1;
            }
            proof {
                let rn = names_of(r@);
                assert forall|x: Seq<char>| rn.contains(x) <==> names_reach(t, pred, source@, x) by {
                    if rn.contains(x) {
                        let i = choose|i: int| 0 <= i < rn.len() && rn[i] == x;
                        assert(seen_name(names, seen@, nodes.len() as int, rn[i]));
                        let w = choose|w: int| 0 <= w < nodes.len() && #[trigger] names[w] == rn[i] && seen@[w];
                        lemma_reach_transfer(t, pred, names, adj_view(&adj), s as int, w);
                    }
                    if names_reach(t, pred, source@, x) {
                        let c = choose|c: Seq<Seq<char>>| #[trigger] is_name_walk(t, pred, c) && c.len() >= 2 && c[0] == source@ && c.last() == x;
                        let j = c.len() - 2;
                        assert(named_edge(t, pred, c[j], c[j + 1]));
                        lemma_node_index(t, names, x);
                        let w = node_index(names, x);
                        lemma_reach_transfer(t, pred, names, adj_view(&adj), s as int, w);
                        assert(seen@[w]);
                    }
                }
            }
            r
        },
    }
}

/// Whether `target` can be reached from `source` along at least one link
/// between distinct machines.
pub fn can_reach(spec: &DynamicTopology, source: &str, target: &str) -> (r: bool)
    ensures
        r == names_reach(spec@, any_links(), source@, target@),
{
    let ghost pred = any_links();
    let ghost t = spec@;
    let nodes = sorted_machine_names(spec);
    let ghost names = names_of(nodes@);
    let adj = selected_graph(spec, &nodes, 1, Ghost(pred));
    match (position_of(&nodes, source), position_of(&nodes, target)) {
        (Some(s), Some(v)) => {
            let seen = reachable_set(&adj, s);
            proof {
                assert(names[s as int] == source@ && names[v as int] == target@);
                lemma_reach_transfer(t, pred, names, adj_view(&adj), s as int, v as int);
            }
            seen[v]
        },
        _ => {
            proof {
                if names_reach(t, pred, source@, target@) {
                    let c = choose|c: Seq<Seq<char>>| #[trigger] is_name_walk(t, pred, c) && c.len() >= 2 && c[0] == source@ && c.last() == target@;
                    let j0: int = 0;
                    assert(named_edge(t, pred, c[j0], c[j0 + 1]));
                    let j1 = c.len() - 2;
                    assert(named_edge(t, pred, c[j1], c[j1 + 1]));
                    assert(names.contains(source@));
                    assert(names.contains(target@));
                    let k = choose|k: int| 0 <= k < names.len() && names[k] == source@;
                    assert(nodes@[k]@ == source@);
                    let k2 = choose|k: int| 0 <= k < names.len() && names[k] == target@;
                    assert(nodes@[k2]@ == target@);
                }
            }
            false
        },
    }
}

// ── Advisory warnings ───────────────────────────────────────────────────

/// An advisory finding of topology analysis; none makes a topology invalid.
#[derive(Debug)]
pub enum TopologyWarning {
    /// An observe port with no path to a collector machine.
    DisconnectedObserve { machine: String, port: String },
    /// A strongly connected set of two or more machines.
    FeedbackLoop { machines: Vec<String>, all_moore: bool, has_inline: bool },
    /// A machine on every path from the sources to each listed sink.
    SinglePointOfFailure { vertex: String, threatens: Vec<String> },
    /// A machine with no inbound or no outbound link.
    Orphan { machine: String, has_inbound: bool, has_outbound: bool },
}

/// The value of an advisory warning.
pub enum TopologyWarningView {
    DisconnectedObserve { machine: Seq<char>, port: Seq<char> },
    FeedbackLoop { machines: Seq<Seq<char>>, all_moore: bool, has_inline: bool },
    SinglePointOfFailure { vertex: Seq<char>, threatens: Seq<Seq<char>> },
    Orphan { machine: Seq<char>, has_inbound: bool, has_outbound: bool },
}

impl View for TopologyWarning {
    type V = TopologyWarningView;

    open spec fn view(&self) -> TopologyWarningView {
        match self {
            TopologyWarning::DisconnectedObserve { machine, port } => TopologyWarningView::DisconnectedObserve {
                machine: machine@,
                port: port@,
            },
            TopologyWarning::FeedbackLoop { machines, all_moore, has_inline } => TopologyWarningView::FeedbackLoop {
                machines: names_of(machines@),
                all_moore: *all_moore,
                has_inline: *has_inline,
            },
            TopologyWarning::SinglePointOfFailure { vertex, threatens } => TopologyWarningView::SinglePointOfFailure {
                vertex: vertex@,
                threatens: names_of(threatens@),
            },
            TopologyWarning::Orphan { machine, has_inbound, has_outbound } => TopologyWarningView::Orphan {
                machine: machine@,
                has_inbound: *has_inbound,
                has_outbound: *has_outbound,
            },
        }
    }
}

/// The values of a sequence of warnings.
pub open spec fn warnings_of(v: Seq<TopologyWarning>) -> Seq<TopologyWarningView> {
    v.map_values(|w: TopologyWarning| w@)
}

/// A feedback loop: a strongly connected set of two or more machines.
#[derive(Debug)]
pub struct FeedbackLoop {
    /// The machines of the loop, in increasing order of name.
    pub machines: Vec<String>,
    /// Whether every machine of the loop is declared Moore.
    pub all_moore: bool,
    /// Whether an Inline link joins two machines of the loop.
    pub has_inline: bool,
}

/// A single point of failure.
#[derive(Debug)]
pub struct SinglePointOfFailure {
    /// The machine whose failure disconnects the sinks.
    pub vertex: String,
    /// The sinks that become unreachable, in increasing order of name.
    pub threatens: Vec<String>,
}

/// The advisory warnings of a topology.
#[derive(Debug)]
pub struct TopologyReport {
    pub warnings: Vec<TopologyWarning>,
}

impl Default for TopologyReport {
    fn default() -> (r: Self)
        ensures
            r.warnings@.len() == 0,
    {
        TopologyReport { warnings: Vec::new() }
    }
}

impl TopologyReport {
    /// Whether there is no warning.
    pub fn is_clean(&self) -> (r: bool)
        ensures
            r == (self.warnings@.len() == 0),
    {
        self.warnings.len() == 0
    }

    /// The number of warnings.
    pub fn len(&self) -> (r: usize)
        ensures
            r == self.warnings@.len(),
    {
        self.warnings.len()
    }

    /// The warnings, in order.
    pub fn iter(&self) -> (r: &[TopologyWarning])
        ensures
            r@ == self.warnings@,
    {
        self.warnings.as_slice()
    }
}

// ── Orphans ─────────────────────────────────────────────────────────────

/// Whether some link ends at machine `x`.
pub open spec fn has_inbound(t: TopologyView, x: Seq<char>) -> bool {
    exists|i: int| 0 <= i < t.links.len() && #[trigger] t.links[i].into.0 == x
}

/// Whether some link starts at machine `x`.
pub open spec fn has_outbound(t: TopologyView, x: Seq<char>) -> bool {
    exists|i: int| 0 <= i < t.links.len() && #[trigger] t.links[i].out.0 == x
}

/// The number of machines among the first `k` named `x`.
pub open spec fn machine_count(t: TopologyView, x: Seq<char>, k: int) -> nat
    decreases k,
{
    if k <= 0 {
        0
    } else {
        machine_count(t, x, k - 1) + if t.machines[k - 1].name == x { 1nat } else { 0nat }
    }
}

/// The orphan warnings of the first `k` names of `nodes`: for each name
/// lacking an inbound or an outbound link, one warning per machine of that
/// name.
pub open spec fn orphan_list(t: TopologyView, nodes: Seq<Seq<char>>, k: int) -> Seq<TopologyWarningView>
    decreases k,
{
    if k <= 0 {
        Seq::empty()
    } else {
        let x = nodes[k - 1];
        let w = TopologyWarningView::Orphan { machine: x, has_inbound: has_inbound(t, x), has_outbound: has_outbound(t, x) };
        orphan_list(t, nodes, k - 1) + if !has_inbound(t, x) || !has_outbound(t, x) {
            Seq::new(machine_count(t, x, t.machines.len() as int), |i: int| w)
        } else {
            Seq::empty()
        }
    }
}

fn count_machines_named(spec: &DynamicTopology, x: &String) -> (c: usize)
    ensures
        c == machine_count(spec@, x@, spec@.machines.len() as int),
{
    let ghost t = spec@;
    let mut c: usize = 0;
    let mut k: usize = 0;
    while k < spec.machines.len()
        invariant
            k <= spec.machines.len(),
            t == spec@,
            t.machines.len() == spec.machines.len(),
            c == machine_count(t, x@, k as int),
            c <= k,
        decreases spec.machines.len() - k,
    {
        proof {
            assert(t.machines[k as int] == spec.machines@[k as int]@);
        }
        if spec.machines[k].name == *x {
            c = c + 1;
        }
        k = k + 1;
    }
    c
}

fn link_ends_at(spec: &DynamicTopology, x: &String, inbound: bool) -> (r: bool)
    ensures
        inbound ==> r == has_inbound(spec@, x@),
        !inbound ==> r == has_outbound(spec@, x@),
{
    let ghost t = spec@;
    let mut k: usize = 0;
    while k < spec.links.len()
        invariant
            k <= spec.links.len(),
            t == spec@,
            inbound ==> forall|i: int| 0 <= i < k ==> #[trigger] t.links[i].into.0 != x@,
            !inbound ==> forall|i: int| 0 <= i < k ==> #[trigger] t.links[i].out.0 != x@,
        decreases spec.links.len() - k,
    {
        proof {
            assert(t.links[k as int] == spec.links@[k as int]@);
        }
        let end = if inbound {
            &spec.links[k].into.0
        } else {
            &spec.links[k].out.0
        };
        if *end == *x {
            proof {
                if inbound {
                    assert(t.links[k as int].into.0 == x@);
                } else {
                    assert(t.links[k as int].out.0 == x@);
                }
            }
            return true;
        }
        k = k + 1;
    }
    false
}

/// Machines with no inbound link, no outbound link, or neither: each
/// machine once, in increasing order of name.
pub fn orphans(spec: &DynamicTopology) -> (r: Vec<TopologyWarning>)
    ensures
        exists|nodes: Seq<Seq<char>>| #[trigger] node_order(spec@, nodes) && warnings_of(r@) == orphan_list(spec@, nodes, nodes.len() as int),
{
    let ghost t = spec@;
    let nodes = sorted_machine_names(spec);
    let ghost names = names_of(nodes@);
    let mut r: Vec<TopologyWarning> = Vec::new();
    let mut k: usize = 0;
    while k < nodes.len()
        invariant
            k <= nodes.len(),
            t == spec@,
            names == names_of(nodes@),
            warnings_of(r@) == orphan_list(t, names, k as int),
        decreases nodes.len() - k,
    {
        let x = &nodes[k];
        let inb = link_ends_at(spec, x, true);
        let outb = link_ends_at(spec, x, false);
        let ghost r0 = warnings_of(r@);
        if !inb || !outb {
            let c = count_machines_named(spec, x);
            let mut q: usize = 0;
            while q < c
                invariant
                    q <= c,
                    warnings_of(r@).len() == r0.len() + q,
                    forall|i: int| 0 <= i < r0.len() ==> #[trigger] warnings_of(r@)[i] == r0[i],
                    forall|i: int| r0.len() <= i < warnings_of(r@).len() ==> #[trigger] warnings_of(r@)[i] == (TopologyWarningView::Orphan {
                        machine: x@,
                        has_inbound: inb,
                        has_outbound: outb,
                    }),
                decreases c - q,
            {
                let ghost before = r@;
                r.push(TopologyWarning::Orphan { machine: x.clone(), has_inbound: inb, has_outbound: outb });
                proof {
                    assert(warnings_of(r@) =~= warnings_of(before).push(TopologyWarningView::Orphan {
                        machine: x@,
                        has_inbound: inb,
                        has_outbound: outb,
                    }));
                }
                q = q + 1;
            }
        }
        proof {
            assert(names[k as int] == x@);
            assert(warnings_of(r@) =~= orphan_list(t, names, k as int + 1));
        }
        k = k + 1;
    }
    r
}

// ── Feedback loops ──────────────────────────────────────────────────────

/// Whether two machines are strongly connected: the same, or each
/// reachable from the other.
pub open spec fn mutual(t: TopologyView, a: Seq<char>, b: Seq<char>) -> bool {
    a == b || (names_reach(t, any_links(), a, b) && names_reach(t, any_links(), b, a))
}

/// Whether `a` and `x` are strongly connected.
pub open spec fn mutual_with(t: TopologyView, a: Seq<char>) -> spec_fn(Seq<char>) -> bool {
    |x: Seq<char>| mutual(t, a, x)
}

/// Whether an Inline link joins two machines of `c`.
pub open spec fn inline_within(t: TopologyView, c: Seq<Seq<char>>) -> bool {
    exists|i: int| 0 <= i < t.links.len() && #[trigger] t.links[i].kind is Inline && c.contains(t.links[i].out.0) && c.contains(t.links[i].into.0)
}

/// Whether every machine of `c` is declared Moore.
pub open spec fn all_moore_in(t: TopologyView, c: Seq<Seq<char>>) -> bool {
    forall|i: int| 0 <= i < c.len() ==> is_moore_name(t, #[trigger] c[i])
}

/// The value of a feedback loop.
pub struct FeedbackLoopView {
    pub machines: Seq<Seq<char>>,
    pub all_moore: bool,
    pub has_inline: bool,
}

impl View for FeedbackLoop {
    type V = FeedbackLoopView;

    open spec fn view(&self) -> FeedbackLoopView {
        FeedbackLoopView { machines: names_of(self.machines@), all_moore: self.all_moore, has_inline: self.has_inline }
    }
}

/// The edges between the machines `nodes` by index: from `u` to `v` when a
/// link runs from the one to the other.
pub open spec fn link_edge(t: TopologyView, nodes: Seq<Seq<char>>) -> spec_fn(int, int) -> bool {
    |u: int, v: int| 0 <= u < nodes.len() && 0 <= v < nodes.len() && link_runs(t.links, any_links(), nodes[u], nodes[v])
}

/// The machines strongly connected with `x`, from the last discovered
/// back to the first, where `order` is the order of discovery.
pub open spec fn loop_members(t: TopologyView, nodes: Seq<Seq<char>>, order: Seq<usize>, x: Seq<char>) -> Seq<Seq<char>> {
    names_at(nodes, order).reverse().filter(mutual_with(t, x))
}

/// The feedback loops found at the first `k` machines finished (`fin`):
/// at each machine that is the first discovered (`order`) of a strongly
/// connected set of two or more, that set.
pub open spec fn dfs_loops(t: TopologyView, nodes: Seq<Seq<char>>, order: Seq<usize>, fin: Seq<usize>, k: int) -> Seq<FeedbackLoopView>
    decreases k,
{
    if k <= 0 {
        Seq::empty()
    } else {
        let x = nodes[fin[k - 1] as int];
        let c = loop_members(t, nodes, order, x);
        dfs_loops(t, nodes, order, fin, k - 1) + if c.len() >= 2 && c.last() == x {
            seq![FeedbackLoopView { machines: c, all_moore: all_moore_in(t, c), has_inline: inline_within(t, c) }]
        } else {
            Seq::empty()
        }
    }
}

/// The feedback loops over the machine order `nodes`, as a depth-first
/// search finds them: it starts from each machine by increasing name and
/// follows links to machines by increasing name; when it finishes the first
/// discovered machine of a strongly connected set of two or more, it
/// reports the set, from the last discovered machine back to that one.
pub open spec fn loops_of(t: TopologyView, nodes: Seq<Seq<char>>) -> Seq<FeedbackLoopView> {
    let d = dfs_result(link_edge(t, nodes), nodes.len() as nat);
    dfs_loops(t, nodes, d.order, d.fin, d.fin.len() as int)
}

/// Whether a name is among `c`.
fn names_contain(c: &Vec<String>, x: &String) -> (r: bool)
    ensures
        r == names_of(c@).contains(x@),
{
    let mut i: usize = 0;
    while i < c.len()
        invariant
            i <= c.len(),
            forall|j: int| 0 <= j < i ==> #[trigger] c@[j]@ != x@,
        decreases c.len() - i,
    {
        if c[i] == *x {
            proof {
                assert(names_of(c@)[i as int] == x@);
            }
            return true;
        }
        i = i + 1;
    }
    proof {
        if names_of(c@).contains(x@) {
            let j = choose|j: int| 0 <= j < names_of(c@).len() && names_of(c@)[j] == x@;
            assert(c@[j]@ == x@);
        }
    }
    false
}

/// Reachability composes.
proof fn lemma_names_reach_trans(t: TopologyView, keep: spec_fn(LinkSpecView) -> bool, a: Seq<char>, b: Seq<char>, c: Seq<char>)
    requires
        names_reach(t, keep, a, b),
        names_reach(t, keep, b, c),
    ensures
        names_reach(t, keep, a, c),
{
    let w1 = choose|w: Seq<Seq<char>>| #[trigger] is_name_walk(t, keep, w) && w.len() >= 2 && w[0] == a && w.last() == b;
    let w2 = choose|w: Seq<Seq<char>>| #[trigger] is_name_walk(t, keep, w) && w.len() >= 2 && w[0] == b && w.last() == c;
    let w = w1 + w2.subrange(1, w2.len() as int);
    assert forall|i: int| 0 <= i < w.len() - 1 implies #[trigger] named_edge(t, keep, w[i], w[i + 1]) by {
        if i < w1.len() - 1 {
            assert(named_edge(t, keep, w1[i], w1[i + 1]));
        } else if i == w1.len() - 1 {
            assert(w[i] == b && w[i + 1] == w2[1]);
            assert(named_edge(t, keep, w2[0], w2[1]));
        } else {
            let k = i - w1.len() + 1;
            assert(w[i] == w2[k] && w[i + 1] == w2[k + 1]);
            assert(named_edge(t, keep, w2[k], w2[k + 1]));
        }
    }
    assert(is_name_walk(t, keep, w));
    assert(w.last() == w2.last());
}

/// Strong connection is transitive.
proof fn lemma_mutual_trans(t: TopologyView, a: Seq<char>, b: Seq<char>, c: Seq<char>)
    requires
        mutual(t, a, b),
        mutual(t, b, c),
    ensures
        mutual(t, a, c),
{
    if a != b && b != c && a != c {
        lemma_names_reach_trans(t, any_links(), a, b, c);
        lemma_names_reach_trans(t, any_links(), c, b, a);
    }
}

/// Machines strongly connected with each other have the same strongly
/// connected machines.
proof fn lemma_mutual_same_class(t: TopologyView, a: Seq<char>, b: Seq<char>)
    requires
        mutual(t, a, b),
    ensures
        mutual_with(t, a) == mutual_with(t, b),
{
    assert forall|z: Seq<char>| #[trigger] mutual_with(t, a)(z) == mutual_with(t, b)(z) by {
        if mutual(t, a, z) {
            lemma_mutual_trans(t, b, a, z);
        }
        if mutual(t, b, z) {
            lemma_mutual_trans(t, a, b, z);
        }
    }
    assert(mutual_with(t, a) =~= mutual_with(t, b));
}

/// Whether the search reports a loop when it finishes the machine at `p`.
pub open spec fn reports_at(t: TopologyView, nodes: Seq<Seq<char>>, order: Seq<usize>, fin: Seq<usize>, p: int) -> bool {
    let x = nodes[fin[p] as int];
    let c = loop_members(t, nodes, order, x);
    c.len() >= 2 && c.last() == x
}

/// The positions at which the first `k` finished machines report loops, in
/// order: the `i`th loop reported is the one at the `i`th position.
proof fn lemma_report_positions(t: TopologyView, nodes: Seq<Seq<char>>, order: Seq<usize>, fin: Seq<usize>, k: int) -> (pos: Seq<int>)
    requires
        0 <= k <= fin.len(),
    ensures
        pos.len() == dfs_loops(t, nodes, order, fin, k).len(),
        forall|i: int, j: int| 0 <= i < j < pos.len() ==> pos[i] < pos[j],
        forall|i: int| 0 <= i < pos.len() ==> 0 <= #[trigger] pos[i] < k && reports_at(t, nodes, order, fin, pos[i])
            && dfs_loops(t, nodes, order, fin, k)[i].machines == loop_members(t, nodes, order, nodes[fin[pos[i]] as int]),
        forall|p: int| 0 <= p < k && #[trigger] reports_at(t, nodes, order, fin, p) ==> pos.contains(p),
    decreases k,
{
    if k == 0 {
        Seq::empty()
    } else {
        let prev = lemma_report_positions(t, nodes, order, fin, k - 1);
        let l0 = dfs_loops(t, nodes, order, fin, k - 1);
        if reports_at(t, nodes, order, fin, k - 1) {
            let pos = prev.push(k - 1);
            assert forall|p: int| 0 <= p < k && #[trigger] reports_at(t, nodes, order, fin, p) implies pos.contains(p) by {
                if p < k - 1 {
                    let i = choose|i: int| 0 <= i < prev.len() && prev[i] == p;
                    assert(pos[i] == p);
                } else {
                    assert(pos[pos.len() - 1] == p);
                }
            }
            pos
        } else {
            assert(dfs_loops(t, nodes, order, fin, k) =~= l0);
            prev
        }
    }
}

/// The feedback loops are exactly the strongly connected sets of two or
/// more machines: each reported loop holds two or more machines, exactly
/// those strongly connected with the last of them (the first the search
/// discovered); every machine strongly connected with another is on a
/// reported loop; and no machine is on two.
pub proof fn lemma_loops_are_strong_components(t: TopologyView, nodes: Seq<Seq<char>>)
    requires
        node_order(t, nodes),
        nodes.len() <= usize::MAX,
    ensures
        forall|i: int| 0 <= i < loops_of(t, nodes).len() ==> {
            let c = #[trigger] loops_of(t, nodes)[i].machines;
            &&& c.len() >= 2
            &&& forall|z: Seq<char>| c.contains(z) <==> (nodes.contains(z) && mutual(t, c.last(), z))
        },
        forall|x: Seq<char>, y: Seq<char>| nodes.contains(x) && nodes.contains(y) && x != y && #[trigger] mutual(t, x, y)
            ==> exists|i: int| 0 <= i < loops_of(t, nodes).len() && (#[trigger] loops_of(t, nodes)[i]).machines.contains(x),
        forall|i: int, j: int, z: Seq<char>| 0 <= i < j < loops_of(t, nodes).len() ==> !(#[trigger] loops_of(t, nodes)[i].machines.contains(z)
            && #[trigger] loops_of(t, nodes)[j].machines.contains(z)),
{
    let n = nodes.len() as nat;
    let e = link_edge(t, nodes);
    let d = dfs_result(e, n);
    lemma_dfs_result_complete(e, n);
    let order = d.order;
    let fin = d.fin;
    let l = loops_of(t, nodes);
    assert(l == dfs_loops(t, nodes, order, fin, fin.len() as int));
    let pos = lemma_report_positions(t, nodes, order, fin, fin.len() as int);
    let names = names_at(nodes, order);
    let r = names.reverse();
    // The reversed discovery order holds exactly the machines.
    assert forall|z: Seq<char>| r.contains(z) <==> nodes.contains(z) by {
        if r.contains(z) {
            let j = choose|j: int| 0 <= j < r.len() && r[j] == z;
            assert(r[j] == names[names.len() - 1 - j]);
            assert(nodes[order[names.len() - 1 - j] as int] == z);
        }
        if nodes.contains(z) {
            let v = choose|v: int| 0 <= v < nodes.len() && nodes[v] == z;
            assert(order.contains(v as usize));
            let j = choose|j: int| 0 <= j < order.len() && order[j] == v as usize;
            assert(names[j] == z);
            assert(r[names.len() - 1 - j] == z);
        }
    }
    // Membership of a class.
    assert forall|x: Seq<char>, z: Seq<char>| #[trigger] r.filter(mutual_with(t, x)).contains(z) <==> (nodes.contains(z) && mutual(t, x, z)) by {
        if r.filter(mutual_with(t, x)).contains(z) {
            r.lemma_filter_contains_rev(mutual_with(t, x), z);
            let j = choose|j: int| 0 <= j < r.filter(mutual_with(t, x)).len() && r.filter(mutual_with(t, x))[j] == z;
            r.lemma_filter_pred(mutual_with(t, x), j);
        }
        if nodes.contains(z) && mutual(t, x, z) {
            let j = choose|j: int| 0 <= j < r.len() && r[j] == z;
            r.lemma_filter_contains(mutual_with(t, x), j);
        }
    }
    // Each loop is a whole class.
    assert forall|i: int| 0 <= i < l.len() implies {
        let c = #[trigger] l[i].machines;
        &&& c.len() >= 2
        &&& forall|z: Seq<char>| c.contains(z) <==> (nodes.contains(z) && mutual(t, c.last(), z))
    } by {
        let p = pos[i];
        let x = nodes[fin[p] as int];
        assert(reports_at(t, nodes, order, fin, p));
        assert(l[i].machines == r.filter(mutual_with(t, x)));
    }
    // Every machine on a class of two or more is on a loop.
    assert forall|x: Seq<char>, y: Seq<char>| nodes.contains(x) && nodes.contains(y) && x != y && #[trigger] mutual(t, x, y)
        implies exists|i: int| 0 <= i < l.len() && (#[trigger] l[i]).machines.contains(x) by {
        let c = r.filter(mutual_with(t, x));
        assert(mutual(t, x, x));
        assert(c.contains(x) && c.contains(y));
        let jx = choose|j: int| 0 <= j < c.len() && c[j] == x;
        let jy = choose|j: int| 0 <= j < c.len() && c[j] == y;
        assert(c.len() >= 2);
        let root = c.last();
        r.lemma_filter_pred(mutual_with(t, x), c.len() - 1);
        assert(c.contains(root));
        assert(nodes.contains(root) && mutual(t, x, root));
        lemma_mutual_same_class(t, x, root);
        let v = choose|v: int| 0 <= v < nodes.len() && nodes[v] == root;
        assert(order.contains(v as usize));
        assert(fin.contains(v as usize));
        let p = choose|p: int| 0 <= p < fin.len() && fin[p] == v as usize;
        assert(loop_members(t, nodes, order, root) == c);
        assert(reports_at(t, nodes, order, fin, p));
        assert(pos.contains(p));
        let i = choose|i: int| 0 <= i < pos.len() && pos[i] == p;
        assert(l[i].machines == c);
    }
    // No machine is on two loops.
    assert forall|i: int, j: int, z: Seq<char>| 0 <= i < j < l.len() implies !(#[trigger] l[i].machines.contains(z)
        && #[trigger] l[j].machines.contains(z)) by {
        if l[i].machines.contains(z) && l[j].machines.contains(z) {
            let xi = nodes[fin[pos[i]] as int];
            let xj = nodes[fin[pos[j]] as int];
            assert(reports_at(t, nodes, order, fin, pos[i]));
            assert(reports_at(t, nodes, order, fin, pos[j]));
            assert(mutual(t, xi, z) && mutual(t, xj, z));
            lemma_mutual_trans(t, xi, z, xj);
            lemma_mutual_same_class(t, xi, xj);
            assert(l[i].machines == l[j].machines);
            assert(xi == xj);
            lemma_sorted_distinct(nodes, fin[pos[i]] as int, fin[pos[j]] as int);
            assert(fin[pos[i]] == fin[pos[j]]);
        }
    }
}

/// The feedback loops of the topology (strongly connected sets of two or
/// more machines), in the order in which a depth-first search finds them,
/// each listed in the order in which the search discovered its machines,
/// backwards; with whether all its machines are Moore and whether an Inline
/// link joins two of them.
pub fn feedback_loops(spec: &DynamicTopology) -> (r: Vec<FeedbackLoop>)
    ensures
        exists|nodes: Seq<Seq<char>>| #[trigger] node_order(spec@, nodes)
            && r@.map_values(|f: FeedbackLoop| f@) == loops_of(spec@, nodes),
{
    let ghost pred = any_links();
    let ghost t = spec@;
    let nodes = sorted_machine_names(spec);
    let ghost names = names_of(nodes@);
    let adj = selected_graph(spec, &nodes, 1, Ghost(pred));
    let n = nodes.len();
    // Which nodes each node reaches.
    let mut reach: Vec<Vec<bool>> = Vec::new();
    let mut u: usize = 0;
    while u < n
        invariant
            u <= n,
            n == nodes.len(),
            n == adj.len(),
            names == names_of(nodes@),
            node_order(t, names),
            t == spec@,
            pred == any_links(),
            graph_of_links(t.links, pred, names, adj_view(&adj)),
            reach.len() == u,
            forall|a: int| 0 <= a < u ==> #[trigger] reach@[a]@.len() == n,
            forall|a: int, b: int| 0 <= a < u && 0 <= b < n ==> (#[trigger] reach@[a]@[b] <==> names_reach(t, pred, names[a], names[b])),
        decreases n - u,
    {
        let seen = reachable_set(&adj, u);
        proof {
            assert forall|b: int| 0 <= b < n implies (#[trigger] seen@[b] <==> names_reach(t, pred, names[u as int], names[b])) by {
                lemma_reach_transfer(t, pred, names, adj_view(&adj), u as int, b);
            }
        }
        reach.push(seen);
        u = u + 1;
    }
    proof {
        assert forall|a: int, b: int| 0 <= a < n && 0 <= b < n implies (mutual(t, names[a], names[b]) <==> (a == b || (#[trigger] reach@[a]@[b] && reach@[b]@[a]))) by {
            if names[a] == names[b] {
                lemma_sorted_distinct(names, a, b);
            }
        }
    }
    // The depth-first search.
    let m = edge_matrix(&adj);
    let ghost e = link_edge(t, names);
    proof {
        assert forall|a: int, b: int| 0 <= a < m.len() && 0 <= b < m.len() implies #[trigger] e(a, b) == m@[a]@[b] by {
            assert(m@[a]@[b] == has_edge(adj_view(&adj), a, b));
        }
    }
    let (order, fin) = dfs_orders(&m, Ghost(e));
    let ghost ro = names_at(names, order@).reverse();
    let mut r: Vec<FeedbackLoop> = Vec::new();
    let mut p: usize = 0;
    while p < fin.len()
        invariant
            p <= fin.len(),
            n == nodes.len(),
            n == m.len(),
            names == names_of(nodes@),
            node_order(t, names),
            t == spec@,
            reach.len() == n,
            forall|a: int| 0 <= a < n ==> #[trigger] reach@[a]@.len() == n,
            forall|a: int, b: int| 0 <= a < n && 0 <= b < n ==> (mutual(t, names[a], names[b]) <==> (a == b || (#[trigger] reach@[a]@[b] && reach@[b]@[a]))),
            forall|j: int| 0 <= j < order.len() ==> #[trigger] order@[j] < n,
            forall|j: int| 0 <= j < fin.len() ==> #[trigger] fin@[j] < n,
            ro == names_at(names, order@).reverse(),
            r@.map_values(|f: FeedbackLoop| f@) == dfs_loops(t, names, order@, fin@, p as int),
        decreases fin.len() - p,
    {
        let x = fin[p];
        let ghost mx = mutual_with(t, names[x as int]);
        // The machines strongly connected with `x`, last discovered first.
        let mut class: Vec<String> = Vec::new();
        let mut q: usize = order.len();
        while q > 0
            invariant
                q <= order.len(),
                x < n,
                n == nodes.len(),
                names == names_of(nodes@),
                reach.len() == n,
                forall|a: int| 0 <= a < n ==> #[trigger] reach@[a]@.len() == n,
                forall|a: int, b: int| 0 <= a < n && 0 <= b < n ==> (mutual(t, names[a], names[b]) <==> (a == b || (#[trigger] reach@[a]@[b] && reach@[b]@[a]))),
                forall|j: int| 0 <= j < order.len() ==> #[trigger] order@[j] < n,
                ro == names_at(names, order@).reverse(),
                mx == mutual_with(t, names[x as int]),
                names_of(class@) == ro.take(order.len() - q).filter(mx),
            decreases q,
        {
            q = q - 1;
            let y = order[q];
            let mem = x == y || (reach[x][y] && reach[y][x]);
            let ghost c0 = class@;
            let ghost j = order.len() - 1 - q;
            proof {
                assert(ro[j] == names[y as int]);
                assert(mx(names[y as int]) == mem);
                lemma_filter_push(ro.take(j), mx, ro[j]);
                assert(ro.take(j + 1) =~= ro.take(j).push(ro[j]));
            }
            if mem {
                class.push(nodes[y].clone());
                proof {
                    assert(names_of(class@) =~= names_of(c0).push(names[y as int]));
                }
            }
        }
        proof {
            assert(ro.take(order.len() as int) =~= ro);
        }
        let ghost c = names_of(class@);
        let ghost r0 = r@.map_values(|f: FeedbackLoop| f@);
        let lead = class.len() >= 2 && class[class.len() - 1] == nodes[x];
        proof {
            assert(c == loop_members(t, names, order@, names[x as int]));
            if class.len() >= 2 {
                assert(c.last() == class@[class.len() - 1]@);
            }
            assert(lead == (c.len() >= 2 && c.last() == names[x as int]));
        }
        if lead {
            // Whether every machine of the set is Moore.
            let mut all_moore = true;
            let mut k: usize = 0;
            while k < class.len()
                invariant
                    k <= class.len(),
                    t == spec@,
                    c == names_of(class@),
                    all_moore == forall|i: int| 0 <= i < k ==> is_moore_name(t, #[trigger] c[i]),
                decreases class.len() - k,
            {
                let mk = moore_named(spec, &class[k]);
                proof {
                    assert(c[k as int] == class@[k as int]@);
                }
                if !mk {
                    all_moore = false;
                }
                k = k + 1;
            }
            // Whether an Inline link joins two of them.
            let mut has_inline = false;
            let mut i: usize = 0;
            while i < spec.links.len()
                invariant
                    i <= spec.links.len(),
                    t == spec@,
                    c == names_of(class@),
                    has_inline == exists|j: int| 0 <= j < i && #[trigger] t.links[j].kind is Inline && c.contains(t.links[j].out.0) && c.contains(t.links[j].into.0),
                decreases spec.links.len() - i,
            {
                let l = &spec.links[i];
                proof {
                    assert(t.links[i as int] == l@);
                }
                let ghost h0 = has_inline;
                let hit = matches!(l.kind, LinkKind::Inline) && names_contain(&class, &l.out.0) && names_contain(&class, &l.into.0);
                if hit {
                    has_inline = true;
                }
                proof {
                    if hit {
                        assert(t.links[i as int].kind is Inline && c.contains(t.links[i as int].out.0) && c.contains(t.links[i as int].into.0));
                    }
                    if exists|j: int| 0 <= j < i + 1 && #[trigger] t.links[j].kind is Inline && c.contains(t.links[j].out.0) && c.contains(t.links[j].into.0) {
                        let j = choose|j: int| 0 <= j < i + 1 && #[trigger] t.links[j].kind is Inline && c.contains(t.links[j].out.0) && c.contains(t.links[j].into.0);
                        if j < i {
                            assert(h0);
                        }
                    }
                }
                i = i + 1;
            }
            r.push(FeedbackLoop { machines: class, all_moore, has_inline });
            proof {
                assert(r@.map_values(|f: FeedbackLoop| f@) =~= r0.push(FeedbackLoopView { machines: c, all_moore, has_inline }));
            }
        }
        proof {
            assert(r@.map_values(|f: FeedbackLoop| f@) =~= dfs_loops(t, names, order@, fin@, p as int + 1));
        }
        p = p + 1;
    }
    proof {
        assert(r@.map_values(|f: FeedbackLoop| f@) == loops_of(t, names));
    }
    r
}

// ── Single points of failure ────────────────────────────────────────────

/// Whether machine `x` has no inbound link from another machine.
pub open spec fn is_source(t: TopologyView, x: Seq<char>) -> bool {
    is_machine(t, x) && forall|a: Seq<char>| !#[trigger] named_edge(t, any_links(), a, x)
}

/// Whether machine `x` has no outbound link to another machine.
pub open spec fn is_sink(t: TopologyView, x: Seq<char>) -> bool {
    is_machine(t, x) && forall|b: Seq<char>| !#[trigger] named_edge(t, any_links(), x, b)
}

/// Whether `c` does not pass through `avoid` (when one is given).
pub open spec fn avoids(c: Seq<Seq<char>>, avoid: Option<Seq<char>>) -> bool {
    match avoid {
        Some(v) => forall|i: int| 0 <= i < c.len() ==> #[trigger] c[i] != v,
        None => true,
    }
}

/// Whether machine `x` can be reached from a source, not passing through
/// `avoid`.
pub open spec fn source_reaches(t: TopologyView, x: Seq<char>, avoid: Option<Seq<char>>) -> bool {
    exists|c: Seq<Seq<char>>| #[trigger] is_name_walk(t, any_links(), c) && c.len() >= 1 && is_source(t, c[0])
        && c.last() == x && avoids(c, avoid)
}

/// Whether `v`, not a source, is on every path from the sources to sink `s`
/// (a reachable sink other than `v`).
pub open spec fn threatens(t: TopologyView, v: Seq<char>, s: Seq<char>) -> bool {
    &&& is_sink(t, s)
    &&& s != v
    &&& is_machine(t, v)
    &&& !is_source(t, v)
    &&& source_reaches(t, s, None)
    &&& !source_reaches(t, s, Some(v))
}

/// Whether `s` is threatened by `v`.
pub open spec fn threatened_by(t: TopologyView, v: Seq<char>) -> spec_fn(Seq<char>) -> bool {
    |s: Seq<char>| threatens(t, v, s)
}

/// The value of a single point of failure.
pub struct SinglePointOfFailureView {
    pub vertex: Seq<char>,
    pub threatens: Seq<Seq<char>>,
}

impl View for SinglePointOfFailure {
    type V = SinglePointOfFailureView;

    open spec fn view(&self) -> SinglePointOfFailureView {
        SinglePointOfFailureView { vertex: self.vertex@, threatens: names_of(self.threatens@) }
    }
}

/// The single points of failure among the first `k` names of `nodes`: each
/// machine that threatens at least one sink, with those sinks in order.
pub open spec fn spof_list(t: TopologyView, nodes: Seq<Seq<char>>, k: int) -> Seq<SinglePointOfFailureView>
    decreases k,
{
    if k <= 0 {
        Seq::empty()
    } else {
        let ts = nodes.filter(threatened_by(t, nodes[k - 1]));
        spof_list(t, nodes, k - 1) + if ts.len() > 0 {
            seq![SinglePointOfFailureView { vertex: nodes[k - 1], threatens: ts }]
        } else {
            Seq::empty()
        }
    }
}

/// Whether `g2` is `g` with a root node `g.len()` linked to every source,
/// and with every edge into `avoid` removed.
pub open spec fn rooted_graph(t: TopologyView, nodes: Seq<Seq<char>>, g: Seq<Seq<usize>>, g2: Seq<Seq<usize>>, avoid: int) -> bool {
    &&& g2.len() == g.len() + 1
    &&& graph_wf(g2)
    &&& forall|u: int, w: int| 0 <= u < g.len() && 0 <= w < g2.len() ==> (#[trigger] has_edge(g2, u, w) <==> (has_edge(g, u, w) && w != avoid))
    &&& forall|w: int| 0 <= w < g2.len() ==> (#[trigger] has_edge(g2, g.len() as int, w) <==> (w < g.len() && is_source(t, nodes[w]) && w != avoid))
}

/// Reachability from the root of a rooted graph is reachability from a
/// source not passing through the removed machine.
proof fn lemma_rooted_reach(t: TopologyView, nodes: Seq<Seq<char>>, g: Seq<Seq<usize>>, g2: Seq<Seq<usize>>, avoid: int, x: int)
    requires
        node_order(t, nodes),
        graph_of_links(t.links, any_links(), nodes, g),
        rooted_graph(t, nodes, g, g2, avoid),
        0 <= x < g.len(),
        x != avoid,
        -1 <= avoid < g.len(),
    ensures
        reaches(g2, g.len() as int, x) <==> source_reaches(t, nodes[x], if avoid >= 0 { Some(nodes[avoid]) } else { None }),
{
    let n = g.len() as int;
    let keep = any_links();
    let av = if avoid >= 0 { Some(nodes[avoid]) } else { None::<Seq<char>> };
    if reaches(g2, n, x) {
        let p = choose|p: Seq<usize>| #[trigger] is_walk(g2, p) && p.len() >= 2 && p[0] == n && p.last() == x;
        // After the root, the walk stays among the machines and avoids `avoid`.
        assert forall|i: int| 1 <= i < p.len() implies #[trigger] p[i] < n && p[i] != avoid by {
            assert(has_edge(g2, p[i - 1] as int, p[i] as int));
            if p[i - 1] as int == n {
            } else {
                assert(p[i - 1] < g2.len());
            }
        }
        let q = p.subrange(1, p.len() as int);
        let c = names_at(nodes, q);
        assert(has_edge(g2, p[0] as int, p[1] as int));
        assert forall|i: int| 0 <= i < c.len() - 1 implies #[trigger] named_edge(t, keep, c[i], c[i + 1]) by {
            assert(q[i] == p[i + 1] && q[i + 1] == p[i + 2]);
            assert(has_edge(g2, p[i + 1] as int, p[i + 2] as int));
            lemma_edge_transfer(t, keep, nodes, g, q[i] as int, q[i + 1] as int);
        }
        assert(is_name_walk(t, keep, c));
        assert(c[0] == nodes[p[1] as int]);
        if avoid >= 0 {
            assert forall|i: int| 0 <= i < c.len() implies #[trigger] c[i] != nodes[avoid] by {
                assert(q[i] == p[i + 1]);
                if c[i] == nodes[avoid] {
                    lemma_sorted_distinct(nodes, q[i] as int, avoid);
                }
            }
        }
        assert(avoids(c, av));
        assert(c.last() == nodes[x]);
    }
    if source_reaches(t, nodes[x], av) {
        let c = choose|c: Seq<Seq<char>>| #[trigger] is_name_walk(t, keep, c) && c.len() >= 1 && is_source(t, c[0]) && c.last() == nodes[x] && avoids(c, av);
        assert forall|i: int| 0 <= i < c.len() implies is_machine(t, #[trigger] c[i]) by {
            if i < c.len() - 1 {
                assert(named_edge(t, keep, c[i], c[i + 1]));
            } else {
                assert(nodes.contains(nodes[x]));
            }
        }
        let q = Seq::new(c.len(), |i: int| node_index(nodes, c[i]) as usize);
        assert forall|i: int| 0 <= i < q.len() implies #[trigger] q[i] < n && nodes[q[i] as int] == c[i] && q[i] != avoid by {
            lemma_node_index(t, nodes, c[i]);
            if avoid >= 0 && q[i] == avoid {
                assert(c[i] != nodes[avoid]);
            }
        }
        let p = seq![n as usize] + q;
        assert forall|i: int| 0 <= i < p.len() - 1 implies has_edge(g2, #[trigger] p[i] as int, p[i + 1] as int) by {
            if i == 0 {
                assert(p[1] == q[0]);
            } else {
                assert(p[i] == q[i - 1] && p[i + 1] == q[i]);
                let j = i - 1;
                assert(named_edge(t, keep, c[j], c[j + 1]));
                lemma_edge_transfer(t, keep, nodes, g, q[j] as int, q[j + 1] as int);
            }
        }
        assert forall|i: int| 0 <= i < p.len() implies #[trigger] p[i] < g2.len() by {
            if i > 0 {
                assert(p[i] == q[i - 1]);
            }
        }
        assert(is_walk(g2, p));
        assert(p.last() == q.last());
        lemma_sorted_distinct(nodes, q[q.len() - 1] as int, x);
    }
}

/// Whether each machine is a source of the graph of links between distinct
/// machines.
fn source_flags(adj: &Vec<Vec<usize>>, Ghost(t): Ghost<TopologyView>, Ghost(nodes): Ghost<Seq<Seq<char>>>) -> (src: Vec<bool>)
    requires
        node_order(t, nodes),
        graph_of_links(t.links, any_links(), nodes, adj_view(adj)),
    ensures
        src.len() == adj.len(),
        forall|u: int| 0 <= u < adj.len() ==> (#[trigger] src@[u] <==> is_source(t, nodes[u])),
{
    let ghost g = adj_view(adj);
    let ghost keep = any_links();
    let n = adj.len();
    let mut src: Vec<bool> = Vec::new();
    let mut k: usize = 0;
    while k < n
        invariant
            k <= n,
            n == adj.len(),
            src.len() == k,
            forall|x: int| 0 <= x < k ==> #[trigger] src@[x],
        decreases n - k,
    {
        src.push(true);
        k = k + 1;
    }
    let mut u: usize = 0;
    while u < n
        invariant
            u <= n,
            n == adj.len(),
            g == adj_view(adj),
            graph_wf(g),
            src.len() == n,
            forall|w: int| 0 <= w < n ==> (!#[trigger] src@[w] <==> exists|x: int| 0 <= x < u && has_edge(g, x, w)),
        decreases n - u,
    {
        let mut j: usize = 0;
        while j < adj[u].len()
            invariant
                u < n,
                n == adj.len(),
                g == adj_view(adj),
                graph_wf(g),
                src.len() == n,
                j <= g[u as int].len(),
                forall|w: int| 0 <= w < n ==> (!#[trigger] src@[w] <==> (exists|x: int| 0 <= x < u && has_edge(g, x, w))
                    || g[u as int].take(j as int).contains(w as usize)),
            decreases g[u as int].len() - j,
        {
            let w = adj[u][j];
            proof {
                assert(g[u as int][j as int] == w);
                assert(g[u as int].take(j as int + 1) =~= g[u as int].take(j as int).push(w));
                lemma_push_contains(g[u as int].take(j as int), w);
            }
            let ghost s0 = src@;
            src.set(w, false);
            proof {
                assert forall|x: int| 0 <= x < n implies (!#[trigger] src@[x] <==> (exists|y: int| 0 <= y < u && has_edge(g, y, x))
                    || g[u as int].take(j as int + 1).contains(x as usize)) by {
                    if x != w as int {
                        assert(src@[x] == s0[x]);
                    }
                }
            }
            j = j + 1;
        }
        proof {
            assert(g[u as int].take(g[u as int].len() as int) =~= g[u as int]);
            assert forall|w: int| 0 <= w < n implies (!#[trigger] src@[w] <==> exists|x: int| 0 <= x < u + 1 && has_edge(g, x, w)) by {
                if g[u as int].contains(w as usize) {
                    assert(has_edge(g, u as int, w));
                }
                if exists|x: int| 0 <= x < u + 1 && has_edge(g, x, w) {
                    let x = choose|x: int| 0 <= x < u + 1 && has_edge(g, x, w);
                    if x == u {
                        assert(g[u as int].contains(w as usize));
                    }
                }
            }
        }
        u = u + 1;
    }
    proof {
        assert forall|w: int| 0 <= w < n implies (#[trigger] src@[w] <==> is_source(t, nodes[w])) by {
            assert(nodes.contains(nodes[w]));
            if src@[w] {
                assert forall|a: Seq<char>| !#[trigger] named_edge(t, keep, a, nodes[w]) by {
                    if named_edge(t, keep, a, nodes[w]) {
                        lemma_node_index(t, nodes, a);
                        lemma_edge_transfer(t, keep, nodes, g, node_index(nodes, a), w);
                    }
                }
            } else {
                let x = choose|x: int| 0 <= x < n && has_edge(g, x, w);
                lemma_edge_transfer(t, keep, nodes, g, x, w);
            }
        }
    }
    src
}

/// The graph with a root linked to every source and the edges into
/// `avoid` removed (no node removed when `avoid` is not a node).
fn rooted(adj: &Vec<Vec<usize>>, src: &Vec<bool>, avoid: usize, Ghost(t): Ghost<TopologyView>, Ghost(nodes): Ghost<Seq<Seq<char>>>) -> (g2: Vec<Vec<usize>>)
    requires
        node_order(t, nodes),
        graph_of_links(t.links, any_links(), nodes, adj_view(adj)),
        src.len() == adj.len(),
        forall|u: int| 0 <= u < adj.len() ==> (#[trigger] src@[u] <==> is_source(t, nodes[u])),
    ensures
        rooted_graph(t, nodes, adj_view(adj), adj_view(&g2), if avoid < adj.len() { avoid as int } else { -1 }),
{
    let ghost g = adj_view(adj);
    let ghost av: int = if avoid < adj.len() { avoid as int } else { -1 };
    let n = adj.len();
    let mut g2: Vec<Vec<usize>> = Vec::new();
    let mut u: usize = 0;
    while u < n
        invariant
            u <= n,
            n == adj.len(),
            g == adj_view(adj),
            graph_wf(g),
            av == if avoid < n { avoid as int } else { -1 },
            g2.len() == u,
            forall|x: int, k: int| 0 <= x < u && 0 <= k < g2@[x]@.len() ==> #[trigger] g2@[x]@[k] < n,
            forall|x: int, w: int| 0 <= x < u && 0 <= w <= n ==> (#[trigger] g2@[x]@.contains(w as usize) <==> (g[x].contains(w as usize) && w != av)),
        decreases n - u,
    {
        let mut list: Vec<usize> = Vec::new();
        let mut j: usize = 0;
        while j < adj[u].len()
            invariant
                u < n,
                n == adj.len(),
                g == adj_view(adj),
                graph_wf(g),
                av == if avoid < n { avoid as int } else { -1 },
                j <= g[u as int].len(),
                forall|k: int| 0 <= k < list@.len() ==> #[trigger] list@[k] < n,
                forall|w: int| 0 <= w <= n ==> (#[trigger] list@.contains(w as usize) <==> (g[u as int].take(j as int).contains(w as usize) && w != av)),
            decreases g[u as int].len() - j,
        {
            let w = adj[u][j];
            proof {
                assert(g[u as int][j as int] == w);
                assert(g[u as int].take(j as int + 1) =~= g[u as int].take(j as int).push(w));
            }
            let ghost l0 = list@;
            proof {
                lemma_push_contains(g[u as int].take(j as int), w);
                lemma_push_contains(l0, w);
            }
            if w != avoid {
                list.push(w);
            }
            proof {
                assert forall|x: int| 0 <= x <= n implies (#[trigger] list@.contains(x as usize) <==> (g[u as int].take(j as int + 1).contains(x as usize) && x != av)) by {
                    assert(g[u as int].take(j as int + 1).contains(x as usize) == (g[u as int].take(j as int).contains(x as usize) || x as usize == w));
                    if w != avoid {
                        assert(list@.contains(x as usize) == (l0.contains(x as usize) || x as usize == w));
                    }
                }
            }
            j = j + 1;
        }
        proof {
            assert(g[u as int].take(g[u as int].len() as int) =~= g[u as int]);
        }
        g2.push(list);
        u = u + 1;
    }
    let mut roots: Vec<usize> = Vec::new();
    let mut w: usize = 0;
    while w < n
        invariant
            w <= n,
            n == adj.len(),
            src.len() == n,
            av == if avoid < n { avoid as int } else { -1 },
            forall|k: int| 0 <= k < roots@.len() ==> #[trigger] roots@[k] < n,
            forall|x: int| 0 <= x <= n ==> (#[trigger] roots@.contains(x as usize) <==> (x < w && src@[x] && x != av)),
        decreases n - w,
    {
        let ghost r0 = roots@;
        proof {
            lemma_push_contains(r0, w);
        }
        if src[w] && w != avoid {
            roots.push(w);
        }
        proof {
            assert forall|x: int| 0 <= x <= n implies (#[trigger] roots@.contains(x as usize) <==> (x < w + 1 && src@[x] && x != av)) by {
                if src@[w as int] && w != avoid {
                    assert(roots@.contains(x as usize) == (r0.contains(x as usize) || x as usize == w));
                }
            }
        }
        w = w + 1;
    }
    g2.push(roots);
    proof {
        let h = adj_view(&g2);
        assert forall|x: int, k: int| 0 <= x < h.len() && 0 <= k < h[x].len() implies #[trigger] h[x][k] < h.len() by {
            assert(h[x] == g2@[x]@);
        }
        assert forall|x: int, y: int| 0 <= x < g.len() && 0 <= y < h.len() implies (#[trigger] has_edge(h, x, y) <==> (has_edge(g, x, y) && y != av)) by {
            assert(h[x] == g2@[x]@);
        }
        assert forall|y: int| 0 <= y < h.len() implies (#[trigger] has_edge(h, g.len() as int, y) <==> (y < g.len() && is_source(t, nodes[y]) && y != av)) by {
            assert(h[n as int] == roots@);
        }
    }
    g2
}

/// The single points of failure: each machine, not a source, that lies on
/// every path from the sources to some reachable sink, with the sinks it
/// threatens in increasing order of name; ordered by machine name.
pub fn single_points_of_failure(spec: &DynamicTopology) -> (r: Vec<SinglePointOfFailure>)
    ensures
        exists|nodes: Seq<Seq<char>>| #[trigger] node_order(spec@, nodes)
            && r@.map_values(|f: SinglePointOfFailure| f@) == spof_list(spec@, nodes, nodes.len() as int),
{
    let ghost pred = any_links();
    let ghost t = spec@;
    let nodes = sorted_machine_names(spec);
    let ghost names = names_of(nodes@);
    let adj = selected_graph(spec, &nodes, 1, Ghost(pred));
    let n = nodes.len();
    let src = source_flags(&adj, Ghost(t), Ghost(names));
    let full_g = rooted(&adj, &src, n, Ghost(t), Ghost(names));
    let full = reachable_set(&full_g, n);
    let ghost g = adj_view(&adj);
    proof {
        // Sinks are the nodes without successors.
        assert forall|x: int| 0 <= x < n implies (#[trigger] is_sink(t, names[x]) <==> g[x].len() == 0) by {
            assert(names.contains(names[x]));
            if g[x].len() > 0 {
                let y = g[x][0] as int;
                assert(has_edge(g, x, y));
                lemma_edge_transfer(t, pred, names, g, x, y);
            } else {
                assert forall|b: Seq<char>| !#[trigger] named_edge(t, pred, names[x], b) by {
                    if named_edge(t, pred, names[x], b) {
                        lemma_node_index(t, names, b);
                        lemma_edge_transfer(t, pred, names, g, x, node_index(names, b));
                    }
                }
            }
        }
        assert forall|x: int| 0 <= x < n implies (#[trigger] full@[x] <==> source_reaches(t, names[x], None)) by {
            lemma_rooted_reach(t, names, g, adj_view(&full_g), -1, x);
        }
    }
    let mut r: Vec<SinglePointOfFailure> = Vec::new();
    let mut v: usize = 0;
    while v < n
        invariant
            v <= n,
            n == nodes.len(),
            n == adj.len(),
            names == names_of(nodes@),
            node_order(t, names),
            t == spec@,
            g == adj_view(&adj),
            pred == any_links(),
            graph_of_links(t.links, pred, names, g),
            src.len() == n,
            full.len() == n + 1,
            forall|u: int| 0 <= u < n ==> (#[trigger] src@[u] <==> is_source(t, names[u])),
            forall|x: int| 0 <= x < n ==> (#[trigger] is_sink(t, names[x]) <==> g[x].len() == 0),
            forall|x: int| 0 <= x < n ==> (#[trigger] full@[x] <==> source_reaches(t, names[x], None)),
            r@.map_values(|f: SinglePointOfFailure| f@) == spof_list(t, names, v as int),
        decreases n - v,
    {
        let ghost tb = threatened_by(t, names[v as int]);
        let mut ts: Vec<String> = Vec::new();
        if !src[v] {
            let gv = rooted(&adj, &src, v, Ghost(t), Ghost(names));
            let seen = reachable_set(&gv, n);
            let mut s: usize = 0;
            while s < n
                invariant
                    s <= n,
                    v < n,
                    n == nodes.len(),
                    n == adj.len(),
                    names == names_of(nodes@),
                    node_order(t, names),
                    g == adj_view(&adj),
                    graph_of_links(t.links, pred, names, g),
                    pred == any_links(),
                    !is_source(t, names[v as int]),
                    full.len() == n + 1,
                    seen.len() == n + 1,
                    rooted_graph(t, names, g, adj_view(&gv), v as int),
                    forall|x: int| 0 <= x < n + 1 ==> (#[trigger] seen@[x] <==> reaches(adj_view(&gv), n as int, x)),
                    forall|x: int| 0 <= x < n ==> (#[trigger] is_sink(t, names[x]) <==> g[x].len() == 0),
                    forall|x: int| 0 <= x < n ==> (#[trigger] full@[x] <==> source_reaches(t, names[x], None)),
                    tb == threatened_by(t, names[v as int]),
                    names_of(ts@) == names.take(s as int).filter(tb),
                decreases n - s,
            {
                let hit = adj[s].len() == 0 && s != v && full[s] && !seen[s];
                proof {
                    assert(g[s as int].len() == adj@[s as int]@.len());
                    assert(names.contains(names[v as int]));
                    if s != v {
                        lemma_rooted_reach(t, names, g, adj_view(&gv), v as int, s as int);
                        if names[s as int] == names[v as int] {
                            lemma_sorted_distinct(names, s as int, v as int);
                        }
                    }
                    assert(tb(names[s as int]) == hit);
                    lemma_filter_push(names.take(s as int), tb, names[s as int]);
                    assert(names.take(s as int + 1) =~= names.take(s as int).push(names[s as int]));
                }
                let ghost t0 = ts@;
                if hit {
                    ts.push(nodes[s].clone());
                    proof {
                        assert(names_of(ts@) =~= names_of(t0).push(names[s as int]));
                    }
                }
                s = s + 1;
            }
            proof {
                assert(names.take(n as int) =~= names);
            }
        } else {
            proof {
                assert forall|i: int| 0 <= i < names.len() implies !tb(#[trigger] names[i]) by {}
                lemma_filter_empty(names, tb);
                assert(names_of(ts@) =~= Seq::<Seq<char>>::empty());
            }
        }
        let ghost r0 = r@.map_values(|f: SinglePointOfFailure| f@);
        let ghost tsv = names_of(ts@);
        if ts.len() > 0 {
            r.push(SinglePointOfFailure { vertex: nodes[v].clone(), threatens: ts });
            proof {
                assert(r@.map_values(|f: SinglePointOfFailure| f@) =~= r0.push(SinglePointOfFailureView { vertex: names[v as int], threatens: tsv }));
            }
        }
        proof {
            assert(r@.map_values(|f: SinglePointOfFailure| f@) =~= spof_list(t, names, v as int + 1));
        }
        v = v + 1;
    }
    r
}

/// Filtering out every element leaves nothing.
proof fn lemma_filter_empty<A>(s: Seq<A>, pred: spec_fn(A) -> bool)
    requires
        forall|i: int| 0 <= i < s.len() ==> !pred(#[trigger] s[i]),
    ensures
        s.filter(pred) == Seq::<A>::empty(),
    decreases s.len(),
{
    reveal(Seq::filter);
    if s.len() > 0 {
        assert forall|i: int| 0 <= i < s.drop_last().len() implies !pred(#[trigger] s.drop_last()[i]) by {
            assert(s.drop_last()[i] == s[i]);
        }
        lemma_filter_empty(s.drop_last(), pred);
        assert(!pred(s[s.len() - 1]));
    }
    assert(s.filter(pred) =~= Seq::<A>::empty());
}

// ── Longest paths: levels and critical-path latency ─────────────────────

/// Whether `lv` gives each machine of `nodes` its level: zero for a machine
/// with no inbound link, otherwise one more than the greatest level of the
/// machines linking to it.
pub open spec fn levels_ok(t: TopologyView, nodes: Seq<Seq<char>>, lv: Seq<int>) -> bool {
    &&& lv.len() == nodes.len()
    &&& forall|u: int, v: int| 0 <= u < nodes.len() && 0 <= v < nodes.len() && #[trigger] named_edge(t, any_links(), nodes[u], nodes[v])
        ==> lv[u] + 1 <= lv[v]
    &&& forall|v: int| 0 <= v < nodes.len() ==> #[trigger] lv[v] == 0 || exists|u: int| 0 <= u < nodes.len()
        && #[trigger] named_edge(t, any_links(), nodes[u], nodes[v]) && lv[u] + 1 == lv[v]
}

/// The first `k` nodes of an order in which every edge goes forward; the
/// positions are where each node stands.
pub open spec fn forward_order(g: Seq<Seq<usize>>, order: Seq<usize>, pos: Seq<int>) -> bool {
    &&& order.len() == g.len()
    &&& pos.len() == g.len()
    &&& forall|i: int| 0 <= i < order.len() ==> #[trigger] order[i] < g.len() && pos[order[i] as int] == i
    &&& forall|v: int| 0 <= v < g.len() ==> 0 <= #[trigger] pos[v] < g.len() && order[pos[v]] == v
    &&& forall|u: int, v: int| #[trigger] has_edge(g, u, v) ==> pos[u] < pos[v]
}

/// A complete topological order of a graph without self-loops puts every
/// edge forward.
proof fn lemma_forward(g: Seq<Seq<usize>>, order: Seq<usize>) -> (pos: Seq<int>)
    requires
        order.len() == g.len(),
        order.no_duplicates(),
        forall|i: int| 0 <= i < order.len() ==> #[trigger] order[i] < g.len(),
        is_topological(g, order),
        forall|u: int| !#[trigger] has_edge(g, u, u),
        g.len() <= usize::MAX,
    ensures
        forward_order(g, order, pos),
{
    let n = g.len() as int;
    let pos = Seq::new(n as nat, |v: int| choose|i: int| 0 <= i < n && order[i] == v as usize);
    assert forall|i: int| 0 <= i < order.len() implies #[trigger] order[i] < g.len() && pos[order[i] as int] == i by {
        let v = order[i] as int;
        assert(order.contains(v as usize));
        let j = pos[v];
        assert(0 <= j < n && order[j] == v as usize);
        if j != i {
            assert(order[i] != order[j]);
        }
    }
    assert forall|v: int| 0 <= v < g.len() implies 0 <= #[trigger] pos[v] < g.len() && order[pos[v]] == v by {
        crate::graph::lemma_distinct_full(order, n, v);
    }
    assert forall|u: int, v: int| #[trigger] has_edge(g, u, v) implies pos[u] < pos[v] by {
        crate::graph::lemma_distinct_full(order, n, u);
        crate::graph::lemma_distinct_full(order, n, v);
        let i = choose|i: int| 0 <= i < n && order[i] == u as usize;
        let j = choose|j: int| 0 <= j < n && order[j] == v as usize;
        assert(pos[order[i] as int] == i);
        assert(pos[order[j] as int] == j);
        assert(order[i] as int == u && order[j] as int == v);
        if j < i {
            assert(!has_edge(g, order[i] as int, order[j] as int));
        }
        if i == j {
            assert(!has_edge(g, u, u));
        }
    }
    pos
}

/// The graph of links between distinct machines has no self-loop.
proof fn lemma_no_self_loop(t: TopologyView, nodes: Seq<Seq<char>>, g: Seq<Seq<usize>>)
    requires
        node_order(t, nodes),
        graph_of_links(t.links, any_links(), nodes, g),
    ensures
        forall|u: int| !#[trigger] has_edge(g, u, u),
{
    assert forall|u: int| !#[trigger] has_edge(g, u, u) by {
        if has_edge(g, u, u) {
            assert(link_runs(t.links, any_links(), nodes[u], nodes[u]));
        }
    }
}

/// The level of each machine (the length of the longest path of links
/// reaching it from a machine with no inbound link), as `(name, level)` in
/// increasing order of name; or, when links form a cycle, the machines a
/// topological sort cannot order.
#[verifier::spinoff_prover]
pub fn topological_levels(spec: &DynamicTopology) -> (r: Result<Vec<(String, usize)>, Vec<String>>)
    ensures
        r is Ok <==> names_acyclic(spec@, any_links()),
        exists|nodes: Seq<Seq<char>>| #[trigger] node_order(spec@, nodes) && match r {
            Ok(levels) => levels@.len() == nodes.len() && (forall|i: int| 0 <= i < levels@.len() ==> #[trigger] levels@[i].0@ == nodes[i])
                && levels_ok(spec@, nodes, levels@.map_values(|e: (String, usize)| e.1 as int)),
            Err(c) => name_remainder(spec@, any_links(), names_of(c@)),
        },
{
    let ghost pred = any_links();
    let ghost t = spec@;
    let nodes = sorted_machine_names(spec);
    let ghost names = names_of(nodes@);
    let adj = selected_graph(spec, &nodes, 1, Ghost(pred));
    let ghost g = adj_view(&adj);
    proof {
        lemma_acyclic_transfer(t, pred, names, g);
    }
    let order = match kahn(&adj) {
        Ok(order) => order,
        Err(rem) => {
            proof {
                lemma_remainder_transfer(t, pred, names, g, rem@);
            }
            return Err(names_at_nodes(&nodes, &rem));
        },
    };
    let n = nodes.len();
    let ghost pos = lemma_forward_exec(t, names, g, order@);
    let mut level: Vec<usize> = Vec::new();
    let mut k: usize = 0;
    while k < n
        invariant
            k <= n,
            n == nodes.len(),
            level.len() == k,
            forall|x: int| 0 <= x < k ==> #[trigger] level@[x] == 0,
        decreases n - k,
    {
        level.push(0);
        k = k + 1;
    }
    let mut k: usize = 0;
    while k < n
        invariant
            k <= n,
            n == nodes.len(),
            n == adj.len(),
            g == adj_view(&adj),
            graph_wf(g),
            forward_order(g, order@, pos),
            level.len() == n,
            forall|v: int| 0 <= v < n ==> #[trigger] level@[v] <= k,
            forall|i: int, w: int| 0 <= i < k && #[trigger] has_edge(g, order@[i] as int, w) ==> level@[order@[i] as int] + 1 <= level@[w],
            forall|v: int| 0 <= v < n ==> #[trigger] level@[v] == 0 || exists|i: int| 0 <= i < k
                && #[trigger] has_edge(g, order@[i] as int, v) && level@[order@[i] as int] + 1 == level@[v],
        decreases n - k,
    {
        let x = order[k];
        let lx = level[x];
        let ghost l0 = level@;
        proof {
            assert(pos[x as int] == k);
        }
        let mut j: usize = 0;
        while j < adj[x].len()
            invariant
                k < n,
                n == adj.len(),
                g == adj_view(&adj),
                graph_wf(g),
                forward_order(g, order@, pos),
                x == order@[k as int],
                pos[x as int] == k,
                level.len() == n,
                l0.len() == n,
                lx == l0[x as int],
                lx <= k,
                j <= g[x as int].len(),
                forall|v: int| 0 <= v < n ==> #[trigger] level@[v] <= k + 1,
                forall|v: int| 0 <= v < n && pos[v] <= k ==> #[trigger] level@[v] == l0[v],
                forall|v: int| 0 <= v < n ==> #[trigger] level@[v] >= l0[v],
                forall|v: int| 0 <= v < n ==> #[trigger] level@[v] == l0[v] || (has_edge(g, x as int, v) && level@[v] == lx + 1),
                forall|r: int| 0 <= r < j ==> lx + 1 <= #[trigger] level@[g[x as int][r] as int],
            decreases g[x as int].len() - j,
        {
            let w = adj[x][j];
            proof {
                assert(g[x as int][j as int] == w);
                assert(g[x as int].contains(w));
                assert(has_edge(g, x as int, w as int));
                assert(pos[x as int] < pos[w as int]);
            }
            if lx + 1 > level[w] {
                level.set(w, lx + 1);
            }
            j = j + 1;
        }
        proof {
            lemma_levels_step(g, order@, pos, l0, level@, k as int, x as int, lx as int);
        }
        k = k + 1;
    }
    let mut levels: Vec<(String, usize)> = Vec::new();
    let mut v: usize = 0;
    while v < n
        invariant
            v <= n,
            n == nodes.len(),
            level.len() == n,
            levels@.len() == v,
            forall|i: int| 0 <= i < v ==> #[trigger] levels@[i].0@ == nodes@[i]@,
            forall|i: int| 0 <= i < v ==> #[trigger] levels@[i].1 == level@[i],
        decreases n - v,
    {
        let nm = nodes[v].clone();
        let ghost before = levels@;
        levels.push((nm, level[v]));
        proof {
            assert(levels@[v as int].0@ == nodes@[v as int]@);
            assert forall|i: int| 0 <= i < v + 1 implies #[trigger] levels@[i].0@ == nodes@[i]@ && levels@[i].1 == level@[i] by {
                if i < v {
                    assert(levels@[i] == before[i]);
                    assert(before[i].0@ == nodes@[i]@);
                    assert(before[i].1 == level@[i]);
                }
            }
        }
        v = v + 1;
    }
    proof {
        let lv = levels@.map_values(|e: (String, usize)| e.1 as int);
        assert forall|u: int, w: int| 0 <= u < n && 0 <= w < n && #[trigger] named_edge(t, pred, names[u], names[w]) implies lv[u] + 1 <= lv[w] by {
            lemma_edge_transfer(t, pred, names, g, u, w);
            let i = pos[u];
            assert(0 <= pos[u] < n);
            assert(order@[i] as int == u);
            assert(has_edge(g, order@[i] as int, w));
            assert(lv[u] == level@[u] && lv[w] == level@[w]);
        }
        assert forall|w: int| 0 <= w < n implies #[trigger] lv[w] == 0 || exists|u: int| 0 <= u < names.len()
            && #[trigger] named_edge(t, pred, names[u], names[w]) && lv[u] + 1 == lv[w] by {
            assert(lv[w] == level@[w]);
            if lv[w] != 0 {
                let i = choose|i: int| 0 <= i < n && #[trigger] has_edge(g, order@[i] as int, w) && level@[order@[i] as int] + 1 == level@[w];
                let u = order@[i] as int;
                assert(order@[i] < n);
                lemma_edge_transfer(t, pred, names, g, u, w);
                assert(lv[u] == level@[u]);
            }
        }
        assert(levels_ok(t, names, lv));
        assert(forall|i: int| 0 <= i < levels@.len() ==> #[trigger] levels@[i].0@ == names[i]);
        assert(node_order(spec@, names));
    }
    Ok(levels)
}

/// Raising the levels of the successors of the node at position `k` keeps
/// the invariant of the level computation.
#[verifier::spinoff_prover]
proof fn lemma_levels_step(g: Seq<Seq<usize>>, order: Seq<usize>, pos: Seq<int>, l0: Seq<usize>, l1: Seq<usize>, k: int, x: int, lx: int)
    requires
        forward_order(g, order, pos),
        graph_wf(g),
        0 <= k < g.len(),
        x == order[k],
        pos[x] == k,
        l0.len() == g.len(),
        l1.len() == g.len(),
        lx == l0[x],
        forall|v: int| 0 <= v < g.len() && pos[v] <= k ==> #[trigger] l1[v] == l0[v],
        forall|v: int| 0 <= v < g.len() ==> #[trigger] l1[v] >= l0[v],
        forall|v: int| 0 <= v < g.len() ==> #[trigger] l1[v] == l0[v] || (has_edge(g, x, v) && l1[v] == lx + 1),
        forall|r: int| 0 <= r < g[x].len() ==> lx + 1 <= #[trigger] l1[g[x][r] as int],
        forall|i: int, w: int| 0 <= i < k && #[trigger] has_edge(g, order[i] as int, w) ==> l0[order[i] as int] + 1 <= l0[w],
        forall|v: int| 0 <= v < g.len() ==> #[trigger] l0[v] == 0 || exists|i: int| 0 <= i < k
            && #[trigger] has_edge(g, order[i] as int, v) && l0[order[i] as int] + 1 == l0[v],
    ensures
        forall|i: int, w: int| 0 <= i < k + 1 && #[trigger] has_edge(g, order[i] as int, w) ==> l1[order[i] as int] + 1 <= l1[w],
        forall|v: int| 0 <= v < g.len() ==> #[trigger] l1[v] == 0 || exists|i: int| 0 <= i < k + 1
            && #[trigger] has_edge(g, order[i] as int, v) && l1[order[i] as int] + 1 == l1[v],
{
    assert forall|i: int, w: int| 0 <= i < k + 1 && #[trigger] has_edge(g, order[i] as int, w) implies l1[order[i] as int] + 1 <= l1[w] by {
        let u = order[i] as int;
        assert(pos[u] == i);
        assert(l1[u] == l0[u]);
        if i < k {
            assert(l1[w] >= l0[w]);
        } else {
            let r = choose|r: int| 0 <= r < g[x].len() && g[x][r] == w as usize;
            assert(l1[g[x][r] as int] >= lx + 1);
        }
    }
    assert forall|v: int| 0 <= v < g.len() implies #[trigger] l1[v] == 0 || exists|i: int| 0 <= i < k + 1
        && #[trigger] has_edge(g, order[i] as int, v) && l1[order[i] as int] + 1 == l1[v] by {
        if l1[v] != 0 {
            if l1[v] == l0[v] {
                let i = choose|i: int| 0 <= i < k && #[trigger] has_edge(g, order[i] as int, v) && l0[order[i] as int] + 1 == l0[v];
                assert(pos[order[i] as int] == i);
                assert(l1[order[i] as int] == l0[order[i] as int]);
            } else {
                assert(l1[order[k] as int] == l0[x]);
                assert(has_edge(g, order[k] as int, v));
            }
        }
    }
}

/// The positions of a complete topological order of the graph of links
/// between distinct machines.
proof fn lemma_forward_exec(t: TopologyView, nodes: Seq<Seq<char>>, g: Seq<Seq<usize>>, order: Seq<usize>) -> (pos: Seq<int>)
    requires
        node_order(t, nodes),
        graph_of_links(t.links, any_links(), nodes, g),
        order.len() == g.len(),
        order.no_duplicates(),
        forall|i: int| 0 <= i < order.len() ==> #[trigger] order[i] < g.len(),
        is_topological(g, order),
    ensures
        forward_order(g, order, pos),
{
    lemma_no_self_loop(t, nodes, g);
    lemma_forward(g, order)
}

/// The declared per-message latency of the last machine among the first
/// `k` named `x` (zero when there is none).
pub open spec fn last_latency(t: TopologyView, x: Seq<char>, k: int) -> int
    decreases k,
{
    if k <= 0 {
        0
    } else if t.machines[k - 1].name == x {
        t.machines[k - 1].physical.per_message_latency_us as int
    } else {
        last_latency(t, x, k - 1)
    }
}

/// The declared per-message latency of machine `x`: that of the last
/// machine of that name.
pub open spec fn latency_of(t: TopologyView, x: Seq<char>) -> int {
    last_latency(t, x, t.machines.len() as int)
}

/// Whether `d` gives each machine of `nodes` the latency of the slowest
/// path of links ending at it: its own latency plus the greatest of those
/// of the machines linking to it.
pub open spec fn path_latencies_ok(t: TopologyView, nodes: Seq<Seq<char>>, d: Seq<int>) -> bool {
    &&& d.len() == nodes.len()
    &&& forall|u: int, v: int| 0 <= u < nodes.len() && 0 <= v < nodes.len() && #[trigger] named_edge(t, any_links(), nodes[u], nodes[v])
        ==> d[u] + latency_of(t, nodes[v]) <= d[v]
    &&& forall|v: int| 0 <= v < nodes.len() ==> #[trigger] d[v] >= latency_of(t, nodes[v])
    &&& forall|v: int| 0 <= v < nodes.len() ==> #[trigger] d[v] == latency_of(t, nodes[v]) || exists|u: int| 0 <= u < nodes.len()
        && #[trigger] named_edge(t, any_links(), nodes[u], nodes[v]) && d[u] + latency_of(t, nodes[v]) == d[v]
}

/// Whether every path latency fits in a `u64` where the links are acyclic.
pub open spec fn path_latencies_fit(t: TopologyView) -> bool {
    names_acyclic(t, any_links()) ==> forall|nodes: Seq<Seq<char>>, d: Seq<int>| #[trigger] node_order(t, nodes) && #[trigger] path_latencies_ok(t, nodes, d)
        ==> forall|v: int| 0 <= v < d.len() ==> #[trigger] d[v] <= u64::MAX
}

fn latency_named(spec: &DynamicTopology, x: &String) -> (l: u64)
    ensures
        l as int == latency_of(spec@, x@),
{
    let ghost t = spec@;
    let mut l: u64 = 0;
    let mut k: usize = 0;
    while k < spec.machines.len()
        invariant
            k <= spec.machines.len(),
            t == spec@,
            t.machines.len() == spec.machines.len(),
            l as int == last_latency(t, x@, k as int),
        decreases spec.machines.len() - k,
    {
        proof {
            assert(t.machines[k as int] == spec.machines@[k as int]@);
        }
        if spec.machines[k].name == *x {
            l = spec.machines[k].physical.per_message_latency_us;
        }
        k = k + 1;
    }
    l
}

/// Propagating the latency of the node at position `k` keeps the invariant
/// of the path-latency computation.
proof fn lemma_dist_step(g: Seq<Seq<usize>>, order: Seq<usize>, pos: Seq<int>, lat: Seq<int>, d0: Seq<int>, d1: Seq<int>, k: int, x: int)
    requires
        forward_order(g, order, pos),
        graph_wf(g),
        0 <= k < g.len(),
        x == order[k],
        pos[x] == k,
        d0.len() == g.len(),
        d1.len() == g.len(),
        forall|v: int| 0 <= v < g.len() && pos[v] <= k ==> #[trigger] d1[v] == d0[v],
        forall|v: int| 0 <= v < g.len() ==> #[trigger] d1[v] >= d0[v],
        forall|v: int| 0 <= v < g.len() ==> #[trigger] d1[v] == d0[v] || (has_edge(g, x, v) && d1[v] == d0[x] + lat[v]),
        forall|r: int| 0 <= r < g[x].len() ==> d0[x] + lat[g[x][r] as int] <= #[trigger] d1[g[x][r] as int],
        forall|i: int, w: int| 0 <= i < k && #[trigger] has_edge(g, order[i] as int, w) ==> d0[order[i] as int] + lat[w] <= d0[w],
        forall|v: int| 0 <= v < g.len() ==> #[trigger] d0[v] == lat[v] || exists|i: int| 0 <= i < k
            && #[trigger] has_edge(g, order[i] as int, v) && d0[order[i] as int] + lat[v] == d0[v],
    ensures
        forall|i: int, w: int| 0 <= i < k + 1 && #[trigger] has_edge(g, order[i] as int, w) ==> d1[order[i] as int] + lat[w] <= d1[w],
        forall|v: int| 0 <= v < g.len() ==> #[trigger] d1[v] == lat[v] || exists|i: int| 0 <= i < k + 1
            && #[trigger] has_edge(g, order[i] as int, v) && d1[order[i] as int] + lat[v] == d1[v],
{
    assert forall|i: int, w: int| 0 <= i < k + 1 && #[trigger] has_edge(g, order[i] as int, w) implies d1[order[i] as int] + lat[w] <= d1[w] by {
        let u = order[i] as int;
        assert(pos[u] == i);
        assert(d1[u] == d0[u]);
        if i < k {
            assert(d1[w] >= d0[w]);
        } else {
            let r = choose|r: int| 0 <= r < g[x].len() && g[x][r] == w as usize;
            assert(d1[g[x][r] as int] >= d0[x] + lat[g[x][r] as int]);
        }
    }
    assert forall|v: int| 0 <= v < g.len() implies #[trigger] d1[v] == lat[v] || exists|i: int| 0 <= i < k + 1
        && #[trigger] has_edge(g, order[i] as int, v) && d1[order[i] as int] + lat[v] == d1[v] by {
        if d1[v] != lat[v] {
            if d1[v] == d0[v] {
                let i = choose|i: int| 0 <= i < k && #[trigger] has_edge(g, order[i] as int, v) && d0[order[i] as int] + lat[v] == d0[v];
                assert(pos[order[i] as int] == i);
                assert(d1[order[i] as int] == d0[order[i] as int]);
            } else {
                assert(d1[order[k] as int] == d0[x]);
                assert(has_edge(g, order[k] as int, v));
            }
        }
    }
}

/// The latency of the slowest path of links through the topology: the
/// greatest, over the machines, of the latency of the slowest path ending
/// there (a machine's own declared per-message latency plus the slowest of
/// its predecessors'); zero without machines. When links form a cycle the
/// latency is unbounded and the machines a topological sort cannot order
/// are returned instead.
pub fn critical_path_latency(spec: &DynamicTopology) -> (r: Result<u64, Vec<String>>)
    requires
        path_latencies_fit(spec@),
    ensures
        r is Ok <==> names_acyclic(spec@, any_links()),
        exists|nodes: Seq<Seq<char>>| #[trigger] node_order(spec@, nodes) && match r {
            Ok(m) => exists|d: Seq<int>| #[trigger] path_latencies_ok(spec@, nodes, d) && (forall|v: int| 0 <= v < d.len() ==> d[v] <= m)
                && (if nodes.len() == 0 { m == 0 } else { exists|v: int| 0 <= v < d.len() && d[v] == m }),
            Err(c) => name_remainder(spec@, any_links(), names_of(c@)),
        },
{
    let ghost pred = any_links();
    let ghost t = spec@;
    let nodes = sorted_machine_names(spec);
    let ghost names = names_of(nodes@);
    let adj = selected_graph(spec, &nodes, 1, Ghost(pred));
    let ghost g = adj_view(&adj);
    proof {
        lemma_acyclic_transfer(t, pred, names, g);
    }
    let order = match kahn(&adj) {
        Ok(order) => order,
        Err(rem) => {
            proof {
                lemma_remainder_transfer(t, pred, names, g, rem@);
            }
            return Err(names_at_nodes(&nodes, &rem));
        },
    };
    let n = nodes.len();
    let ghost pos = lemma_forward_exec(t, names, g, order@);
    let mut lat: Vec<u64> = Vec::new();
    let mut dist: Vec<u128> = Vec::new();
    let mut k: usize = 0;
    while k < n
        invariant
            k <= n,
            n == nodes.len(),
            names == names_of(nodes@),
            t == spec@,
            lat.len() == k,
            dist.len() == k,
            forall|x: int| 0 <= x < k ==> #[trigger] lat@[x] as int == latency_of(t, names[x]),
            forall|x: int| 0 <= x < k ==> #[trigger] dist@[x] == lat@[x] as u128,
        decreases n - k,
    {
        let l = latency_named(spec, &nodes[k]);
        lat.push(l);
        dist.push(l as u128);
        k = k + 1;
    }
    let ghost latv = lat@.map_values(|l: u64| l as int);
    let mut k: usize = 0;
    while k < n
        invariant
            k <= n,
            n == nodes.len(),
            n == adj.len(),
            g == adj_view(&adj),
            graph_wf(g),
            forward_order(g, order@, pos),
            lat.len() == n,
            dist.len() == n,
            latv == lat@.map_values(|l: u64| l as int),
            forall|v: int| 0 <= v < n ==> #[trigger] dist@[v] <= (k + 1) * (u64::MAX as int),
            forall|v: int| 0 <= v < n ==> #[trigger] dist@[v] >= latv[v],
            forall|i: int, w: int| 0 <= i < k && #[trigger] has_edge(g, order@[i] as int, w) ==> dist@[order@[i] as int] + latv[w] <= dist@[w],
            forall|v: int| 0 <= v < n ==> #[trigger] dist@[v] == latv[v] || exists|i: int| 0 <= i < k
                && #[trigger] has_edge(g, order@[i] as int, v) && dist@[order@[i] as int] + latv[v] == dist@[v],
        decreases n - k,
    {
        let x = order[k];
        let dx = dist[x];
        let ghost d0 = dist@;
        proof {
            assert(pos[x as int] == k);
            assert(k + 2 <= n + 1 <= usize::MAX + 1);
            assert((k + 2) * (u64::MAX as int) <= u128::MAX) by (nonlinear_arith)
                requires k + 2 <= usize::MAX + 1, usize::MAX <= u64::MAX;
            assert((k + 1) * (u64::MAX as int) + u64::MAX == (k + 2) * (u64::MAX as int)) by (nonlinear_arith);
            assert((k + 1) * (u64::MAX as int) <= (k + 2) * (u64::MAX as int)) by (nonlinear_arith);
        }
        let mut j: usize = 0;
        while j < adj[x].len()
            invariant
                k < n,
                n == adj.len(),
                g == adj_view(&adj),
                graph_wf(g),
                forward_order(g, order@, pos),
                x == order@[k as int],
                pos[x as int] == k,
                lat.len() == n,
                dist.len() == n,
                latv == lat@.map_values(|l: u64| l as int),
                d0.len() == n,
                dx == d0[x as int],
                dx <= (k + 1) * (u64::MAX as int),
                (k + 2) * (u64::MAX as int) <= u128::MAX,
                (k + 1) * (u64::MAX as int) + u64::MAX == (k + 2) * (u64::MAX as int),
                (k + 1) * (u64::MAX as int) <= (k + 2) * (u64::MAX as int),
                j <= g[x as int].len(),
                forall|v: int| 0 <= v < n ==> #[trigger] dist@[v] <= (k + 2) * (u64::MAX as int),
                forall|v: int| 0 <= v < n && pos[v] <= k ==> #[trigger] dist@[v] == d0[v],
                forall|v: int| 0 <= v < n ==> #[trigger] dist@[v] >= d0[v],
                forall|v: int| 0 <= v < n ==> #[trigger] dist@[v] == d0[v] || (has_edge(g, x as int, v) && dist@[v] == d0[x as int] + latv[v]),
                forall|r: int| 0 <= r < j ==> d0[x as int] + latv[g[x as int][r] as int] <= #[trigger] dist@[g[x as int][r] as int],
            decreases g[x as int].len() - j,
        {
            let w = adj[x][j];
            proof {
                assert(g[x as int][j as int] == w);
                assert(g[x as int].contains(w));
                assert(has_edge(g, x as int, w as int));
                assert(pos[x as int] < pos[w as int]);
                assert(latv[w as int] == lat@[w as int] as int);
            }
            let cand = dx + lat[w] as u128;
            if cand > dist[w] {
                dist.set(w, cand);
            }
            j = j + 1;
        }
        proof {
            lemma_dist_step(g, order@, pos, latv, d0.map_values(|v: u128| v as int), dist@.map_values(|v: u128| v as int), k as int, x as int);
        }
        k = k + 1;
    }
    // The greatest path latency.
    let mut m: u128 = 0;
    let mut v: usize = 0;
    while v < n
        invariant
            v <= n,
            dist.len() == n,
            forall|i: int| 0 <= i < v ==> #[trigger] dist@[i] <= m,
            v == 0 ==> m == 0,
            v > 0 ==> exists|i: int| 0 <= i < v && dist@[i] == m,
        decreases n - v,
    {
        if dist[v] > m || v == 0 {
            m = dist[v];
        }
        v = v + 1;
    }
    let ghost d = dist@.map_values(|x: u128| x as int);
    proof {
        assert forall|u: int, w: int| 0 <= u < n && 0 <= w < n && #[trigger] named_edge(t, pred, names[u], names[w]) implies d[u] + latency_of(t, names[w]) <= d[w] by {
            lemma_edge_transfer(t, pred, names, g, u, w);
            let i = pos[u];
            assert(order@[i] as int == u);
            assert(has_edge(g, order@[i] as int, w));
            assert(latv[w] == latency_of(t, names[w]));
        }
        assert forall|w: int| 0 <= w < n implies #[trigger] d[w] >= latency_of(t, names[w]) by {
            assert(latv[w] == latency_of(t, names[w]));
        }
        assert forall|w: int| 0 <= w < n implies #[trigger] d[w] == latency_of(t, names[w]) || exists|u: int| 0 <= u < names.len()
            && #[trigger] named_edge(t, pred, names[u], names[w]) && d[u] + latency_of(t, names[w]) == d[w] by {
            assert(latv[w] == latency_of(t, names[w]));
            if d[w] != latency_of(t, names[w]) {
                let i = choose|i: int| 0 <= i < n && #[trigger] has_edge(g, order@[i] as int, w) && dist@[order@[i] as int] + latv[w] == dist@[w];
                let u = order@[i] as int;
                assert(order@[i] < n);
                lemma_edge_transfer(t, pred, names, g, u, w);
            }
        }
        assert(path_latencies_ok(t, names, d));
        assert(forall|i: int| 0 <= i < d.len() ==> #[trigger] d[i] <= u64::MAX);
        if n > 0 {
            let i = choose|i: int| 0 <= i < n && dist@[i] == m;
            assert(d[i] == m);
        }
    }
    Ok(m as u64)
}

// ── Observability completeness ──────────────────────────────────────────

/// Whether schema `s` declares a port named `p` in direction `d`.
pub open spec fn has_port_dir(s: Seq<PortDecl>, p: Seq<char>, d: PortDir) -> bool {
    exists|i: int| 0 <= i < s.len() && #[trigger] s[i].name@ == p && s[i].dir == d
}

/// Whether schema `s` declares a port named `p`.
pub open spec fn has_port(s: Seq<PortDecl>, p: Seq<char>) -> bool {
    exists|i: int| 0 <= i < s.len() && #[trigger] s[i].name@ == p
}

/// The schema of machine `m`, when `m` is a machine with one.
pub open spec fn schema_of(t: TopologyView, sm: Seq<(Seq<char>, Seq<PortDecl>)>, m: Seq<char>) -> Option<Seq<PortDecl>> {
    if is_machine(t, m) {
        schema_for(sm, m)
    } else {
        None
    }
}

/// An edge of the port graph: from an input of a machine to each of its
/// outputs (what a machine takes in it may emit), or along a link between
/// two machines.
pub open spec fn port_edge(t: TopologyView, sm: Seq<(Seq<char>, Seq<PortDecl>)>, a: (Seq<char>, Seq<char>), b: (Seq<char>, Seq<char>)) -> bool {
    ||| a.0 == b.0 && schema_of(t, sm, a.0) is Some && has_port_dir(schema_of(t, sm, a.0)->Some_0, a.1, PortDir::In)
        && has_port_dir(schema_of(t, sm, a.0)->Some_0, b.1, PortDir::Out)
    ||| is_machine(t, a.0) && is_machine(t, b.0) && exists|i: int| 0 <= i < t.links.len() && #[trigger] t.links[i].out == a && t.links[i].into == b
}

/// Whether port `x` is a node of the port graph: a declared port of a
/// machine with a schema, or an end of a link between two machines.
pub open spec fn is_port_node(t: TopologyView, sm: Seq<(Seq<char>, Seq<PortDecl>)>, x: (Seq<char>, Seq<char>)) -> bool {
    ||| schema_of(t, sm, x.0) is Some && has_port(schema_of(t, sm, x.0)->Some_0, x.1)
    ||| exists|i: int| 0 <= i < t.links.len() && #[trigger] endpoint_of(t, i, x) && is_machine(t, t.links[i].out.0) && is_machine(t, t.links[i].into.0)
}

/// Whether schema `s` declares an Observe output.
pub open spec fn has_observe(s: Seq<PortDecl>) -> bool {
    exists|i: int| 0 <= i < s.len() && #[trigger] is_observe_out(s[i])
}

/// Whether machine `m` consumes observe data without re-emitting it: it
/// has no schema (assumed benign) or no Observe output.
pub open spec fn is_collector(t: TopologyView, sm: Seq<(Seq<char>, Seq<PortDecl>)>, m: Seq<char>) -> bool {
    is_machine(t, m) && match schema_for(sm, m) {
        None => true,
        Some(s) => !has_observe(s),
    }
}

/// Whether `c` is a walk of the port graph.
pub open spec fn is_port_walk(t: TopologyView, sm: Seq<(Seq<char>, Seq<PortDecl>)>, c: Seq<(Seq<char>, Seq<char>)>) -> bool {
    forall|i: int| 0 <= i < c.len() - 1 ==> #[trigger] port_edge(t, sm, c[i], c[i + 1])
}

/// Whether a collector's port can be reached from port `x`.
pub open spec fn reaches_collector(t: TopologyView, sm: Seq<(Seq<char>, Seq<PortDecl>)>, x: (Seq<char>, Seq<char>)) -> bool {
    exists|c: Seq<(Seq<char>, Seq<char>)>| #[trigger] is_port_walk(t, sm, c) && c.len() >= 1 && c[0] == x && is_collector(t, sm, c.last().0)
}

/// The Observe outputs of schema `s` named `p`.
pub open spec fn observe_count(s: Seq<PortDecl>, p: Seq<char>) -> nat
    decreases s.len(),
{
    if s.len() == 0 {
        0
    } else {
        observe_count(s.drop_last(), p) + if s.last().name@ == p && is_observe_out(s.last()) { 1nat } else { 0nat }
    }
}

/// Whether `x` is an Observe output of a machine with a schema.
pub open spec fn is_observe_port(t: TopologyView, sm: Seq<(Seq<char>, Seq<PortDecl>)>, x: (Seq<char>, Seq<char>)) -> bool {
    schema_of(t, sm, x.0) is Some && observe_count(schema_of(t, sm, x.0)->Some_0, x.1) > 0
}

/// `a` blocks of `b` copies of `w`.
pub open spec fn reps<A>(w: A, a: nat, b: nat) -> Seq<A>
    decreases a,
{
    if a == 0 {
        Seq::empty()
    } else {
        reps(w, (a - 1) as nat, b) + Seq::new(b, |i: int| w)
    }
}

/// The disconnected-observe warnings of the first `k` observe ports of
/// `pairs`: for each one from which no collector can be reached, one
/// warning per machine of that name and per Observe output of that name.
pub open spec fn observe_list(t: TopologyView, sm: Seq<(Seq<char>, Seq<PortDecl>)>, pairs: Seq<(Seq<char>, Seq<char>)>, k: int) -> Seq<TopologyWarningView>
    decreases k,
{
    if k <= 0 {
        Seq::empty()
    } else {
        let x = pairs[k - 1];
        observe_list(t, sm, pairs, k - 1) + if !reaches_collector(t, sm, x) {
            reps(TopologyWarningView::DisconnectedObserve { machine: x.0, port: x.1 }, machine_count(t, x.0, t.machines.len() as int),
                observe_count(schema_of(t, sm, x.0)->Some_0, x.1))
        } else {
            Seq::empty()
        }
    }
}

/// Whether `x` is one of the pairs of `s`.
pub open spec fn pair_in(s: Seq<(Seq<char>, Seq<char>)>, x: (Seq<char>, Seq<char>)) -> bool {
    s.contains(x)
}

/// Whether one of the first `k` ports of `s` is named `p`.
pub open spec fn port_in_prefix(s: Seq<PortDecl>, p: Seq<char>, k: int) -> bool {
    exists|q: int| 0 <= q < k && #[trigger] s[q].name@ == p
}

/// Whether one of the first `k` ports of `s` is an Observe output named `p`.
pub open spec fn observe_in_prefix(s: Seq<PortDecl>, p: Seq<char>, k: int) -> bool {
    exists|q: int| 0 <= q < k && #[trigger] s[q].name@ == p && is_observe_out(s[q])
}

/// Whether one of the first `i` machines is named `m`.
pub open spec fn machine_in_prefix(t: TopologyView, m: Seq<char>, i: int) -> bool {
    exists|j: int| 0 <= j < i && #[trigger] t.machines[j].name == m
}

/// Whether machine-name `x.0` is among the first `i` machines, has a
/// schema, and that schema declares port `x.1`.
pub open spec fn machine_port_seen(t: TopologyView, sm: Seq<(Seq<char>, Seq<PortDecl>)>, x: (Seq<char>, Seq<char>), i: int) -> bool {
    exists|j: int| 0 <= j < i && #[trigger] t.machines[j].name == x.0 && schema_of(t, sm, x.0) is Some && has_port(schema_of(t, sm, x.0)->Some_0, x.1)
}

/// Whether `x` is an end of one of the first `i` links, between machines.
pub open spec fn link_port_seen(t: TopologyView, x: (Seq<char>, Seq<char>), i: int) -> bool {
    exists|j: int| 0 <= j < i && #[trigger] endpoint_of(t, j, x) && is_machine(t, t.links[j].out.0) && is_machine(t, t.links[j].into.0)
}

/// One link step of the port-graph node set: the ends of link `i` join the
/// set when both of its machines exist.
proof fn lemma_link_nodes_step(t: TopologyView, sm: Seq<(Seq<char>, Seq<PortDecl>)>, before: Seq<(Seq<char>, Seq<char>)>,
    after: Seq<(Seq<char>, Seq<char>)>, i: int, both: bool)
    requires
        0 <= i < t.links.len(),
        both == (is_machine(t, t.links[i].out.0) && is_machine(t, t.links[i].into.0)),
        forall|x: (Seq<char>, Seq<char>)| #[trigger] pair_in(before, x) <==> (machine_port_seen(t, sm, x, t.machines.len() as int)
            || link_port_seen(t, x, i)),
        both ==> forall|x: (Seq<char>, Seq<char>)| #[trigger] pair_in(after, x) <==> (pair_in(before, x) || x == t.links[i].out
            || x == t.links[i].into),
        !both ==> after == before,
    ensures
        forall|x: (Seq<char>, Seq<char>)| #[trigger] pair_in(after, x) <==> (machine_port_seen(t, sm, x, t.machines.len() as int)
            || link_port_seen(t, x, i + 1)),
{
    assert forall|x: (Seq<char>, Seq<char>)| #[trigger] pair_in(after, x) <==> (machine_port_seen(t, sm, x, t.machines.len() as int)
        || link_port_seen(t, x, i + 1)) by {
        assert(pair_in(before, x) <==> (machine_port_seen(t, sm, x, t.machines.len() as int) || link_port_seen(t, x, i)));
        if link_port_seen(t, x, i + 1) {
            let j = choose|j: int| 0 <= j < i + 1 && #[trigger] endpoint_of(t, j, x) && is_machine(t, t.links[j].out.0) && is_machine(t, t.links[j].into.0);
            if j < i {
                assert(link_port_seen(t, x, i));
            }
        }
        if link_port_seen(t, x, i) {
            let j = choose|j: int| 0 <= j < i && #[trigger] endpoint_of(t, j, x) && is_machine(t, t.links[j].out.0) && is_machine(t, t.links[j].into.0);
            assert(endpoint_of(t, j, x));
        }
        if both && (x == t.links[i].out || x == t.links[i].into) {
            assert(endpoint_of(t, i, x));
        }
    }
}

/// One port step of the observe-port set: port `k` of machine `name`'s
/// schema joins the set when it is an Observe output.
proof fn lemma_obs_port_step(t: TopologyView, sm: Seq<(Seq<char>, Seq<PortDecl>)>, name: Seq<char>, sch: Seq<PortDecl>,
    before: Seq<(Seq<char>, Seq<char>)>, after: Seq<(Seq<char>, Seq<char>)>, i: int, k: int, is_obs: bool)
    requires
        0 <= k < sch.len(),
        is_obs == is_observe_out(sch[k]),
        forall|x: (Seq<char>, Seq<char>)| #[trigger] pair_in(before, x) <==> ((is_observe_port(t, sm, x) && machine_in_prefix(t, x.0, i))
            || (x.0 == name && observe_in_prefix(sch, x.1, k))),
        is_obs ==> forall|x: (Seq<char>, Seq<char>)| #[trigger] pair_in(after, x) <==> (pair_in(before, x) || x == (name, sch[k].name@)),
        !is_obs ==> after == before,
    ensures
        forall|x: (Seq<char>, Seq<char>)| #[trigger] pair_in(after, x) <==> ((is_observe_port(t, sm, x) && machine_in_prefix(t, x.0, i))
            || (x.0 == name && observe_in_prefix(sch, x.1, k + 1))),
{
    let e = (name, sch[k].name@);
    assert forall|x: (Seq<char>, Seq<char>)| #[trigger] pair_in(after, x) <==> ((is_observe_port(t, sm, x) && machine_in_prefix(t, x.0, i))
        || (x.0 == name && observe_in_prefix(sch, x.1, k + 1))) by {
        assert(pair_in(before, x) <==> ((is_observe_port(t, sm, x) && machine_in_prefix(t, x.0, i))
            || (x.0 == name && observe_in_prefix(sch, x.1, k))));
        if x.0 == name && observe_in_prefix(sch, x.1, k + 1) {
            let q = choose|q: int| 0 <= q < k + 1 && #[trigger] sch[q].name@ == x.1 && is_observe_out(sch[q]);
            if q < k {
                assert(sch[q].name@ == x.1);
            } else {
                assert(x == e);
            }
        }
        if observe_in_prefix(sch, x.1, k) {
            let q = choose|q: int| 0 <= q < k && #[trigger] sch[q].name@ == x.1 && is_observe_out(sch[q]);
            assert(sch[q].name@ == x.1);
        }
        if is_obs && x == e {
            assert(sch[k].name@ == x.1);
        }
    }
}

/// One machine step of the observe-port set: after machine `i`'s ports are
/// scanned, the set holds the observe ports of the first `i + 1` machines.
proof fn lemma_obs_machine_step(t: TopologyView, sm: Seq<(Seq<char>, Seq<PortDecl>)>, obs: Seq<(Seq<char>, Seq<char>)>, i: int)
    requires
        0 <= i < t.machines.len(),
        match schema_of(t, sm, t.machines[i].name) {
            Some(sch) => forall|x: (Seq<char>, Seq<char>)| #[trigger] pair_in(obs, x) <==> ((is_observe_port(t, sm, x) && machine_in_prefix(t, x.0, i))
                || (x.0 == t.machines[i].name && observe_in_prefix(sch, x.1, sch.len() as int))),
            None => forall|x: (Seq<char>, Seq<char>)| #[trigger] pair_in(obs, x) <==> (is_observe_port(t, sm, x) && machine_in_prefix(t, x.0, i)),
        },
    ensures
        forall|x: (Seq<char>, Seq<char>)| #[trigger] pair_in(obs, x) <==> (is_observe_port(t, sm, x) && machine_in_prefix(t, x.0, i + 1)),
{
    let name = t.machines[i].name;
    assert forall|x: (Seq<char>, Seq<char>)| #[trigger] pair_in(obs, x) <==> (is_observe_port(t, sm, x) && machine_in_prefix(t, x.0, i + 1)) by {
        if machine_in_prefix(t, x.0, i + 1) {
            let j = choose|j: int| 0 <= j < i + 1 && #[trigger] t.machines[j].name == x.0;
            if j < i {
                assert(t.machines[j].name == x.0);
            }
        }
        if machine_in_prefix(t, x.0, i) {
            let j = choose|j: int| 0 <= j < i && #[trigger] t.machines[j].name == x.0;
            assert(t.machines[j].name == x.0);
        }
        match schema_of(t, sm, name) {
            Some(sch) => {
                assert(pair_in(obs, x) <==> ((is_observe_port(t, sm, x) && machine_in_prefix(t, x.0, i))
                    || (x.0 == name && observe_in_prefix(sch, x.1, sch.len() as int))));
                lemma_observe_count_port(sch, x.1);
                if x.0 == name {
                    assert(t.machines[i].name == x.0);
                    if observe_in_prefix(sch, x.1, sch.len() as int) {
                        let q = choose|q: int| 0 <= q < sch.len() && #[trigger] sch[q].name@ == x.1 && is_observe_out(sch[q]);
                        assert(sch[q].name@ == x.1);
                    }
                    if is_observe_port(t, sm, x) {
                        let q = choose|q: int| 0 <= q < sch.len() && #[trigger] sch[q].name@ == x.1 && is_observe_out(sch[q]);
                        assert(sch[q].name@ == x.1);
                    }
                }
            },
            None => {
                assert(pair_in(obs, x) <==> (is_observe_port(t, sm, x) && machine_in_prefix(t, x.0, i)));
                if x.0 == name {
                    assert(!is_observe_port(t, sm, x));
                }
            },
        }
    }
}

/// The schema of machine `m`, when it is a machine with one.
fn machine_schema<'a>(spec: &DynamicTopology, mnames: &Vec<String>, schemas: &'a SchemaMap, m: &str) -> (r: Option<&'a PortSchema>)
    requires
        node_order(spec@, names_of(mnames@)),
    ensures
        match r {
            Some(s) => schema_of(spec@, schemas@, m@) == Some(s@),
            None => schema_of(spec@, schemas@, m@) is None,
        },
{
    match position_of(mnames, m) {
        Some(i) => {
            proof {
                assert(names_of(mnames@)[i as int] == m@);
                assert(names_of(mnames@).contains(m@));
            }
            schemas.get(m)
        },
        None => {
            proof {
                if names_of(mnames@).contains(m@) {
                    let k = choose|k: int| 0 <= k < names_of(mnames@).len() && names_of(mnames@)[k] == m@;
                    assert(mnames@[k]@ == m@);
                }
            }
            None
        },
    }
}

/// Whether a schema declares a port named `p` in direction `d` (any
/// direction when `d` is `None`).
fn schema_has_port(s: &PortSchema, p: &str, d: Option<PortDir>) -> (r: bool)
    ensures
        match d {
            Some(d) => r == has_port_dir(s@, p@, d),
            None => r == has_port(s@, p@),
        },
{
    let ports = s.ports();
    let mut i: usize = 0;
    while i < ports.len()
        invariant
            i <= ports.len(),
            ports@ == s@,
            forall|j: int| 0 <= j < i ==> !(#[trigger] s@[j].name@ == p@ && (d matches Some(dd) ==> s@[j].dir == dd)),
        decreases ports.len() - i,
    {
        let hit = crate::strings::str_eq(ports[i].name, p) && match d {
            Some(dd) => ports[i].dir == dd,
            None => true,
        };
        if hit {
            proof {
                assert(s@[i as int].name@ == p@);
            }
            return true;
        }
        i = i + 1;
    }
    false
}

/// Whether some link runs from port `a` to port `b`.
fn link_joins(spec: &DynamicTopology, a: &(String, String), b: &(String, String)) -> (r: bool)
    ensures
        r == exists|i: int| 0 <= i < spec@.links.len() && #[trigger] spec@.links[i].out == (a.0@, a.1@) && spec@.links[i].into == (b.0@, b.1@),
{
    let ghost t = spec@;
    let mut i: usize = 0;
    while i < spec.links.len()
        invariant
            i <= spec.links.len(),
            t == spec@,
            forall|j: int| 0 <= j < i ==> !(#[trigger] t.links[j].out == (a.0@, a.1@) && t.links[j].into == (b.0@, b.1@)),
        decreases spec.links.len() - i,
    {
        let l = &spec.links[i];
        proof {
            assert(t.links[i as int] == l@);
        }
        if l.out.0 == a.0 && l.out.1 == a.1 && l.into.0 == b.0 && l.into.1 == b.1 {
            proof {
                assert(t.links[i as int].out == (a.0@, a.1@) && t.links[i as int].into == (b.0@, b.1@));
            }
            return true;
        }
        i = i + 1;
    }
    false
}

/// Whether the port graph has an edge from `a` to `b`.
fn port_edge_exec(spec: &DynamicTopology, mnames: &Vec<String>, schemas: &SchemaMap, a: &(String, String), b: &(String, String)) -> (r: bool)
    requires
        node_order(spec@, names_of(mnames@)),
    ensures
        r == port_edge(spec@, schemas@, (a.0@, a.1@), (b.0@, b.1@)),
{
    let ghost t = spec@;
    let internal = if a.0 == b.0 {
        match machine_schema(spec, mnames, schemas, a.0.as_str()) {
            Some(s) => schema_has_port(s, a.1.as_str(), Some(PortDir::In)) && schema_has_port(s, b.1.as_str(), Some(PortDir::Out)),
            None => false,
        }
    } else {
        false
    };
    if internal {
        return true;
    }
    let am = machine_known(spec, mnames, a.0.as_str());
    let bm = machine_known(spec, mnames, b.0.as_str());
    am && bm && link_joins(spec, a, b)
}

/// Whether `x` is a machine name.
fn machine_known(spec: &DynamicTopology, mnames: &Vec<String>, x: &str) -> (r: bool)
    requires
        node_order(spec@, names_of(mnames@)),
    ensures
        r == is_machine(spec@, x@),
{
    match position_of(mnames, x) {
        Some(i) => {
            proof {
                assert(names_of(mnames@)[i as int] == x@);
                assert(names_of(mnames@).contains(x@));
            }
            true
        },
        None => {
            proof {
                if names_of(mnames@).contains(x@) {
                    let k = choose|k: int| 0 <= k < names_of(mnames@).len() && names_of(mnames@)[k] == x@;
                    assert(mnames@[k]@ == x@);
                }
            }
            false
        },
    }
}

/// Whether machine `m` is a collector.
fn collector_exec(spec: &DynamicTopology, mnames: &Vec<String>, schemas: &SchemaMap, m: &String) -> (r: bool)
    requires
        node_order(spec@, names_of(mnames@)),
    ensures
        r == is_collector(spec@, schemas@, m@),
{
    let found = machine_known(spec, mnames, m.as_str());
    if !found {
        return false;
    }
    match schemas.get(m.as_str()) {
        None => true,
        Some(s) => {
            let obs = s.observe_ports();
            proof {
                let f = |p: PortDecl| is_observe_out(p);
                crate::seq_util::lemma_filter_elements(s@, f);
                if has_observe(s@) {
                    let i = choose|i: int| 0 <= i < s@.len() && #[trigger] is_observe_out(s@[i]);
                    lemma_filter_nonempty(s@, f, i);
                }
                if s@.filter(f).len() > 0 {
                    assert(s@.contains(s@.filter(f)[0]));
                    let j = choose|j: int| 0 <= j < s@.len() && s@[j] == s@.filter(f)[0];
                    assert(is_observe_out(s@[j]));
                }
                assert(obs@.map_values(|p: &PortDecl| *p).len() == obs.len());
            }
            obs.len() == 0
        },
    }
}

/// A sequence with an element satisfying `pred` keeps something when
/// filtered by it.
proof fn lemma_filter_nonempty<A>(s: Seq<A>, pred: spec_fn(A) -> bool, i: int)
    requires
        0 <= i < s.len(),
        pred(s[i]),
    ensures
        s.filter(pred).len() > 0,
    decreases s.len(),
{
    reveal(Seq::filter);
    if i < s.len() - 1 {
        assert(s.drop_last()[i] == s[i]);
        lemma_filter_nonempty(s.drop_last(), pred, i);
    }
}

/// The number of Observe outputs named `p` of a schema.
fn observe_count_exec(s: &PortSchema, p: &str) -> (c: usize)
    ensures
        c == observe_count(s@, p@),
{
    let ports = s.ports();
    let mut c: usize = 0;
    let mut i: usize = 0;
    while i < ports.len()
        invariant
            i <= ports.len(),
            ports@ == s@,
            c == observe_count(s@.take(i as int), p@),
            c <= i,
        decreases ports.len() - i,
    {
        proof {
            assert(s@.take(i as int + 1).drop_last() =~= s@.take(i as int));
        }
        if crate::strings::str_eq(ports[i].name, p) && ports[i].dir == PortDir::Out && ports[i].flow == FlowKind::Observe {
            c = c + 1;
        }
        i = i + 1;
    }
    proof {
        assert(s@.take(ports.len() as int) =~= s@);
    }
    c
}

/// Pairs in a strictly increasing sequence are distinct.
proof fn lemma_pairs_distinct(ps: Seq<(Seq<char>, Seq<char>)>, i: int, j: int)
    requires
        pairs_sorted(ps),
        0 <= i < ps.len(),
        0 <= j < ps.len(),
        ps[i] == ps[j],
    ensures
        i == j,
{
    lemma_pair_lt_props(ps[i], ps[i], ps[i]);
    if i < j {
        assert(pair_lt(ps[i], ps[j]));
    } else if j < i {
        assert(pair_lt(ps[j], ps[i]));
    }
}

/// The position of pair `(a, b)` in a vector of pairs.
fn pair_position(v: &Vec<(String, String)>, a: &String, b: &String) -> (r: Option<usize>)
    ensures
        match r {
            Some(i) => i < v.len() && pairs_of(v@)[i as int] == (a@, b@),
            None => !pairs_of(v@).contains((a@, b@)),
        },
{
    let mut i: usize = 0;
    while i < v.len()
        invariant
            i <= v.len(),
            forall|j: int| 0 <= j < i ==> #[trigger] pairs_of(v@)[j] != (a@, b@),
        decreases v.len() - i,
    {
        if v[i].0 == *a && v[i].1 == *b {
            return Some(i);
        }
        i = i + 1;
    }
    None
}

/// The ends of a port-graph edge are nodes of it.
proof fn lemma_port_edge_nodes(t: TopologyView, sm: Seq<(Seq<char>, Seq<PortDecl>)>, a: (Seq<char>, Seq<char>), b: (Seq<char>, Seq<char>))
    requires
        port_edge(t, sm, a, b),
    ensures
        is_port_node(t, sm, a),
        is_port_node(t, sm, b),
{
    if a.0 == b.0 && schema_of(t, sm, a.0) is Some && has_port_dir(schema_of(t, sm, a.0)->Some_0, a.1, PortDir::In)
        && has_port_dir(schema_of(t, sm, a.0)->Some_0, b.1, PortDir::Out) {
        let sch = schema_of(t, sm, a.0)->Some_0;
        let i = choose|i: int| 0 <= i < sch.len() && #[trigger] sch[i].name@ == a.1 && sch[i].dir == PortDir::In;
        assert(has_port(sch, a.1));
        let j = choose|j: int| 0 <= j < sch.len() && #[trigger] sch[j].name@ == b.1 && sch[j].dir == PortDir::Out;
        assert(has_port(sch, b.1));
    } else {
        let i = choose|i: int| 0 <= i < t.links.len() && #[trigger] t.links[i].out == a && t.links[i].into == b;
        assert(endpoint_of(t, i, a));
        assert(endpoint_of(t, i, b));
    }
}

/// Reaching a collector from port `pairs[u]` is the port being a
/// collector's, or a collector's port being reachable in the graph.
proof fn lemma_collector_transfer(
    t: TopologyView,
    sm: Seq<(Seq<char>, Seq<PortDecl>)>,
    pairs: Seq<(Seq<char>, Seq<char>)>,
    g: Seq<Seq<usize>>,
    u: int,
)
    requires
        pairs_sorted(pairs),
        forall|x: (Seq<char>, Seq<char>)| pairs.contains(x) <==> is_port_node(t, sm, x),
        g.len() == pairs.len(),
        g.len() <= usize::MAX,
        graph_wf(g),
        forall|a: int, b: int| 0 <= a < g.len() && 0 <= b < g.len() ==> (#[trigger] has_edge(g, a, b) <==> port_edge(t, sm, pairs[a], pairs[b])),
        0 <= u < g.len(),
    ensures
        reaches_collector(t, sm, pairs[u]) <==> (is_collector(t, sm, pairs[u].0)
            || exists|v: int| 0 <= v < g.len() && #[trigger] reaches(g, u, v) && is_collector(t, sm, pairs[v].0)),
{
    if reaches_collector(t, sm, pairs[u]) {
        let c = choose|c: Seq<(Seq<char>, Seq<char>)>| #[trigger] is_port_walk(t, sm, c) && c.len() >= 1 && c[0] == pairs[u] && is_collector(t, sm, c.last().0);
        if c.len() >= 2 {
            assert forall|i: int| 0 <= i < c.len() implies #[trigger] pairs.contains(c[i]) by {
                if i < c.len() - 1 {
                    assert(port_edge(t, sm, c[i], c[i + 1]));
                    lemma_port_edge_nodes(t, sm, c[i], c[i + 1]);
                } else {
                    let j = i - 1;
                    assert(port_edge(t, sm, c[j], c[j + 1]));
                    lemma_port_edge_nodes(t, sm, c[j], c[j + 1]);
                }
            }
            let p = Seq::new(c.len(), |i: int| (choose|k: int| 0 <= k < pairs.len() && pairs[k] == c[i]) as usize);
            assert forall|i: int| 0 <= i < p.len() implies #[trigger] p[i] < g.len() && pairs[p[i] as int] == c[i] by {
                assert(pairs.contains(c[i]));
            }
            assert forall|i: int| 0 <= i < p.len() - 1 implies has_edge(g, #[trigger] p[i] as int, p[i + 1] as int) by {
                assert(port_edge(t, sm, c[i], c[i + 1]));
                assert(pairs[p[i] as int] == c[i] && pairs[p[i + 1] as int] == c[i + 1]);
            }
            assert(is_walk(g, p));
            lemma_pairs_distinct(pairs, p[0] as int, u);
            let v = p[p.len() - 1] as int;
            assert(reaches(g, u, v));
            assert(pairs[v] == c.last());
        }
    }
    if is_collector(t, sm, pairs[u].0) {
        let c = seq![pairs[u]];
        assert(is_port_walk(t, sm, c));
    }
    if exists|v: int| 0 <= v < g.len() && #[trigger] reaches(g, u, v) && is_collector(t, sm, pairs[v].0) {
        let v = choose|v: int| 0 <= v < g.len() && #[trigger] reaches(g, u, v) && is_collector(t, sm, pairs[v].0);
        let p = choose|p: Seq<usize>| #[trigger] is_walk(g, p) && p.len() >= 2 && p[0] == u && p.last() == v;
        let c = p.map_values(|k: usize| pairs[k as int]);
        assert forall|i: int| 0 <= i < c.len() - 1 implies #[trigger] port_edge(t, sm, c[i], c[i + 1]) by {
            assert(has_edge(g, p[i] as int, p[i + 1] as int));
        }
        assert(is_port_walk(t, sm, c));
    }
}

/// An Observe output of a schema is a port it declares.
proof fn lemma_observe_count_port(s: Seq<PortDecl>, p: Seq<char>)
    ensures
        observe_count(s, p) > 0 <==> exists|i: int| 0 <= i < s.len() && #[trigger] s[i].name@ == p && is_observe_out(s[i]),
    decreases s.len(),
{
    if s.len() > 0 {
        lemma_observe_count_port(s.drop_last(), p);
        if exists|i: int| 0 <= i < s.drop_last().len() && #[trigger] s.drop_last()[i].name@ == p && is_observe_out(s.drop_last()[i]) {
            let i = choose|i: int| 0 <= i < s.drop_last().len() && #[trigger] s.drop_last()[i].name@ == p && is_observe_out(s.drop_last()[i]);
            assert(s[i] == s.drop_last()[i]);
        }
        if exists|i: int| 0 <= i < s.len() && #[trigger] s[i].name@ == p && is_observe_out(s[i]) {
            let i = choose|i: int| 0 <= i < s.len() && #[trigger] s[i].name@ == p && is_observe_out(s[i]);
            if i < s.len() - 1 {
                assert(s.drop_last()[i] == s[i]);
            }
        }
    }
}

/// The observe ports from which no collector can be reached, in order of
/// machine then port: for each, one `DisconnectedObserve` warning per
/// machine of that name and per Observe output of that name. Data crosses a
/// machine from any input to any output, and a link from its source to its
/// target; a collector is a machine without a schema or without an Observe
/// output.
pub fn observe_completeness(spec: &DynamicTopology, schemas: &SchemaMap) -> (r: Vec<TopologyWarning>)
    ensures
        exists|pairs: Seq<(Seq<char>, Seq<char>)>| #[trigger] pairs_sorted(pairs)
            && (forall|x: (Seq<char>, Seq<char>)| pairs.contains(x) <==> is_observe_port(spec@, schemas@, x))
            && warnings_of(r@) == observe_list(spec@, schemas@, pairs, pairs.len() as int),
{
    let ghost t = spec@;
    let ghost sm = schemas@;
    let mnames = sorted_machine_names(spec);
    // The nodes of the port graph.
    let mut nodes: Vec<(String, String)> = Vec::new();
    let mut i: usize = 0;
    while i < spec.machines.len()
        invariant
            i <= spec.machines.len(),
            t == spec@,
            sm == schemas@,
            t.machines.len() == spec.machines.len(),
            node_order(t, names_of(mnames@)),
            pairs_sorted(pairs_of(nodes@)),
            forall|x: (Seq<char>, Seq<char>)| pair_in(pairs_of(nodes@), x) <==> #[trigger] machine_port_seen(t, sm, x, i as int),
        decreases spec.machines.len() - i,
    {
        let name = &spec.machines[i].name;
        proof {
            assert(t.machines[i as int].name == name@);
        }
        match machine_schema(spec, &mnames, schemas, name.as_str()) {
            Some(sch) => {
                let ports = sch.ports();
                let mut k: usize = 0;
                while k < ports.len()
                    invariant
                        k <= ports.len(),
                        i < spec.machines.len(),
                        t == spec@,
                        sm == schemas@,
                        t.machines.len() == spec.machines.len(),
                        t.machines[i as int].name == name@,
                        ports@ == sch@,
                        schema_of(t, sm, name@) == Some(sch@),
                        pairs_sorted(pairs_of(nodes@)),
                        forall|x: (Seq<char>, Seq<char>)| pair_in(pairs_of(nodes@), x) <==> (#[trigger] machine_port_seen(t, sm, x, i as int)
                            || (x.0 == name@ && port_in_prefix(sch@, x.1, k as int))),
                    decreases ports.len() - k,
                {
                    let ghost n0 = pairs_of(nodes@);
                    let ghost e = (name@, sch@[k as int].name@);
                    let ghost k0 = k as int;
                    proof {
                        assert(ports@[k as int] == sch@[k as int]);
                        assert(forall|x: (Seq<char>, Seq<char>)| pair_in(n0, x) <==> (#[trigger] machine_port_seen(t, sm, x, i as int)
                            || (x.0 == name@ && port_in_prefix(sch@, x.1, k0))));
                    }
                    insert_sorted_pair(&mut nodes, name.as_str(), ports[k].name);
                    k = k + 1;
                    proof {
                        assert forall|x: (Seq<char>, Seq<char>)| (x.0 == name@ && #[trigger] port_in_prefix(sch@, x.1, k as int))
                            <==> ((x.0 == name@ && port_in_prefix(sch@, x.1, k0)) || x == e) by {
                            if x == e {
                                assert(sch@[k0].name@ == x.1);
                            }
                            if port_in_prefix(sch@, x.1, k as int) {
                                let q = choose|q: int| 0 <= q < k && #[trigger] sch@[q].name@ == x.1;
                                if q < k0 {
                                    assert(sch@[q].name@ == x.1);
                                } else if x.0 == name@ {
                                    assert(x == e);
                                }
                            }
                            if port_in_prefix(sch@, x.1, k0) {
                                let q = choose|q: int| 0 <= q < k0 && #[trigger] sch@[q].name@ == x.1;
                                assert(sch@[q].name@ == x.1);
                            }
                        }
                    }
                }
                proof {
                    assert forall|x: (Seq<char>, Seq<char>)| pair_in(pairs_of(nodes@), x) <==> #[trigger] machine_port_seen(t, sm, x, i + 1) by {
                        if machine_port_seen(t, sm, x, i + 1) {
                            let j = choose|j: int| 0 <= j < i + 1 && #[trigger] t.machines[j].name == x.0 && schema_of(t, sm, x.0) is Some
                                && has_port(schema_of(t, sm, x.0)->Some_0, x.1);
                            if j < i {
                                assert(machine_port_seen(t, sm, x, i as int));
                            } else {
                                let q = choose|q: int| 0 <= q < sch@.len() && #[trigger] sch@[q].name@ == x.1;
                            }
                        }
                        if machine_port_seen(t, sm, x, i as int) {
                            let j = choose|j: int| 0 <= j < i && #[trigger] t.machines[j].name == x.0 && schema_of(t, sm, x.0) is Some
                                && has_port(schema_of(t, sm, x.0)->Some_0, x.1);
                            assert(t.machines[j].name == x.0);
                        }
                        if x.0 == name@ && port_in_prefix(sch@, x.1, ports.len() as int) {
                            let q = choose|q: int| 0 <= q < ports.len() && #[trigger] sch@[q].name@ == x.1;
                            assert(has_port(sch@, x.1));
                            assert(t.machines[i as int].name == x.0);
                        }
                    }
                }
            },
            None => {
                proof {
                    assert forall|x: (Seq<char>, Seq<char>)| pair_in(pairs_of(nodes@), x) <==> #[trigger] machine_port_seen(t, sm, x, i + 1) by {
                        if machine_port_seen(t, sm, x, i + 1) {
                            let j = choose|j: int| 0 <= j < i + 1 && #[trigger] t.machines[j].name == x.0 && schema_of(t, sm, x.0) is Some
                                && has_port(schema_of(t, sm, x.0)->Some_0, x.1);
                            if j < i {
                                assert(machine_port_seen(t, sm, x, i as int));
                            }
                        }
                        if machine_port_seen(t, sm, x, i as int) {
                            let j = choose|j: int| 0 <= j < i && #[trigger] t.machines[j].name == x.0 && schema_of(t, sm, x.0) is Some
                                && has_port(schema_of(t, sm, x.0)->Some_0, x.1);
                            assert(t.machines[j].name == x.0);
                        }
                    }
                }
            },
        }
        i = i + 1;
    }
    proof {
        assert(i == t.machines.len());
        assert forall|x: (Seq<char>, Seq<char>)| pair_in(pairs_of(nodes@), x) <==> (#[trigger] machine_port_seen(t, sm, x, t.machines.len() as int)
            || link_port_seen(t, x, 0)) by {
            assert(pair_in(pairs_of(nodes@), x) <==> machine_port_seen(t, sm, x, i as int));
        }
    }
    let mut i: usize = 0;
    while i < spec.links.len()
        invariant
            i <= spec.links.len(),
            t == spec@,
            sm == schemas@,
            t.links.len() == spec.links.len(),
            node_order(t, names_of(mnames@)),
            pairs_sorted(pairs_of(nodes@)),
            forall|x: (Seq<char>, Seq<char>)| pair_in(pairs_of(nodes@), x) <==> (#[trigger] machine_port_seen(t, sm, x, t.machines.len() as int)
                || link_port_seen(t, x, i as int)),
        decreases spec.links.len() - i,
    {
        let l = &spec.links[i];
        proof {
            assert(t.links[i as int] == l@);
        }
        let both = machine_known(spec, &mnames, l.out.0.as_str()) && machine_known(spec, &mnames, l.into.0.as_str());
        let ghost n0 = pairs_of(nodes@);
        if both {
            insert_sorted_pair(&mut nodes, l.out.0.as_str(), l.out.1.as_str());
            let ghost n1 = pairs_of(nodes@);
            insert_sorted_pair(&mut nodes, l.into.0.as_str(), l.into.1.as_str());
            proof {
                assert forall|x: (Seq<char>, Seq<char>)| #[trigger] pair_in(pairs_of(nodes@), x) <==> (pair_in(n0, x) || x == t.links[i as int].out
                    || x == t.links[i as int].into) by {
                    assert(pair_in(pairs_of(nodes@), x) <==> (pair_in(n1, x) || x == (l.into.0@, l.into.1@)));
                    assert(pair_in(n1, x) <==> (pair_in(n0, x) || x == (l.out.0@, l.out.1@)));
                }
            }
        }
        proof {
            lemma_link_nodes_step(t, sm, n0, pairs_of(nodes@), i as int, both);
        }
        i = i + 1;
    }
    let ghost pairs = pairs_of(nodes@);
    proof {
        assert forall|x: (Seq<char>, Seq<char>)| pairs.contains(x) <==> is_port_node(t, sm, x) by {
            assert(pairs.contains(x) == (machine_port_seen(t, sm, x, t.machines.len() as int) || link_port_seen(t, x, t.links.len() as int)));
            if schema_of(t, sm, x.0) is Some && has_port(schema_of(t, sm, x.0)->Some_0, x.1) {
                let j = choose|j: int| 0 <= j < t.machines.len() && #[trigger] t.machines[j].name == x.0;
                assert(machine_port_seen(t, sm, x, t.machines.len() as int));
            }
            if machine_port_seen(t, sm, x, t.machines.len() as int) {
                let j = choose|j: int| 0 <= j < t.machines.len() && #[trigger] t.machines[j].name == x.0 && schema_of(t, sm, x.0) is Some
                    && has_port(schema_of(t, sm, x.0)->Some_0, x.1);
            }
            if link_port_seen(t, x, t.links.len() as int) {
                let j = choose|j: int| 0 <= j < t.links.len() && #[trigger] endpoint_of(t, j, x) && is_machine(t, t.links[j].out.0) && is_machine(t, t.links[j].into.0);
            }
        }
    }
    // The port graph.
    let n = nodes.len();
    let mut adj: Vec<Vec<usize>> = Vec::new();
    let mut u: usize = 0;
    while u < n
        invariant
            u <= n,
            n == nodes.len(),
            pairs == pairs_of(nodes@),
            t == spec@,
            sm == schemas@,
            node_order(t, names_of(mnames@)),
            adj.len() == u,
            forall|a: int, k: int| 0 <= a < u && 0 <= k < adj@[a]@.len() ==> #[trigger] adj@[a]@[k] < n,
            forall|a: int, b: int| 0 <= a < u && 0 <= b < n ==> (#[trigger] adj@[a]@.contains(b as usize) <==> port_edge(t, sm, pairs[a], pairs[b])),
        decreases n - u,
    {
        let mut list: Vec<usize> = Vec::new();
        let mut v: usize = 0;
        while v < n
            invariant
                v <= n,
                u < n,
                n == nodes.len(),
                pairs == pairs_of(nodes@),
                t == spec@,
                sm == schemas@,
                node_order(t, names_of(mnames@)),
                forall|k: int| 0 <= k < list@.len() ==> #[trigger] list@[k] < v,
                forall|b: int| 0 <= b < n ==> (#[trigger] list@.contains(b as usize) <==> (b < v && port_edge(t, sm, pairs[u as int], pairs[b]))),
            decreases n - v,
        {
            let e = port_edge_exec(spec, &mnames, schemas, &nodes[u], &nodes[v]);
            let ghost l0 = list@;
            proof {
                crate::graph::lemma_push_contains(l0, v);
                assert(pairs[u as int] == (nodes@[u as int].0@, nodes@[u as int].1@));
                assert(pairs[v as int] == (nodes@[v as int].0@, nodes@[v as int].1@));
            }
            if e {
                list.push(v);
            }
            proof {
                assert forall|b: int| 0 <= b < n implies (#[trigger] list@.contains(b as usize) <==> (b < v + 1 && port_edge(t, sm, pairs[u as int], pairs[b]))) by {
                    if e {
                        assert(list@ == l0.push(v));
                    }
                    if l0.contains(b as usize) {
                        let k = choose|k: int| 0 <= k < l0.len() && l0[k] == b as usize;
                    }
                }
            }
            v = v + 1;
        }
        adj.push(list);
        u = u + 1;
    }
    let ghost g = adj_view(&adj);
    proof {
        assert forall|a: int, k: int| 0 <= a < g.len() && 0 <= k < g[a].len() implies #[trigger] g[a][k] < g.len() by {
            assert(g[a] == adj@[a]@);
        }
        assert forall|a: int, b: int| 0 <= a < g.len() && 0 <= b < g.len() implies (#[trigger] has_edge(g, a, b) <==> port_edge(t, sm, pairs[a], pairs[b])) by {
            assert(g[a] == adj@[a]@);
        }
    }
    // The observe ports, in order.
    let mut obs: Vec<(String, String)> = Vec::new();
    let mut i: usize = 0;
    while i < spec.machines.len()
        invariant
            i <= spec.machines.len(),
            t == spec@,
            sm == schemas@,
            t.machines.len() == spec.machines.len(),
            node_order(t, names_of(mnames@)),
            pairs_sorted(pairs_of(obs@)),
            forall|x: (Seq<char>, Seq<char>)| pair_in(pairs_of(obs@), x) <==> (is_observe_port(t, sm, x)
                && machine_in_prefix(t, x.0, i as int)),
        decreases spec.machines.len() - i,
    {
        let name = &spec.machines[i].name;
        proof {
            assert(t.machines[i as int].name == name@);
        }
        match machine_schema(spec, &mnames, schemas, name.as_str()) {
            Some(sch) => {
                let ports = sch.ports();
                let mut k: usize = 0;
                while k < ports.len()
                    invariant
                        k <= ports.len(),
                        i < spec.machines.len(),
                        t == spec@,
                        sm == schemas@,
                        t.machines.len() == spec.machines.len(),
                        t.machines[i as int].name == name@,
                        ports@ == sch@,
                        schema_of(t, sm, name@) == Some(sch@),
                        pairs_sorted(pairs_of(obs@)),
                        forall|x: (Seq<char>, Seq<char>)| pair_in(pairs_of(obs@), x) <==> ((is_observe_port(t, sm, x)
                            && machine_in_prefix(t, x.0, i as int))
                            || (x.0 == name@ && observe_in_prefix(sch@, x.1, k as int))),
                    decreases ports.len() - k,
                {
                    let ghost o0 = pairs_of(obs@);
                    proof {
                        assert(ports@[k as int] == sch@[k as int]);
                    }
                    let is_obs = ports[k].dir == PortDir::Out && ports[k].flow == FlowKind::Observe;
                    if is_obs {
                        insert_sorted_pair(&mut obs, name.as_str(), ports[k].name);
                    }
                    proof {
                        assert(is_obs == is_observe_out(sch@[k as int]));
                        lemma_obs_port_step(t, sm, name@, sch@, o0, pairs_of(obs@), i as int, k as int, is_obs);
                    }
                    k = k + 1;
                }
                proof {
                    lemma_obs_machine_step(t, sm, pairs_of(obs@), i as int);
                }
            },
            None => {
                proof {
                    lemma_obs_machine_step(t, sm, pairs_of(obs@), i as int);
                }
            },
        }
        i = i + 1;
    }
    let ghost opairs = pairs_of(obs@);
    proof {
        assert forall|x: (Seq<char>, Seq<char>)| opairs.contains(x) <==> is_observe_port(t, sm, x) by {
            if is_observe_port(t, sm, x) {
                let j = choose|j: int| 0 <= j < t.machines.len() && #[trigger] t.machines[j].name == x.0;
                assert(t.machines[j].name == x.0);
            }
        }
    }
    // The warnings.
    let mut r: Vec<TopologyWarning> = Vec::new();
    let mut k: usize = 0;
    while k < obs.len()
        invariant
            k <= obs.len(),
            t == spec@,
            sm == schemas@,
            node_order(t, names_of(mnames@)),
            opairs == pairs_of(obs@),
            forall|x: (Seq<char>, Seq<char>)| opairs.contains(x) <==> is_observe_port(t, sm, x),
            pairs == pairs_of(nodes@),
            pairs_sorted(pairs),
            forall|x: (Seq<char>, Seq<char>)| pairs.contains(x) <==> is_port_node(t, sm, x),
            g == adj_view(&adj),
            g.len() == pairs.len(),
            graph_wf(g),
            forall|a: int, b: int| 0 <= a < g.len() && 0 <= b < g.len() ==> (#[trigger] has_edge(g, a, b) <==> port_edge(t, sm, pairs[a], pairs[b])),
            warnings_of(r@) == observe_list(t, sm, opairs, k as int),
        decreases obs.len() - k,
    {
        let m = &obs[k].0;
        let p = &obs[k].1;
        let ghost x = opairs[k as int];
        proof {
            assert(x == (m@, p@));
            assert(opairs.contains(x));
            assert(is_observe_port(t, sm, x));
            let sch = schema_of(t, sm, x.0)->Some_0;
            lemma_observe_count_port(sch, x.1);
            let q = choose|q: int| 0 <= q < sch.len() && #[trigger] sch[q].name@ == x.1 && is_observe_out(sch[q]);
            assert(has_port(sch, x.1));
            assert(is_port_node(t, sm, x));
        }
        let uu = pair_position(&nodes, m, p);
        let u = match uu {
            Some(u) => u,
            None => {
                proof {
                    assert(false);
                }
                return r;
            },
        };
        let seen = reachable_set(&adj, u);
        let mut connected = collector_exec(spec, &mnames, schemas, m);
        let mut v: usize = 0;
        while v < nodes.len()
            invariant
                v <= nodes.len(),
                seen.len() == nodes.len(),
                t == spec@,
                sm == schemas@,
                node_order(t, names_of(mnames@)),
                pairs == pairs_of(nodes@),
                connected == (is_collector(t, sm, m@) || exists|w: int| 0 <= w < v && #[trigger] seen@[w] && is_collector(t, sm, pairs[w].0)),
            decreases nodes.len() - v,
        {
            let ghost c0 = connected;
            if seen[v] && collector_exec(spec, &mnames, schemas, &nodes[v].0) {
                connected = true;
                proof {
                    assert(pairs[v as int].0 == nodes@[v as int].0@);
                    assert(seen@[v as int] && is_collector(t, sm, pairs[v as int].0));
                }
            }
            proof {
                assert(pairs[v as int].0 == nodes@[v as int].0@);
                if exists|w: int| 0 <= w < v + 1 && #[trigger] seen@[w] && is_collector(t, sm, pairs[w].0) {
                    let w = choose|w: int| 0 <= w < v + 1 && #[trigger] seen@[w] && is_collector(t, sm, pairs[w].0);
                    if w < v {
                        assert(c0);
                    }
                }
            }
            v = v + 1;
        }
        proof {
            lemma_collector_transfer(t, sm, pairs, g, u as int);
            assert(pairs[u as int] == x);
            assert(connected == reaches_collector(t, sm, x)) by {
                if exists|w: int| 0 <= w < g.len() && #[trigger] reaches(g, u as int, w) && is_collector(t, sm, pairs[w].0) {
                    let w = choose|w: int| 0 <= w < g.len() && #[trigger] reaches(g, u as int, w) && is_collector(t, sm, pairs[w].0);
                    assert(seen@[w]);
                }
                if exists|w: int| 0 <= w < nodes.len() && #[trigger] seen@[w] && is_collector(t, sm, pairs[w].0) {
                    let w = choose|w: int| 0 <= w < nodes.len() && #[trigger] seen@[w] && is_collector(t, sm, pairs[w].0);
                    assert(reaches(g, u as int, w));
                }
            }
        }
        let ghost r0 = warnings_of(r@);
        if !connected {
            let mc = count_machines_named(spec, m);
            let oc = match machine_schema(spec, &mnames, schemas, m.as_str()) {
                Some(sch) => observe_count_exec(sch, p.as_str()),
                None => 0,
            };
            let ghost w = TopologyWarningView::DisconnectedObserve { machine: m@, port: p@ };
            let mut a: usize = 0;
            while a < mc
                invariant
                    a <= mc,
                    w == (TopologyWarningView::DisconnectedObserve { machine: m@, port: p@ }),
                    warnings_of(r@) == r0 + reps(w, a as nat, oc as nat),
                decreases mc - a,
            {
                let mut b: usize = 0;
                let ghost rb = warnings_of(r@);
                while b < oc
                    invariant
                        b <= oc,
                        w == (TopologyWarningView::DisconnectedObserve { machine: m@, port: p@ }),
                        warnings_of(r@) == rb + Seq::new(b as nat, |i: int| w),
                    decreases oc - b,
                {
                    let ghost before = r@;
                    let item = TopologyWarning::DisconnectedObserve { machine: m.clone(), port: p.clone() };
                    proof {
                        assert(item@ == w);
                    }
                    r.push(item);
                    proof {
                        assert(r@ == before.push(item));
                        assert(warnings_of(r@) =~= warnings_of(before).push(w));
                        assert(rb + Seq::new((b + 1) as nat, |i: int| w) =~= (rb + Seq::new(b as nat, |i: int| w)).push(w));
                    }
                    b = b + 1;
                }
                proof {
                    assert(r0 + reps(w, (a + 1) as nat, oc as nat) =~= r0 + reps(w, a as nat, oc as nat) + Seq::new(oc as nat, |i: int| w));
                }
                a = a + 1;
            }
        }
        proof {
            assert(warnings_of(r@) =~= observe_list(t, sm, opairs, k as int + 1));
        }
        k = k + 1;
    }
    r
}


// ── The whole analysis ──────────────────────────────────────────────────

/// The warning that reports feedback loop `f`.
pub open spec fn loop_warning(f: FeedbackLoopView) -> TopologyWarningView {
    TopologyWarningView::FeedbackLoop { machines: f.machines, all_moore: f.all_moore, has_inline: f.has_inline }
}

/// The warning that reports single point of failure `f`.
pub open spec fn spof_warning(f: SinglePointOfFailureView) -> TopologyWarningView {
    TopologyWarningView::SinglePointOfFailure { vertex: f.vertex, threatens: f.threatens }
}

/// Whether `ws` are the disconnected-observe warnings of `t` under the
/// schemas `sm`.
pub open spec fn observe_warnings(t: TopologyView, sm: Seq<(Seq<char>, Seq<PortDecl>)>, ws: Seq<TopologyWarningView>) -> bool {
    exists|pairs: Seq<(Seq<char>, Seq<char>)>| #[trigger] pairs_sorted(pairs)
        && (forall|x: (Seq<char>, Seq<char>)| pairs.contains(x) <==> is_observe_port(t, sm, x))
        && ws == observe_list(t, sm, pairs, pairs.len() as int)
}

/// The warnings of an analysis over the machine order `nodes`: feedback
/// loops, then single points of failure, then orphans, then `obs`.
pub open spec fn analysis_list(t: TopologyView, nodes: Seq<Seq<char>>, obs: Seq<TopologyWarningView>) -> Seq<TopologyWarningView> {
    loops_of(t, nodes).map_values(|f: FeedbackLoopView| loop_warning(f))
        + spof_list(t, nodes, nodes.len() as int).map_values(|f: SinglePointOfFailureView| spof_warning(f))
        + orphan_list(t, nodes, nodes.len() as int) + obs
}

/// Whether `obs` are the observe warnings owed for the optional schemas.
pub open spec fn observe_part(t: TopologyView, sm: Option<Seq<(Seq<char>, Seq<PortDecl>)>>, obs: Seq<TopologyWarningView>) -> bool {
    match sm {
        None => obs.len() == 0,
        Some(sm) => observe_warnings(t, sm, obs),
    }
}

/// Runs every advisory analysis: feedback loops, single points of failure
/// and orphans, then observe completeness when schemas are given.
pub fn analyze(spec: &DynamicTopology, schemas: Option<&SchemaMap>) -> (r: TopologyReport)
    ensures
        exists|nodes: Seq<Seq<char>>, obs: Seq<TopologyWarningView>| #![trigger node_order(spec@, nodes), observe_part(spec@, schemas_view(schemas), obs)]
            node_order(spec@, nodes) && observe_part(spec@, schemas_view(schemas), obs)
            && warnings_of(r.warnings@) == analysis_list(spec@, nodes, obs),
{
    let ghost t = spec@;
    let fl = feedback_loops(spec);
    let sp = single_points_of_failure(spec);
    let orph = orphans(spec);
    let ghost nodes = choose|nodes: Seq<Seq<char>>| #[trigger] node_order(t, nodes) && fl@.map_values(|f: FeedbackLoop| f@) == loops_of(t, nodes);
    proof {
        let n2 = choose|nodes: Seq<Seq<char>>| #[trigger] node_order(t, nodes) && sp@.map_values(|f: SinglePointOfFailure| f@) == spof_list(t, nodes, nodes.len() as int);
        let n3 = choose|nodes: Seq<Seq<char>>| #[trigger] node_order(t, nodes) && warnings_of(orph@) == orphan_list(t, nodes, nodes.len() as int);
        lemma_node_order_unique(t, nodes, n2);
        lemma_node_order_unique(t, nodes, n3);
    }
    let ghost lw = loops_of(t, nodes).map_values(|f: FeedbackLoopView| loop_warning(f));
    let ghost sw = spof_list(t, nodes, nodes.len() as int).map_values(|f: SinglePointOfFailureView| spof_warning(f));
    let mut warnings: Vec<TopologyWarning> = Vec::new();
    for f in it: fl.into_iter()
        invariant
            it.seq().map_values(|f: FeedbackLoop| f@) == loops_of(t, nodes),
            lw == loops_of(t, nodes).map_values(|f: FeedbackLoopView| loop_warning(f)),
            warnings_of(warnings@) == lw.take(it.index() as int),
    {
        proof {
            assert(it.seq().map_values(|f: FeedbackLoop| f@)[it.index() as int] == f@);
            assert(lw[it.index() as int] == loop_warning(f@));
            assert(lw.take(it.index() as int + 1) =~= lw.take(it.index() as int).push(loop_warning(f@)));
        }
        warnings.push(TopologyWarning::FeedbackLoop { machines: f.machines, all_moore: f.all_moore, has_inline: f.has_inline });
        proof {
            assert(warnings_of(warnings@) =~= lw.take(it.index() as int + 1));
        }
    }
    let ghost w1 = warnings@;
    for f in it: sp.into_iter()
        invariant
            it.seq().map_values(|f: SinglePointOfFailure| f@) == spof_list(t, nodes, nodes.len() as int),
            sw == spof_list(t, nodes, nodes.len() as int).map_values(|f: SinglePointOfFailureView| spof_warning(f)),
            warnings_of(warnings@) == warnings_of(w1) + sw.take(it.index() as int),
    {
        proof {
            assert(it.seq().map_values(|f: SinglePointOfFailure| f@)[it.index() as int] == f@);
            assert(sw[it.index() as int] == spof_warning(f@));
            assert(sw.take(it.index() as int + 1) =~= sw.take(it.index() as int).push(spof_warning(f@)));
        }
        let ghost before = warnings@;
        let item = TopologyWarning::SinglePointOfFailure { vertex: f.vertex, threatens: f.threatens };
        warnings.push(item);
        proof {
            assert(warnings_of(warnings@) =~= warnings_of(before).push(item@));
            assert(warnings_of(w1) + sw.take(it.index() as int + 1) =~= (warnings_of(w1) + sw.take(it.index() as int)).push(spof_warning(f@)));
        }
    }
    let mut orph = orph;
    let ghost w2 = warnings@;
    let ghost ow = warnings_of(orph@);
    warnings.append(&mut orph);
    proof {
        assert(warnings_of(warnings@) =~= warnings_of(w2) + ow);
    }
    let ghost w3 = warnings@;
    let ghost obs: Seq<TopologyWarningView>;
    match schemas {
        Some(m) => {
            let mut more = observe_completeness(spec, m);
            proof {
                obs = warnings_of(more@);
            }
            warnings.append(&mut more);
        },
        None => {
            proof {
                obs = Seq::empty();
            }
        },
    }
    proof {
        assert(warnings_of(warnings@) =~= warnings_of(w3) + obs);
        assert(warnings_of(warnings@) =~= analysis_list(t, nodes, obs));
        assert(observe_part(t, schemas_view(schemas), obs));
    }
    TopologyReport { warnings }
}

/// The view of optional schemas.
pub open spec fn schemas_view(schemas: Option<&SchemaMap>) -> Option<Seq<(Seq<char>, Seq<PortDecl>)>> {
    match schemas {
        None => None,
        Some(m) => Some(m@),
    }
}

/// The machine order of a topology is unique.
pub proof fn lemma_node_order_unique(t: TopologyView, a: Seq<Seq<char>>, b: Seq<Seq<char>>)
    requires
        node_order(t, a),
        node_order(t, b),
    ensures
        a == b,
{
    crate::order::lemma_sorted_unique(a, b);
}

// ── Warning text ────────────────────────────────────────────────────────

/// `true` or `false`.
pub open spec fn bool_text(b: bool) -> Seq<char> {
    if b { "true"@ } else { "false"@ }
}

/// The text of a boolean.
fn bool_string(b: bool) -> (s: String)
    ensures
        s@ == bool_text(b),
{
    if b {
        String::from_str("true")
    } else {
        String::from_str("false")
    }
}

/// How an orphan is described: it lacks inbound links, outbound links or
/// both.
pub open spec fn orphan_kind(has_inbound: bool, has_outbound: bool) -> Seq<char> {
    if !has_inbound && !has_outbound {
        "isolated (no in, no out)"@
    } else if !has_inbound {
        "root (no inbound)"@
    } else {
        "leaf (no outbound)"@
    }
}

/// The text of a warning.
pub open spec fn warning_text(w: TopologyWarningView) -> Seq<char> {
    match w {
        TopologyWarningView::DisconnectedObserve { machine, port } => "disconnected observe port '"@ + machine + "::"@ + port
            + "' \u{2014} no path to any collector"@,
        TopologyWarningView::FeedbackLoop { machines, all_moore, has_inline } => "feedback loop: "@ + join(machines, " \u{2192} "@)
            + " | all_moore="@ + bool_text(all_moore) + " has_inline="@ + bool_text(has_inline),
        TopologyWarningView::SinglePointOfFailure { vertex, threatens } => "SPOF '"@ + vertex + "' threatens sinks: "@
            + join(threatens, ", "@),
        TopologyWarningView::Orphan { machine, has_inbound, has_outbound } => "orphan machine '"@ + machine + "': "@
            + orphan_kind(has_inbound, has_outbound),
    }
}

impl TopologyWarning {
    /// The human-readable text of the warning. An orphan always lacks
    /// inbound or outbound links.
    pub fn message(&self) -> (m: String)
        requires
            !(self@ matches TopologyWarningView::Orphan { has_inbound: true, has_outbound: true, .. }),
        ensures
            m@ == warning_text(self@),
    {
        proof {
            reveal_strlit("true");
            reveal_strlit("false");
        }
        match self {
            TopologyWarning::DisconnectedObserve { machine, port } => String::from_str("disconnected observe port '").concat(
                machine.as_str(),
            ).concat("::").concat(port.as_str()).concat("' \u{2014} no path to any collector"),
            TopologyWarning::FeedbackLoop { machines, all_moore, has_inline } => {
                let j = join_strings(machines, " \u{2192} ");
                let a = bool_string(*all_moore);
                let h = bool_string(*has_inline);
                String::from_str("feedback loop: ").concat(j.as_str()).concat(" | all_moore=").concat(a.as_str()).concat(
                    " has_inline=",
                ).concat(h.as_str())
            },
            TopologyWarning::SinglePointOfFailure { vertex, threatens } => {
                let j = join_strings(threatens, ", ");
                String::from_str("SPOF '").concat(vertex.as_str()).concat("' threatens sinks: ").concat(j.as_str())
            },
            TopologyWarning::Orphan { machine, has_inbound, has_outbound } => {
                let kind = if !*has_inbound && !*has_outbound {
                    "isolated (no in, no out)"
                } else if !*has_inbound {
                    "root (no inbound)"
                } else {
                    "leaf (no outbound)"
                };
                String::from_str("orphan machine '").concat(machine.as_str()).concat("': ").concat(kind)
            },
        }
    }
}

impl DynamicTopology {
    /// Runs the advisory analyses over this topology; see [`analyze`].
    pub fn analyze(&self, schemas: Option<&SchemaMap>) -> (r: TopologyReport)
        ensures
            exists|nodes: Seq<Seq<char>>, obs: Seq<TopologyWarningView>| #![trigger node_order(self@, nodes), observe_part(self@, schemas_view(schemas), obs)]
                node_order(self@, nodes) && observe_part(self@, schemas_view(schemas), obs)
                && warnings_of(r.warnings@) == analysis_list(self@, nodes, obs),
    {
        analyze(self, schemas)
    }
}

} // verus!
