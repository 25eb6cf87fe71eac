use vstd::prelude::*;
use petgraph::graph::{Graph, NodeIndex};
use petgraph::visit::Dfs;
use petgraph::Directed;
use fixedbitset::FixedBitSet;
use crate::trace::{count_seen, lemma_count_seen_bound, lemma_count_seen_mono};
use crate::vec_map::VecMap;

verus! {

#[verifier::external_type_specification]
#[verifier::external_body]
#[verifier::reject_recursive_types(N)]
#[verifier::reject_recursive_types(E)]
#[verifier::reject_recursive_types(Ty)]
#[verifier::reject_recursive_types(Ix)]
pub struct ExGraph<N, E, Ty, Ix>(Graph<N, E, Ty, Ix>);

#[verifier::external_type_specification]
#[verifier::external_body]
#[verifier::reject_recursive_types(Ix)]
pub struct ExNodeIndex<Ix>(NodeIndex<Ix>);

#[verifier::external_type_specification]
#[verifier::external_body]
#[verifier::reject_recursive_types(N)]
#[verifier::reject_recursive_types(VM)]
pub struct ExDfs<N, VM>(Dfs<N, VM>);

#[verifier::external_type_specification]
#[verifier::external_body]
pub struct ExFixedBitSet(FixedBitSet);

#[verifier::external_type_specification]
#[verifier::external_body]
pub struct ExDirected(Directed);

/// The node weights of a region graph, by node index.
pub uninterp spec fn graph_nodes(g: Graph<u64, ()>) -> Seq<u64>;

/// The edges of a region graph as (source, target) node indices, in insertion order.
pub uninterp spec fn graph_edges(g: Graph<u64, ()>) -> Seq<(usize, usize)>;

/// The nodes a depth-first traversal still has to look at, the next one last.
pub uninterp spec fn dfs_stack(d: Dfs<NodeIndex, FixedBitSet>) -> Seq<usize>;

/// The nodes a depth-first traversal has visited.
pub uninterp spec fn dfs_discovered(d: Dfs<NodeIndex, FixedBitSet>) -> Set<usize>;

/// The number of nodes the traversal's visit map was made for.
pub uninterp spec fn dfs_capacity(d: Dfs<NodeIndex, FixedBitSet>) -> nat;

/// `Graph::new`: a directed graph without nodes or edges.
#[verifier::external_body]
fn region_graph_new() -> (g: Graph<u64, ()>)
    ensures
        graph_nodes(g) == Seq::<u64>::empty(),
        graph_edges(g) == Seq::<(usize, usize)>::empty(),
{
    Graph::new()
}

/// `Graph::add_node`: appends a node of weight `weight` and returns its index, the
/// old node count. It panics when the node count reaches the largest `u32`.
#[verifier::external_body]
fn region_graph_add_node(g: &mut Graph<u64, ()>, weight: u64) -> (r: usize)
    requires
        graph_nodes(*old(g)).len() < u32::MAX,
    ensures
        r == graph_nodes(*old(g)).len(),
        graph_nodes(*final(g)) == graph_nodes(*old(g)).push(weight),
        graph_edges(*final(g)) == graph_edges(*old(g)),
{
    g.add_node(weight).index()
}

/// `Graph::add_edge`: appends an edge from node `a` to node `b`. It panics on a node
/// that does not exist and when the edge count reaches the largest `u32`.
#[verifier::external_body]
fn region_graph_add_edge(g: &mut Graph<u64, ()>, a: usize, b: usize)
    requires
        a < graph_nodes(*old(g)).len(),
        b < graph_nodes(*old(g)).len(),
        graph_edges(*old(g)).len() < u32::MAX,
    ensures
        graph_nodes(*final(g)) == graph_nodes(*old(g)),
        graph_edges(*final(g)) == graph_edges(*old(g)).push((a, b)),
{
    g.add_edge(NodeIndex::new(a), NodeIndex::new(b), ());
}

/// `Dfs::new`: a traversal of `g` whose stack holds `start` and which has visited
/// nothing, with a visit map sized to `g`.
#[verifier::external_body]
fn region_dfs_new(g: &Graph<u64, ()>, start: usize) -> (d: Dfs<NodeIndex, FixedBitSet>)
    requires
        start < graph_nodes(*g).len(),
    ensures
        dfs_stack(d) == seq![start],
        dfs_discovered(d) == Set::<usize>::empty(),
        dfs_capacity(d) == graph_nodes(*g).len(),
{
    Dfs::new(g, NodeIndex::new(start))
}

/// `Dfs::next`: pops nodes off the stack until one that has not been visited, marks it
/// visited, pushes each target of its outgoing edges that has not been visited, and
/// returns it; `None` once the stack runs out. The order in which the targets are
/// pushed is not stated.
#[verifier::external_body]
fn region_dfs_next(d: &mut Dfs<NodeIndex, FixedBitSet>, g: &Graph<u64, ()>) -> (r: Option<usize>)
    requires
        dfs_capacity(*old(d)) == graph_nodes(*g).len(),
        forall|i: int| 0 <= i < dfs_stack(*old(d)).len() ==> #[trigger] dfs_stack(*old(d))[i] < graph_nodes(*g).len(),
        forall|i: int| 0 <= i < graph_edges(*g).len() ==> #[trigger] graph_edges(*g)[i].0 < graph_nodes(*g).len()
            && graph_edges(*g)[i].1 < graph_nodes(*g).len(),
    ensures
        dfs_capacity(*final(d)) == dfs_capacity(*old(d)),
        r is None ==> {
            &&& dfs_stack(*final(d)) == Seq::<usize>::empty()
            &&& dfs_discovered(*final(d)) == dfs_discovered(*old(d))
            &&& forall|i: int| 0 <= i < dfs_stack(*old(d)).len()
                ==> dfs_discovered(*old(d)).contains(#[trigger] dfs_stack(*old(d))[i])
        },
        r matches Some(v) ==> {
            &&& !dfs_discovered(*old(d)).contains(v)
            &&& dfs_discovered(*final(d)) == dfs_discovered(*old(d)).insert(v)
            &&& exists|k: int| dfs_popped_at(
                graph_edges(*g),
                dfs_discovered(*old(d)),
                dfs_stack(*old(d)),
                dfs_discovered(*final(d)),
                dfs_stack(*final(d)),
                v,
                k,
            )
        },
{
    d.next(g).map(|n| n.index())
}

/// One step of a depth-first traversal from `(disc0, s0)` to `(disc1, s1)` that visits
/// `v`: the entries above position `k`, where `v` stood, were visited already and are
/// dropped; what is pushed in their place are targets of edges out of `v` that are
/// not visited, every such target at least once.
pub open spec fn dfs_popped_at(
    edges: Seq<(usize, usize)>,
    disc0: Set<usize>,
    s0: Seq<usize>,
    disc1: Set<usize>,
    s1: Seq<usize>,
    v: usize,
    k: int,
) -> bool {
    &&& 0 <= k < s0.len()
    &&& s0[k] == v
    &&& forall|j: int| k < j < s0.len() ==> disc0.contains(#[trigger] s0[j])
    &&& k <= s1.len()
    &&& forall|j: int| 0 <= j < k ==> #[trigger] s1[j] == s0[j]
    &&& forall|j: int| k <= j < s1.len() ==> edges.contains((v, #[trigger] s1[j])) && !disc1.contains(s1[j])
    &&& forall|w: usize| #[trigger] edges.contains((v, w)) && !disc1.contains(w)
        ==> exists|j: int| k <= j < s1.len() && s1[j] == w
}

/// `p` follows edges from its first node to its last.
pub open spec fn is_path(edges: Seq<(usize, usize)>, p: Seq<usize>) -> bool {
    &&& p.len() >= 1
    &&& forall|i: int| 0 <= i < p.len() - 1 ==> edges.contains((#[trigger] p[i], p[i + 1]))
}

/// Node `b` can be reached from node `a` along `edges`.
pub open spec fn reaches(edges: Seq<(usize, usize)>, a: usize, b: usize) -> bool {
    exists|p: Seq<usize>| #[trigger] is_path(edges, p) && p[0] == a && p.last() == b
}

pub proof fn lemma_reaches_refl(edges: Seq<(usize, usize)>, a: usize)
    ensures
        reaches(edges, a, a),
{
    let p = seq![a];
    assert(p[0] == a && p.last() == a);
    assert(is_path(edges, p));
}

pub proof fn lemma_reaches_step(edges: Seq<(usize, usize)>, a: usize, b: usize, c: usize)
    requires
        reaches(edges, a, b),
        edges.contains((b, c)),
    ensures
        reaches(edges, a, c),
{
    let p = choose|p: Seq<usize>| is_path(edges, p) && p[0] == a && p.last() == b;
    let q = p.push(c);
    assert forall|i: int| 0 <= i < q.len() - 1 implies edges.contains((#[trigger] q[i], q[i + 1])) by {
        if i < p.len() - 1 {
            assert(q[i] == p[i] && q[i + 1] == p[i + 1]);
        }
    }
    assert(is_path(edges, q));
    assert(q[0] == a && q.last() == c);
}

/// A set that holds `a` and every target of an edge leaving it holds everything
/// reachable from `a`.
pub proof fn lemma_closed_holds_reachable(edges: Seq<(usize, usize)>, s: Set<usize>, a: usize, b: usize)
    requires
        s.contains(a),
        forall|x: usize, y: usize| s.contains(x) && #[trigger] edges.contains((x, y)) ==> s.contains(y),
        reaches(edges, a, b),
    ensures
        s.contains(b),
{
    let p = choose|p: Seq<usize>| is_path(edges, p) && p[0] == a && p.last() == b;
    lemma_path_prefix_held(edges, s, p, p.len() - 1);
}

proof fn lemma_path_prefix_held(edges: Seq<(usize, usize)>, s: Set<usize>, p: Seq<usize>, i: int)
    requires
        is_path(edges, p),
        0 <= i < p.len(),
        s.contains(p[0]),
        forall|x: usize, y: usize| s.contains(x) && #[trigger] edges.contains((x, y)) ==> s.contains(y),
    ensures
        s.contains(p[i]),
    decreases i,
{
    if i > 0 {
        lemma_path_prefix_held(edges, s, p, i - 1);
        assert(edges.contains((p[i - 1], p[i])));
    }
}

/// What a depth-first traversal from `start` keeps true: everything visited or still
/// to look at is reachable, and every edge out of a visited node leads to a node that
/// is visited or still to look at.
pub open spec fn dfs_inv(edges: Seq<(usize, usize)>, n: nat, start: usize, disc: Set<usize>, stack: Seq<usize>) -> bool {
    &&& forall|x: usize| #[trigger] disc.contains(x) ==> x < n && reaches(edges, start, x)
    &&& forall|i: int| 0 <= i < stack.len() ==> #[trigger] stack[i] < n && reaches(edges, start, stack[i])
    &&& forall|x: usize, y: usize| disc.contains(x) && #[trigger] edges.contains((x, y))
        ==> disc.contains(y) || stack.contains(y)
    &&& disc.contains(start) || stack.contains(start)
}

proof fn lemma_dfs_step(
    edges: Seq<(usize, usize)>,
    n: nat,
    start: usize,
    disc0: Set<usize>,
    s0: Seq<usize>,
    disc1: Set<usize>,
    s1: Seq<usize>,
    v: usize,
    k: int,
)
    requires
        forall|i: int| 0 <= i < edges.len() ==> (#[trigger] edges[i]).0 < n && edges[i].1 < n,
        dfs_inv(edges, n, start, disc0, s0),
        !disc0.contains(v),
        disc1 == disc0.insert(v),
        dfs_popped_at(edges, disc0, s0, disc1, s1, v, k),
    ensures
        dfs_inv(edges, n, start, disc1, s1),
        v < n,
{
    assert(s0[k] < n && reaches(edges, start, s0[k]));
    lemma_dfs_step_reach(edges, n, start, disc0, s0, disc1, s1, v, k);
    lemma_dfs_step_closed(edges, n, start, disc0, s0, disc1, s1, v, k);
}

proof fn lemma_dfs_step_reach(
    edges: Seq<(usize, usize)>,
    n: nat,
    start: usize,
    disc0: Set<usize>,
    s0: Seq<usize>,
    disc1: Set<usize>,
    s1: Seq<usize>,
    v: usize,
    k: int,
)
    requires
        forall|i: int| 0 <= i < edges.len() ==> (#[trigger] edges[i]).0 < n && edges[i].1 < n,
        dfs_inv(edges, n, start, disc0, s0),
        disc1 == disc0.insert(v),
        dfs_popped_at(edges, disc0, s0, disc1, s1, v, k),
    ensures
        forall|x: usize| #[trigger] disc1.contains(x) ==> x < n && reaches(edges, start, x),
        forall|i: int| 0 <= i < s1.len() ==> #[trigger] s1[i] < n && reaches(edges, start, s1[i]),
{
    assert(s0[k] < n && reaches(edges, start, s0[k]));
    assert forall|x: usize| #[trigger] disc1.contains(x) implies x < n && reaches(edges, start, x) by {
        if x != v {
            assert(disc0.contains(x));
        }
    }
    assert forall|i: int| 0 <= i < s1.len() implies #[trigger] s1[i] < n && reaches(edges, start, s1[i]) by {
        if i < k {
            assert(s1[i] == s0[i]);
        } else {
            assert(edges.contains((v, s1[i])));
            let e = choose|e: int| 0 <= e < edges.len() && edges[e] == (v, s1[i]);
            assert(edges[e].1 < n);
            lemma_reaches_step(edges, start, v, s1[i]);
        }
    }
}

proof fn lemma_dfs_step_closed(
    edges: Seq<(usize, usize)>,
    n: nat,
    start: usize,
    disc0: Set<usize>,
    s0: Seq<usize>,
    disc1: Set<usize>,
    s1: Seq<usize>,
    v: usize,
    k: int,
)
    requires
        dfs_inv(edges, n, start, disc0, s0),
        disc1 == disc0.insert(v),
        dfs_popped_at(edges, disc0, s0, disc1, s1, v, k),
    ensures
        forall|x: usize, y: usize| disc1.contains(x) && #[trigger] edges.contains((x, y))
            ==> disc1.contains(y) || s1.contains(y),
        disc1.contains(start) || s1.contains(start),
{
    assert forall|x: usize, y: usize| disc1.contains(x) && #[trigger] edges.contains((x, y))
        implies disc1.contains(y) || s1.contains(y) by {
        if x == v {
            if !disc1.contains(y) {
                let j = choose|j: int| k <= j < s1.len() && s1[j] == y;
                assert(s1[j] == y);
            }
        } else {
            assert(disc0.contains(x));
            if !disc0.contains(y) {
                assert(s0.contains(y));
                let j = choose|j: int| 0 <= j < s0.len() && s0[j] == y;
                if j < k {
                    assert(s1[j] == s0[j]);
                } else if j > k {
                    assert(disc0.contains(s0[j]));
                }
            }
        }
    }
    assert(disc1.contains(start) || s1.contains(start)) by {
        if !disc0.contains(start) {
            let j = choose|j: int| 0 <= j < s0.len() && s0[j] == start;
            if j < k {
                assert(s1[j] == s0[j]);
            } else if j > k {
                assert(disc0.contains(s0[j]));
            }
        }
    }
}

proof fn lemma_dfs_done(edges: Seq<(usize, usize)>, n: nat, start: usize, disc: Set<usize>, stack: Seq<usize>)
    requires
        dfs_inv(edges, n, start, disc, stack),
        forall|i: int| 0 <= i < stack.len() ==> disc.contains(#[trigger] stack[i]),
    ensures
        forall|x: usize| 0 <= x < n ==> (#[trigger] disc.contains(x) <==> reaches(edges, start, x)),
{
    assert forall|x: usize, y: usize| disc.contains(x) && #[trigger] edges.contains((x, y)) implies disc.contains(y) by {
        if !disc.contains(y) {
            let j = choose|j: int| 0 <= j < stack.len() && stack[j] == y;
            assert(disc.contains(stack[j]));
        }
    }
    if !disc.contains(start) {
        let j = choose|j: int| 0 <= j < stack.len() && stack[j] == start;
        assert(disc.contains(stack[j]));
    }
    assert forall|x: usize| 0 <= x < n implies (#[trigger] disc.contains(x) <==> reaches(edges, start, x)) by {
        if reaches(edges, start, x) {
            lemma_closed_holds_reachable(edges, disc, start, x);
        }
    }
}

/// The nodes of `g` reachable from `start`, as a bitmap over node indices.
pub fn reachable_nodes(g: &Graph<u64, ()>, start: usize) -> (r: Vec<bool>)
    requires
        start < graph_nodes(*g).len(),
        forall|i: int| 0 <= i < graph_edges(*g).len() ==> (#[trigger] graph_edges(*g)[i]).0 < graph_nodes(*g).len()
            && graph_edges(*g)[i].1 < graph_nodes(*g).len(),
    ensures
        r@.len() == graph_nodes(*g).len(),
        forall|x: int| 0 <= x < r@.len() ==> #[trigger] r@[x] == reaches(graph_edges(*g), start, x as usize),
{
    let ghost edges = graph_edges(*g);
    let n = region_graph_node_count(g);
    let mut seen: Vec<bool> = Vec::new();
    for i in 0..n
        invariant
            seen@.len() == i,
            forall|x: int| 0 <= x < i ==> !#[trigger] seen@[x],
    {
        seen.push(false);
    }
    let mut dfs = region_dfs_new(g, start);
    proof {
        lemma_reaches_refl(edges, start);
        assert(dfs_stack(dfs)[0] == start);
        assert(dfs_stack(dfs).contains(start));
    }
    loop
        invariant
            n == graph_nodes(*g).len(),
            edges == graph_edges(*g),
            start < n,
            forall|i: int| 0 <= i < edges.len() ==> (#[trigger] edges[i]).0 < n && edges[i].1 < n,
            seen@.len() == n,
            dfs_capacity(dfs) == n,
            forall|x: int| 0 <= x < n ==> #[trigger] seen@[x] == dfs_discovered(dfs).contains(x as usize),
            dfs_inv(edges, n as nat, start, dfs_discovered(dfs), dfs_stack(dfs)),
        ensures
            forall|x: int| 0 <= x < n ==> #[trigger] seen@[x] == reaches(edges, start, x as usize),
        decreases n - count_seen(seen@),
    {
        let ghost d0 = dfs;
        let ghost seen0 = seen@;
        proof {
            lemma_count_seen_bound(seen@);
        }
        match region_dfs_next(&mut dfs, g) {
            Some(v) => {
                let ghost s0 = dfs_stack(d0);
                let ghost s1 = dfs_stack(dfs);
                let ghost k = choose|k: int| dfs_popped_at(edges, dfs_discovered(d0), s0, dfs_discovered(dfs), s1, v, k);
                proof {
                    lemma_dfs_step(edges, n as nat, start, dfs_discovered(d0), s0, dfs_discovered(dfs), s1, v, k);
                }
                seen.set(v, true);
                proof {
                    assert(!seen0[v as int]);
                    assert(seen@[v as int]);
                    assert forall|i: int| 0 <= i < seen0.len() && #[trigger] seen0[i] implies seen@[i] by {
                        if i != v as int {
                            assert(seen@[i] == seen0[i]);
                        }
                    }
                    lemma_count_seen_mono(seen0, seen@);
                    lemma_count_seen_bound(seen@);
                }
            },
            None => {
                proof {
                    lemma_dfs_done(edges, n as nat, start, dfs_discovered(d0), dfs_stack(d0));
                }
                break;
            },
        }
    }
    seen
}

/// `Graph::node_count`: the number of nodes.
#[verifier::external_body]
fn region_graph_node_count(g: &Graph<u64, ()>) -> (r: usize)
    ensures
        r == graph_nodes(*g).len(),
{
    g.node_count()
}


/// `p` is a chain of regions, each outlived by the next: for every step there is a
/// constraint `(sup, sub)` with `sub` the step's start and `sup` its end.
pub open spec fn is_outlives_chain(csts: Seq<(u64, u64)>, p: Seq<u64>) -> bool {
    &&& p.len() >= 1
    &&& forall|i: int| 0 <= i < p.len() - 1 ==> csts.contains((p[i + 1], #[trigger] p[i]))
}

/// Region `b` is reached from region `a` through the outlives constraints.
pub open spec fn region_reaches(csts: Seq<(u64, u64)>, a: u64, b: u64) -> bool {
    exists|p: Seq<u64>| #[trigger] is_outlives_chain(csts, p) && p[0] == a && p.last() == b
}

/// Region `r` occurs in some constraint.
pub open spec fn in_constraints(csts: Seq<(u64, u64)>, r: u64) -> bool {
    exists|i: int| 0 <= i < csts.len() && ((#[trigger] csts[i]).0 == r || csts[i].1 == r)
}

/// The regions that occur in the constraints `csts`.
pub open spec fn constraint_regions(csts: Seq<(u64, u64)>) -> Set<u64> {
    Set::new(|r: u64| in_constraints(csts, r))
}

/// The constraint graph of `csts` fits the graph's `u32` indices: fewer constraints
/// (its edges) and fewer regions (its nodes) than `u32::MAX`.
pub open spec fn graph_fits(csts: Seq<(u64, u64)>) -> bool {
    &&& csts.len() < u32::MAX
    &&& constraint_regions(csts).len() < u32::MAX
}

/// The regions of a constraint list are finitely many.
pub proof fn lemma_constraint_regions_finite(csts: Seq<(u64, u64)>)
    ensures
        constraint_regions(csts).finite(),
{
    let a = csts.map_values(|c: (u64, u64)| c.0).to_set();
    let b = csts.map_values(|c: (u64, u64)| c.1).to_set();
    vstd::seq_lib::seq_to_set_is_finite(csts.map_values(|c: (u64, u64)| c.0));
    vstd::seq_lib::seq_to_set_is_finite(csts.map_values(|c: (u64, u64)| c.1));
    assert forall|r: u64| constraint_regions(csts).contains(r) implies a.union(b).contains(r) by {
        let i = choose|i: int| 0 <= i < csts.len() && ((#[trigger] csts[i]).0 == r || csts[i].1 == r);
        if csts[i].0 == r {
            assert(csts.map_values(|c: (u64, u64)| c.0)[i] == r);
            assert(csts.map_values(|c: (u64, u64)| c.0).contains(r));
        } else {
            assert(csts.map_values(|c: (u64, u64)| c.1)[i] == r);
            assert(csts.map_values(|c: (u64, u64)| c.1).contains(r));
        }
    }
    vstd::set_lib::lemma_len_subset(constraint_regions(csts), a.union(b));
}

/// Distinct regions of the constraints are at most as many as all of them.
proof fn lemma_distinct_regions_bound(csts: Seq<(u64, u64)>, nodes: Seq<u64>)
    requires
        nodes.no_duplicates(),
        forall|j: int| 0 <= j < nodes.len() ==> in_constraints(csts, #[trigger] nodes[j]),
    ensures
        nodes.len() <= constraint_regions(csts).len(),
{
    lemma_constraint_regions_finite(csts);
    nodes.unique_seq_to_set();
    assert forall|r: u64| nodes.to_set().contains(r) implies constraint_regions(csts).contains(r) by {
        let j = choose|j: int| 0 <= j < nodes.len() && nodes[j] == r;
        assert(in_constraints(csts, nodes[j]));
    }
    vstd::set_lib::lemma_len_subset(nodes.to_set(), constraint_regions(csts));
}

/// The constraint graph of `csts`: one node per region that occurs in a constraint,
/// found through `m`, and for each constraint `(sup, sub)` an edge from `sub` to `sup`.
pub open spec fn is_constraint_graph(
    csts: Seq<(u64, u64)>,
    nodes: Seq<u64>,
    edges: Seq<(usize, usize)>,
    m: Map<u64, usize>,
) -> bool {
    &&& forall|r: u64| #[trigger] m.contains_key(r) <==> in_constraints(csts, r)
    &&& forall|r: u64| #[trigger] m.contains_key(r) ==> m[r] < nodes.len() && nodes[m[r] as int] == r
    &&& forall|i: int| 0 <= i < nodes.len() ==> m.contains_key(#[trigger] nodes[i]) && m[nodes[i]] == i
    &&& edges.len() == csts.len()
    &&& forall|i: int| 0 <= i < csts.len() ==> #[trigger] edges[i] == (m[csts[i].1], m[csts[i].0])
}

proof fn lemma_in_constraints_take(csts: Seq<(u64, u64)>, i: int)
    requires
        0 <= i < csts.len(),
    ensures
        forall|x: u64| #[trigger] in_constraints(csts.take(i + 1), x)
            <==> in_constraints(csts.take(i), x) || x == csts[i].0 || x == csts[i].1,
{
    let t = csts.take(i);
    let t1 = csts.take(i + 1);
    assert forall|x: u64| #[trigger] in_constraints(t1, x) <==> in_constraints(t, x) || x == csts[i].0 || x == csts[i].1 by {
        if in_constraints(t1, x) {
            let q = choose|q: int| 0 <= q < t1.len() && ((#[trigger] t1[q]).0 == x || t1[q].1 == x);
            if q < i {
                assert(t[q] == t1[q]);
            }
        }
        if in_constraints(t, x) {
            let q = choose|q: int| 0 <= q < t.len() && ((#[trigger] t[q]).0 == x || t[q].1 == x);
            assert(t1[q] == t[q]);
        }
        if x == csts[i].0 || x == csts[i].1 {
            assert(t1[i] == csts[i]);
        }
    }
}

proof fn lemma_in_constraints_at(csts: Seq<(u64, u64)>, j: int)
    requires
        0 <= j < csts.len(),
    ensures
        in_constraints(csts, csts[j].0),
        in_constraints(csts, csts[j].1),
{
    assert(csts[j] == csts[j]);
}

/// The node of region `r`, adding one if `r` has none yet.
fn node_of(g: &mut Graph<u64, ()>, m: &mut VecMap<usize>, r: u64) -> (idx: usize)
    requires
        old(m).wf(),
        graph_nodes(*old(g)).len() < u32::MAX,
        forall|x: u64| #[trigger] old(m)@.contains_key(x) ==> old(m)@[x] < graph_nodes(*old(g)).len()
            && graph_nodes(*old(g))[old(m)@[x] as int] == x,
        forall|i: int| 0 <= i < graph_nodes(*old(g)).len() ==> old(m)@.contains_key(#[trigger] graph_nodes(*old(g))[i])
            && old(m)@[graph_nodes(*old(g))[i]] == i,
    ensures
        final(m).wf(),
        final(m)@ == old(m)@.insert(r, idx),
        old(m)@.contains_key(r) ==> idx == old(m)@[r] && graph_nodes(*final(g)) == graph_nodes(*old(g)),
        !old(m)@.contains_key(r) ==> graph_nodes(*final(g)) == graph_nodes(*old(g)).push(r),
        graph_edges(*final(g)) == graph_edges(*old(g)),
        idx < graph_nodes(*final(g)).len(),
        forall|x: u64| #[trigger] final(m)@.contains_key(x) ==> final(m)@[x] < graph_nodes(*final(g)).len()
            && graph_nodes(*final(g))[final(m)@[x] as int] == x,
        forall|i: int| 0 <= i < graph_nodes(*final(g)).len() ==> final(m)@.contains_key(#[trigger] graph_nodes(*final(g))[i])
            && final(m)@[graph_nodes(*final(g))[i]] == i,
{
    match m.get(r) {
        Some(i) => {
            proof {
                assert(m@.insert(r, i) =~= m@);
            }
            i
        },
        None => {
            let ghost n0 = graph_nodes(*g);
            let i = region_graph_add_node(g, r);
            m.insert(r, i);
            proof {
                assert forall|j: int| 0 <= j < graph_nodes(*g).len() implies m@.contains_key(#[trigger] graph_nodes(*g)[j])
                    && m@[graph_nodes(*g)[j]] == j by {
                    if j < n0.len() {
                        assert(graph_nodes(*g)[j] == n0[j]);
                        assert(old(m)@.contains_key(n0[j]));
                        assert(n0[j] != r);
                    }
                }
            }
            i
        },
    }
}

/// Builds the constraint graph of `csts`: a node per region, an edge from `sub` to
/// `sup` for every constraint `(sup, sub)`.
#[verifier::spinoff_prover]
pub fn build_region_graph(csts: &Vec<(u64, u64)>) -> (r: (Graph<u64, ()>, VecMap<usize>))
    requires
        graph_fits(csts@),
    ensures
        r.1.wf(),
        is_constraint_graph(csts@, graph_nodes(r.0), graph_edges(r.0), r.1@),
        graph_nodes(r.0).len() <= 2 * csts@.len(),
        graph_nodes(r.0).len() <= constraint_regions(csts@).len(),
{
    let mut g = region_graph_new();
    let mut m: VecMap<usize> = VecMap::new();
    for i in 0..csts.len()
        invariant
            m.wf(),
            graph_nodes(g).len() <= 2 * i,
            graph_edges(g).len() == i,
            graph_fits(csts@),
            graph_nodes(g).len() <= constraint_regions(csts@).len(),
            forall|x: u64| #[trigger] m@.contains_key(x) <==> in_constraints(csts@.take(i as int), x),
            forall|x: u64| #[trigger] m@.contains_key(x) ==> m@[x] < graph_nodes(g).len()
                && graph_nodes(g)[m@[x] as int] == x,
            forall|j: int| 0 <= j < graph_nodes(g).len() ==> m@.contains_key(#[trigger] graph_nodes(g)[j])
                && m@[graph_nodes(g)[j]] == j,
            forall|j: int| 0 <= j < i ==> #[trigger] graph_edges(g)[j] == (m@[csts@[j].1], m@[csts@[j].0]),
    {
        let (sup, sub) = csts[i];
        let ghost m0 = m@;
        let ghost e0 = graph_edges(g);
        proof {
            lemma_in_constraints_at(csts@, i as int);
        }
        let left = node_of(&mut g, &mut m, sup);
        proof {
            let ns = graph_nodes(g);
            assert forall|j: int, k: int| 0 <= j < ns.len() && 0 <= k < ns.len() && j != k implies ns[j] != ns[k] by {
                assert(m@[ns[j]] == j && m@[ns[k]] == k);
            }
            assert forall|j: int| 0 <= j < ns.len() implies in_constraints(csts@, #[trigger] ns[j]) by {
                assert(m@.contains_key(ns[j]));
                if ns[j] != sup {
                    assert(m0.contains_key(ns[j]));
                    let t = csts@.take(i as int);
                    let w = choose|w: int| 0 <= w < t.len() && ((#[trigger] t[w]).0 == ns[j] || t[w].1 == ns[j]);
                    assert(csts@[w] == t[w]);
                }
            }
            lemma_distinct_regions_bound(csts@, ns);
        }
        let right = node_of(&mut g, &mut m, sub);
        proof {
            let ns = graph_nodes(g);
            assert forall|j: int, k: int| 0 <= j < ns.len() && 0 <= k < ns.len() && j != k implies ns[j] != ns[k] by {
                assert(m@[ns[j]] == j && m@[ns[k]] == k);
            }
            assert forall|j: int| 0 <= j < ns.len() implies in_constraints(csts@, #[trigger] ns[j]) by {
                assert(m@.contains_key(ns[j]));
                if ns[j] != sup && ns[j] != sub {
                    assert(m0.contains_key(ns[j]));
                    let t = csts@.take(i as int);
                    let w = choose|w: int| 0 <= w < t.len() && ((#[trigger] t[w]).0 == ns[j] || t[w].1 == ns[j]);
                    assert(csts@[w] == t[w]);
                }
            }
            lemma_distinct_regions_bound(csts@, ns);
        }
        region_graph_add_edge(&mut g, right, left);
        proof {
            let t = csts@.take(i as int);
            let t1 = csts@.take(i + 1);
            lemma_in_constraints_take(csts@, i as int);
            assert forall|x: u64| #[trigger] m@.contains_key(x) <==> in_constraints(t1, x) by {
                assert(in_constraints(t1, x) <==> in_constraints(t, x) || x == sup || x == sub);
            }
            assert forall|j: int| 0 <= j < i + 1 implies #[trigger] graph_edges(g)[j] == (m@[csts@[j].1], m@[csts@[j].0]) by {
                if j < i {
                    assert(graph_edges(g)[j] == e0[j]);
                    assert(m0.contains_key(csts@[j].1) && m0.contains_key(csts@[j].0)) by {
                        lemma_in_constraints_at(t, j);
                        assert(t[j] == csts@[j]);
                    }
                }
            }
        }
    }
    proof {
        assert(csts@.take(csts@.len() as int) =~= csts@);
    }
    (g, m)
}


/// In a constraint graph, one region's node reaches another's exactly when the first
/// region reaches the second through the constraints.
pub proof fn lemma_graph_reach_iff(
    csts: Seq<(u64, u64)>,
    nodes: Seq<u64>,
    edges: Seq<(usize, usize)>,
    m: Map<u64, usize>,
    a: u64,
    b: u64,
)
    requires
        is_constraint_graph(csts, nodes, edges, m),
        m.contains_key(a),
        m.contains_key(b),
    ensures
        reaches(edges, m[a], m[b]) <==> region_reaches(csts, a, b),
{
    if reaches(edges, m[a], m[b]) {
        lemma_graph_path_to_chain(csts, nodes, edges, m, a, b);
    }
    if region_reaches(csts, a, b) {
        lemma_chain_to_graph_path(csts, nodes, edges, m, a, b);
    }
}

#[verifier::spinoff_prover]
#[verifier::rlimit(40)]
proof fn lemma_graph_path_to_chain(
    csts: Seq<(u64, u64)>,
    nodes: Seq<u64>,
    edges: Seq<(usize, usize)>,
    m: Map<u64, usize>,
    a: u64,
    b: u64,
)
    requires
        is_constraint_graph(csts, nodes, edges, m),
        m.contains_key(a),
        m.contains_key(b),
        reaches(edges, m[a], m[b]),
    ensures
        region_reaches(csts, a, b),
{
    let q = choose|q: Seq<usize>| #[trigger] is_path(edges, q) && q[0] == m[a] && q.last() == m[b];
    let p = Seq::new(q.len(), |i: int| nodes[q[i] as int]);
    assert forall|i: int| 0 <= i < p.len() - 1 implies csts.contains((p[i + 1], #[trigger] p[i])) by {
        assert(edges.contains((q[i], q[i + 1])));
        let e = choose|e: int| 0 <= e < edges.len() && edges[e] == (q[i], q[i + 1]);
        assert(edges[e] == (m[csts[e].1], m[csts[e].0]));
        assert(in_constraints(csts, csts[e].1));
        assert(in_constraints(csts, csts[e].0));
        assert(m.contains_key(csts[e].1));
        assert(m.contains_key(csts[e].0));
        assert(nodes[m[csts[e].1] as int] == csts[e].1);
        assert(nodes[m[csts[e].0] as int] == csts[e].0);
        assert(csts[e] == (p[i + 1], p[i]));
    }
    assert(is_outlives_chain(csts, p));
    assert(p[0] == a && p.last() == b);
}

#[verifier::spinoff_prover]
proof fn lemma_chain_to_graph_path(
    csts: Seq<(u64, u64)>,
    nodes: Seq<u64>,
    edges: Seq<(usize, usize)>,
    m: Map<u64, usize>,
    a: u64,
    b: u64,
)
    requires
        is_constraint_graph(csts, nodes, edges, m),
        m.contains_key(a),
        m.contains_key(b),
        region_reaches(csts, a, b),
    ensures
        reaches(edges, m[a], m[b]),
{
    let p = choose|p: Seq<u64>| #[trigger] is_outlives_chain(csts, p) && p[0] == a && p.last() == b;
    assert forall|i: int| 0 <= i < p.len() implies #[trigger] m.contains_key(p[i]) by {
        if i > 0 {
            assert(csts.contains((p[i], p[i - 1])));
            let e = choose|e: int| 0 <= e < csts.len() && csts[e] == (p[i], p[i - 1]);
            assert(in_constraints(csts, p[i])) by {
                assert(csts[e].0 == p[i]);
            }
        }
    }
    let q = Seq::new(p.len(), |i: int| m[p[i]]);
    assert forall|i: int| 0 <= i < q.len() - 1 implies edges.contains((#[trigger] q[i], q[i + 1])) by {
        assert(csts.contains((p[i + 1], p[i])));
        let e = choose|e: int| 0 <= e < csts.len() && csts[e] == (p[i + 1], p[i]);
        assert(edges[e] == (m[p[i]], m[p[i + 1]]));
    }
    assert(is_path(edges, q));
    assert(q[0] == m[a] && q.last() == m[b]);
}

/// The number of regions among `regions` that occur in the constraints and are
/// reached from `origin`.
pub open spec fn hits(csts: Seq<(u64, u64)>, origin: u64, regions: Seq<u64>) -> nat
    decreases regions.len(),
{
    if regions.len() == 0 {
        0
    } else {
        hits(csts, origin, regions.drop_last()) + if in_constraints(csts, regions.last())
            && region_reaches(csts, origin, regions.last()) { 1nat } else { 0nat }
    }
}

/// A local variable: the regions its type mentions and where it is declared.
pub struct LocalDecl {
    pub regions: Vec<u64>,
    pub span: u64,
}

/// The first `n` locals that hold a region reached from `origin`, each listed once per
/// such region.
pub open spec fn leaked_upto(csts: Seq<(u64, u64)>, origin: u64, locals: Seq<LocalDecl>, n: int) -> Seq<usize>
    decreases n,
{
    if n <= 0 {
        Seq::empty()
    } else {
        leaked_upto(csts, origin, locals, n - 1)
            + Seq::new(hits(csts, origin, locals[n - 1].regions@), |j: int| (n - 1) as usize)
    }
}

/// The locals that can be leaked through each universal region `(region, vid)` whose
/// inference variable occurs in the constraints, in the order of `universals`.
pub open spec fn leaked_entries(
    csts: Seq<(u64, u64)>,
    universals: Seq<(u64, u64)>,
    locals: Seq<LocalDecl>,
) -> Seq<(u64, Seq<usize>)>
    decreases universals.len(),
{
    if universals.len() == 0 {
        Seq::empty()
    } else {
        let (region, vid) = universals.last();
        leaked_entries(csts, universals.drop_last(), locals) + if in_constraints(csts, vid) {
            seq![(region, leaked_upto(csts, vid, locals, locals.len() as int))]
        } else {
            Seq::empty()
        }
    }
}

/// A local is leaked through one of the first `n` universal regions.
pub open spec fn leaks_somewhere(csts: Seq<(u64, u64)>, universals: Seq<(u64, u64)>, regions: Seq<u64>, n: int) -> bool {
    exists|u: int| 0 <= u < n && in_constraints(csts, #[trigger] universals[u].1) && hits(csts, universals[u].1, regions) > 0
}

/// The leaked locals of a body and where each is declared.
pub struct LeakedLocals {
    pub leaked: Vec<(u64, Vec<usize>)>,
    pub def_spans: VecMap<u64>,
}

pub open spec fn leaked_view(v: Seq<(u64, Vec<usize>)>) -> Seq<(u64, Seq<usize>)> {
    Seq::new(v.len(), |i: int| (v[i].0, v[i].1@))
}


/// Finds the locals of a body that can be leaked through its universal regions: the
/// regions reachable from a universal region through the outlives constraints are
/// collected with a depth-first traversal of the constraint graph, and every local
/// whose type mentions such a region is listed for that universal region, once per
/// such region. The declaration span of each listed local is recorded.
#[verifier::spinoff_prover]
#[verifier::rlimit(40)]
pub fn leaked_locals_of(
    csts: &Vec<(u64, u64)>,
    universals: &Vec<(u64, u64)>,
    locals: &Vec<LocalDecl>,
) -> (r: LeakedLocals)
    requires
        graph_fits(csts@),
    ensures
        leaked_view(r.leaked@) == leaked_entries(csts@, universals@, locals@),
        r.def_spans.wf(),
        forall|k: u64| #[trigger] r.def_spans@.contains_key(k) <==> k < locals@.len()
            && leaks_somewhere(csts@, universals@, locals@[k as int].regions@, universals@.len() as int),
        forall|k: u64| #[trigger] r.def_spans@.contains_key(k) ==> r.def_spans@[k] == locals@[k as int].span,
{
    let (g, nodes) = build_region_graph(csts);
    let ghost gn = graph_nodes(g);
    let ghost ge = graph_edges(g);
    let mut leaked: Vec<(u64, Vec<usize>)> = Vec::new();
    let mut spans: VecMap<u64> = VecMap::new();
    let nu = universals.len();
    let nl = locals.len();
    proof {
        assert(leaked_entries(csts@, universals@.take(0), locals@) =~= Seq::<(u64, Seq<usize>)>::empty());
        assert(leaked_view(leaked@) =~= Seq::<(u64, Seq<usize>)>::empty());
    }
    for u in 0..nu
        invariant
            nu == universals@.len(),
            nl == locals@.len(),
            nodes.wf(),
            gn == graph_nodes(g),
            ge == graph_edges(g),
            is_constraint_graph(csts@, gn, ge, nodes@),
            leaked_view(leaked@) == leaked_entries(csts@, universals@.take(u as int), locals@),
            spans.wf(),
            forall|k: u64| #[trigger] spans@.contains_key(k) <==> k < nl
                && leaks_somewhere(csts@, universals@, locals@[k as int].regions@, u as int),
            forall|k: u64| #[trigger] spans@.contains_key(k) ==> spans@[k] == locals@[k as int].span,
    {
        let (re, vid) = universals[u];
        let ghost tu = universals@.take(u as int);
        let ghost tu1 = universals@.take(u + 1);
        proof {
            assert(tu1.drop_last() =~= tu);
            assert(tu1.last() == (re, vid));
        }
        match nodes.get(vid) {
            None => {
                proof {
                    assert(!in_constraints(csts@, vid));
                    assert(leaked_entries(csts@, tu1, locals@) =~= leaked_entries(csts@, tu, locals@));
                    assert forall|k: u64| #[trigger] spans@.contains_key(k) <==> k < nl
                        && leaks_somewhere(csts@, universals@, locals@[k as int].regions@, u + 1) by {
                        if k < nl && leaks_somewhere(csts@, universals@, locals@[k as int].regions@, u + 1) {
                            let w = choose|w: int| 0 <= w < u + 1 && in_constraints(csts@, #[trigger] universals@[w].1)
                                && hits(csts@, universals@[w].1, locals@[k as int].regions@) > 0;
                            if w == u {
                                assert(universals@[w].1 == vid);
                            }
                        }
                    }
                }
            },
            Some(origin) => {
                proof {
                    assert(in_constraints(csts@, vid));
                    assert forall|i: int| 0 <= i < ge.len() implies (#[trigger] ge[i]).0 < gn.len() && ge[i].1 < gn.len() by {
                        lemma_in_constraints_at(csts@, i);
                    }
                }
                let reach = reachable_nodes(&g, origin);
                let mut list: Vec<usize> = Vec::new();
                for l in 0..nl
                    invariant
                        nl == locals@.len(),
                        nodes.wf(),
                        is_constraint_graph(csts@, gn, ge, nodes@),
                        nodes@.contains_key(vid),
                        origin == nodes@[vid],
                        reach@.len() == gn.len(),
                        forall|x: int| 0 <= x < reach@.len() ==> #[trigger] reach@[x] == reaches(ge, origin, x as usize),
                        list@ == leaked_upto(csts@, vid, locals@, l as int),
                        spans.wf(),
                        u < universals@.len(),
                        universals@[u as int] == (re, vid),
                        forall|k: u64| #[trigger] spans@.contains_key(k) <==> k < nl
                            && (leaks_somewhere(csts@, universals@, locals@[k as int].regions@, u as int)
                                || (k < l && hits(csts@, vid, locals@[k as int].regions@) > 0)),
                        forall|k: u64| #[trigger] spans@.contains_key(k) ==> spans@[k] == locals@[k as int].span,
                {
                    let mut was_used = false;
                    let nr = locals[l].regions.len();
                    let ghost regions = locals@[l as int].regions@;
                    let ghost base = list@;
                    proof {
                        assert(regions.take(0) =~= Seq::<u64>::empty());
                        assert(base + Seq::new(hits(csts@, vid, regions.take(0)), |j: int| l) =~= base);
                    }
                    for q in 0..nr
                        invariant
                            nr == regions.len(),
                            regions == locals@[l as int].regions@,
                            l < nl,
                            nl == locals@.len(),
                            nodes.wf(),
                            is_constraint_graph(csts@, gn, ge, nodes@),
                            nodes@.contains_key(vid),
                            origin == nodes@[vid],
                            reach@.len() == gn.len(),
                            forall|x: int| 0 <= x < reach@.len() ==> #[trigger] reach@[x] == reaches(ge, origin, x as usize),
                            list@ == base + Seq::new(hits(csts@, vid, regions.take(q as int)), |j: int| l),
                            was_used == (hits(csts@, vid, regions.take(q as int)) > 0),
                    {
                        let used = locals[l].regions[q];
                        let ghost t = regions.take(q as int);
                        let ghost t1 = regions.take(q + 1);
                        proof {
                            assert(t1.drop_last() =~= t);
                            assert(t1.last() == used);
                        }
                        match nodes.get(used) {
                            None => {
                                proof {
                                    assert(!in_constraints(csts@, used));
                                }
                            },
                            Some(ui) => {
                                proof {
                                    lemma_graph_reach_iff(csts@, gn, ge, nodes@, vid, used);
                                    assert(reach@[ui as int] == region_reaches(csts@, vid, used));
                                }
                                if reach[ui] {
                                    let ghost before = list@;
                                    list.push(l);
                                    was_used = true;
                                    proof {
                                        assert(list@ =~= base + Seq::new(hits(csts@, vid, t1), |j: int| l));
                                    }
                                }
                            },
                        }
                        proof {
                            assert(list@ =~= base + Seq::new(hits(csts@, vid, t1), |j: int| l));
                        }
                    }
                    proof {
                        assert(regions.take(nr as int) =~= regions);
                    }
                    if was_used {
                        spans.insert(l as u64, locals[l].span);
                    }
                    proof {
                        assert(list@ =~= leaked_upto(csts@, vid, locals@, l + 1));
                        assert forall|k: u64| #[trigger] spans@.contains_key(k) <==> k < nl
                            && (leaks_somewhere(csts@, universals@, locals@[k as int].regions@, u as int)
                                || (k < l + 1 && hits(csts@, vid, locals@[k as int].regions@) > 0)) by {
                        }
                    }
                }
                leaked.push((re, list));
                proof {
                    assert(leaked_view(leaked@) =~= leaked_entries(csts@, tu1, locals@));
                    assert forall|k: u64| #[trigger] spans@.contains_key(k) <==> k < nl
                        && leaks_somewhere(csts@, universals@, locals@[k as int].regions@, u + 1) by {
                        if k < nl && leaks_somewhere(csts@, universals@, locals@[k as int].regions@, u + 1) {
                            let w = choose|w: int| 0 <= w < u + 1 && in_constraints(csts@, #[trigger] universals@[w].1)
                                && hits(csts@, universals@[w].1, locals@[k as int].regions@) > 0;
                            if w < u {
                                assert(leaks_somewhere(csts@, universals@, locals@[k as int].regions@, u as int));
                            }
                        }
                        if k < nl && hits(csts@, vid, locals@[k as int].regions@) > 0 {
                            assert(in_constraints(csts@, universals@[u as int].1));
                        }
                        if k < nl && leaks_somewhere(csts@, universals@, locals@[k as int].regions@, u as int) {
                            let w = choose|w: int| 0 <= w < u && in_constraints(csts@, #[trigger] universals@[w].1)
                                && hits(csts@, universals@[w].1, locals@[k as int].regions@) > 0;
                            assert(0 <= w < u + 1);
                        }
                    }
                }
            },
        }
    }
    proof {
        assert(universals@.take(nu as int) =~= universals@);
    }
    LeakedLocals { leaked, def_spans: spans }
}

} // verus!
