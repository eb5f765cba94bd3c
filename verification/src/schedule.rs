//! The scheduler: a priority-driven Kahn traversal of the dependency graph.
//!
//! A node is a *root* when every one of its dependency edges has been
//! satisfied. The scheduler keeps the current roots with a score each, pops
//! the highest-scored root, appends it to the schedule, and clears the
//! scratch flag on each edge leaving it; a destination whose last incoming
//! edge is cleared becomes a root. A node entering the root set mid-run is
//! scored by how many already-scheduled nodes it does not transitively
//! depend on, so that mutually orthogonal work interleaves. When the root
//! set drains with an edge still set, the graph is cyclic.

use vstd::prelude::*;
use vstd::seq_lib::*;
use vstd::set_lib::*;

use crate::BuildError;
use crate::graph::DepEdge;
use crate::graph::DepGraph;
use crate::graph::lemma_count_true_le;
use crate::graph::lemma_count_true_none;
use crate::graph::lemma_count_true_set;
use crate::graph::lemma_depends_refl;
use crate::graph::lemma_depends_step;
use crate::graph::spec_count_true;
use crate::graph::spec_depends;
use crate::graph::spec_depends_within;
use crate::graph::spec_has_cycle;
use crate::graph::spec_is_independent;

verus! {

/// An entry of the scheduler's root set: a currently independent node and
/// the score that ranks it.
#[derive(Clone, Copy)]
pub struct RootNode {
    pub node: usize,
    pub overlap_score: usize,
}

/// The scheduled order respects the dependency edges: every pass's
/// dependency sources appear strictly earlier than the pass itself.
pub open spec fn spec_respects_deps(edges: Seq<DepEdge>, order: Seq<usize>) -> bool {
    forall|e: int, i: int|
        0 <= e < edges.len() && 0 <= i < order.len() && (#[trigger] edges[e]).dst == (
        #[trigger] order[i]) ==> exists|j: int| 0 <= j < i && order[j] == edges[e].src
}

/// Counts, among the first `i` scheduled nodes, those on which `v` does not
/// transitively depend.
pub open spec fn spec_overlap_upto(edges: Seq<DepEdge>, order: Seq<usize>, v: int, i: int) -> nat
    decreases i,
{
    if i <= 0 {
        0
    } else {
        spec_overlap_upto(edges, order, v, i - 1) + if !spec_depends(
            edges,
            v,
            order[i - 1] as int,
        ) {
            1nat
        } else {
            0nat
        }
    }
}

/// Every entry of a boolean sequence being set makes the count its length.
proof fn lemma_count_true_all(s: Seq<bool>)
    requires
        forall|i: int| 0 <= i < s.len() ==> s[i],
    ensures
        spec_count_true(s) == s.len(),
    decreases s.len(),
{
    if s.len() > 0 {
        lemma_count_true_all(s.drop_last());
    }
}

/// A sequence of more than `n` values all drawn from `0..n` repeats one.
proof fn lemma_pigeonhole(s: Seq<int>, n: int)
    requires
        forall|i: int| 0 <= i < s.len() ==> 0 <= #[trigger] s[i] < n,
        s.len() > n,
        n >= 0,
    ensures
        exists|i: int, j: int| 0 <= i < j < s.len() && s[i] == s[j],
{
    if forall|i: int, j: int| 0 <= i < j < s.len() ==> s[i] != s[j] {
        assert(s.no_duplicates()) by {
            assert forall|i: int, j: int|
                0 <= i < s.len() && 0 <= j < s.len() && i != j implies s[i] != s[j] by {
                if i < j {
                } else {
                    assert(0 <= j < i < s.len());
                }
            }
        }
        s.unique_seq_to_set();
        assert(s.to_set().subset_of(set_int_range(0, n))) by {
            assert forall|x: int| s.to_set().contains(x) implies set_int_range(0, n).contains(
                x,
            ) by {
                let i = choose|i: int| 0 <= i < s.len() && s[i] == x;
            }
        }
        lemma_int_range(0, n);
        lemma_len_subset(s.to_set(), set_int_range(0, n));
        assert(false);
    }
}

/// Some dependency edge leads from consumer `a` back to producer `b`.
pub open spec fn spec_edge_between(edges: Seq<DepEdge>, a: int, b: int) -> bool {
    exists|e: int| 0 <= e < edges.len() && (#[trigger] edges[e]).dst == a && edges[e].src == b
}

/// Along a chain whose consecutive nodes are joined by dependency edges,
/// every node depends on every later one.
proof fn lemma_chain_depends(edges: Seq<DepEdge>, c: Seq<int>, i: int, j: int)
    requires
        0 <= i <= j < c.len(),
        forall|k: int| 0 <= k < c.len() - 1 ==> #[trigger] spec_edge_between(edges, c[k], c[k + 1]),
    ensures
        spec_depends(edges, c[i], c[j]),
    decreases j - i,
{
    if i == j {
        lemma_depends_refl(edges, c[i]);
    } else {
        lemma_chain_depends(edges, c, i + 1, j);
        assert(spec_edge_between(edges, c[i], c[i + 1]));
        let e = choose|e: int|
            0 <= e < edges.len() && (#[trigger] edges[e]).dst == c[i] && edges[e].src == c[i + 1];
        lemma_depends_step(edges, e, c[j]);
    }
}

/// In a stuck graph state, where every unscheduled node keeps an unsatisfied
/// edge from another unscheduled node, a predecessor chain of any length can
/// be followed from any unscheduled node.
proof fn build_stuck_chain(
    edges: Seq<DepEdge>,
    order: Seq<usize>,
    n: int,
    v0: int,
    len: nat,
) -> (c: Seq<int>)
    requires
        len >= 1,
        0 <= v0 < n,
        !order.contains(v0 as usize),
        forall|v: int|
            0 <= v < n && !(#[trigger] order.contains(v as usize)) ==> exists|e: int|
                0 <= e < edges.len() && (#[trigger] edges[e]).is_edge && edges[e].dst == v
                    && !order.contains(edges[e].src),
        forall|e: int|
            0 <= e < edges.len() ==> (#[trigger] edges[e]).src < n && edges[e].dst < n,
    ensures
        c.len() == len,
        c[0] == v0,
        forall|k: int| 0 <= k < c.len() ==> 0 <= #[trigger] c[k] < n && !order.contains(c[k] as usize),
        forall|k: int| 0 <= k < c.len() - 1 ==> #[trigger] spec_edge_between(edges, c[k], c[k + 1]),
    decreases len,
{
    if len == 1 {
        let c = seq![v0];
        c
    } else {
        let e = choose|e: int|
            0 <= e < edges.len() && (#[trigger] edges[e]).is_edge && edges[e].dst == v0
                && !order.contains(edges[e].src);
        let rest = build_stuck_chain(edges, order, n, edges[e].src as int, (len - 1) as nat);
        let c = seq![v0] + rest;
        assert(c[0] == v0);
        assert forall|k: int| 0 <= k < c.len() - 1 implies #[trigger] spec_edge_between(
            edges,
            c[k],
            c[k + 1],
        ) by {
            if k == 0 {
                assert(c[0] == v0 && c[1] == rest[0]);
                assert(edges[e].dst == c[0] && edges[e].src == c[1]);
            } else {
                let kk = k - 1;
                assert(0 <= kk < rest.len() - 1);
                assert(spec_edge_between(edges, rest[kk], rest[kk + 1]));
                assert(c[k] == rest[kk] && c[k + 1] == rest[kk + 1]);
            }
        }
        c
    }
}

/// A schedule that contains every node exactly once and respects the
/// dependency edges certifies that the graph has no cycle.
proof fn lemma_respects_deps_acyclic(edges: Seq<DepEdge>, order: Seq<usize>, n: int)
    requires
        spec_respects_deps(edges, order),
        forall|i: int, j: int| 0 <= i < j < order.len() ==> order[i] != order[j],
        forall|v: int| 0 <= v < n ==> #[trigger] order.contains(v as usize),
        forall|e: int|
            0 <= e < edges.len() ==> (#[trigger] edges[e]).src < n && edges[e].dst < n,
    ensures
        !spec_has_cycle(edges),
{
    if spec_has_cycle(edges) {
        let e = choose|e: int|
            0 <= e < edges.len() && spec_depends(edges, edges[e].src as int, edges[e].dst as int);
        let k = choose|k: nat|
            spec_depends_within(edges, edges[e].src as int, edges[e].dst as int, k);
        lemma_depends_pos(edges, order, n, edges[e].src as int, edges[e].dst as int, k);
        let pd = spec_pos(order, edges[e].dst as int);
        let ps = spec_pos(order, edges[e].src as int);
        assert(order.contains(edges[e].dst as usize));
        let i = choose|i: int| 0 <= i < order.len() && order[i] == edges[e].dst as usize;
        lemma_pos_unique(order, edges[e].dst as int, i);
        assert(edges[e].dst == order[pd]);
        let j = choose|j: int| 0 <= j < pd && order[j] == edges[e].src;
        lemma_pos_unique(order, edges[e].src as int, j);
        assert(ps < pd);
        assert(pd <= ps);
        assert(false);
    }
}

/// The position of a scheduled node in the order.
spec fn spec_pos(order: Seq<usize>, v: int) -> int {
    choose|j: int| 0 <= j < order.len() && order[j] == v as usize
}

/// In an order without repeats, a node's position is the only index holding
/// it.
proof fn lemma_pos_unique(order: Seq<usize>, v: int, i: int)
    requires
        forall|i1: int, j1: int| 0 <= i1 < j1 < order.len() ==> order[i1] != order[j1],
        0 <= i < order.len(),
        order[i] == v as usize,
    ensures
        spec_pos(order, v) == i,
        0 <= i < order.len(),
{
    let j = spec_pos(order, v);
    assert(0 <= j < order.len() && order[j] == v as usize);
    if i < j {
        assert(order[i] != order[j]);
    } else if j < i {
        assert(order[j] != order[i]);
    }
}

/// Along a dependency chain inside a schedule that respects the edges, the
/// depended-on node sits no later than the depending one.
proof fn lemma_depends_pos(
    edges: Seq<DepEdge>,
    order: Seq<usize>,
    n: int,
    a: int,
    b: int,
    k: nat,
)
    requires
        spec_respects_deps(edges, order),
        forall|i: int, j: int| 0 <= i < j < order.len() ==> order[i] != order[j],
        forall|v: int| 0 <= v < n ==> #[trigger] order.contains(v as usize),
        forall|e: int|
            0 <= e < edges.len() ==> (#[trigger] edges[e]).src < n && edges[e].dst < n,
        0 <= a < n,
        0 <= b < n,
        spec_depends_within(edges, a, b, k),
    ensures
        spec_pos(order, b) <= spec_pos(order, a),
    decreases k,
{
    if a == b {
    } else {
        let e = choose|e: int|
            0 <= e < edges.len() && edges[e].dst == a && spec_depends_within(
                edges,
                edges[e].src as int,
                b,
                (k - 1) as nat,
            );
        lemma_depends_pos(edges, order, n, edges[e].src as int, b, (k - 1) as nat);
        assert(order.contains(a as usize));
        let ia = choose|i: int| 0 <= i < order.len() && order[i] == a as usize;
        lemma_pos_unique(order, a, ia);
        let j = choose|j: int| 0 <= j < ia && order[j] == edges[e].src;
        lemma_pos_unique(order, edges[e].src as int, j);
    }
}

/// The index of the first entry with the highest overlap score among the
/// first `i` entries of the root set.
pub open spec fn spec_max_root(roots: Seq<RootNode>, i: int) -> int
    decreases i,
{
    if i <= 1 {
        0
    } else {
        let b = spec_max_root(roots, i - 1);
        if roots[i - 1].overlap_score > roots[b].overlap_score {
            i - 1
        } else {
            b
        }
    }
}

/// Scans the root set for the entry with the highest overlap score and
/// returns the index of its first occurrence.
fn max_root_index(roots: &Vec<RootNode>) -> (idx: usize)
    requires
        roots@.len() > 0,
    ensures
        idx == spec_max_root(roots@, roots@.len() as int),
        idx < roots@.len(),
        forall|i: int|
            0 <= i < roots@.len() ==> (#[trigger] roots@[i]).overlap_score
                <= roots@[idx as int].overlap_score,
        forall|i: int|
            0 <= i < idx ==> (#[trigger] roots@[i]).overlap_score
                < roots@[idx as int].overlap_score,
{
    let mut idx: usize = 0;
    let n = roots.len();
    for i in 1..n
        invariant
            n == roots@.len(),
            idx < i <= n,
            idx == spec_max_root(roots@, i as int),
            forall|j: int|
                0 <= j < i ==> (#[trigger] roots@[j]).overlap_score
                    <= roots@[idx as int].overlap_score,
            forall|j: int|
                0 <= j < idx ==> (#[trigger] roots@[j]).overlap_score
                    < roots@[idx as int].overlap_score,
    {
        if roots[i].overlap_score > roots[idx].overlap_score {
            idx = i;
        }
    }
    idx
}

/// The overlap score of node `v` against the scheduled prefix: the number of
/// already-scheduled nodes on which `v` does not transitively depend. The
/// more orthogonal a node is to recent work, the higher it scores.
fn overlap_score(g: &DepGraph, order: &Vec<usize>, v: usize) -> (s: usize)
    requires
        g.wf(),
        v < g.n_nodes,
        forall|i: int| 0 <= i < order@.len() ==> (#[trigger] order@[i]) < g.n_nodes,
    ensures
        s == spec_overlap_upto(g.edges@, order@, v as int, order@.len() as int),
{
    let mut s: usize = 0;
    let n = order.len();
    for i in 0..n
        invariant
            g.wf(),
            v < g.n_nodes,
            n == order@.len(),
            forall|j: int| 0 <= j < order@.len() ==> (#[trigger] order@[j]) < g.n_nodes,
            s <= i,
            s == spec_overlap_upto(g.edges@, order@, v as int, i as int),
    {
        if !g.depends_on(v, order[i]) {
            s += 1;
        }
    }
    s
}

/// The scheduler's whole state as one mathematical value: the edge table
/// with its scratch flags, the current root set, which nodes have ever
/// entered it, and the order built so far.
#[verifier::ext_equal]
pub struct SchedState {
    pub edges: Seq<DepEdge>,
    pub roots: Seq<RootNode>,
    pub enqueued: Seq<bool>,
    pub order: Seq<usize>,
}

/// The root set and enqueued marks after seeding from the first `v` nodes:
/// every node whose dependency edges are all satisfied is a root.
pub open spec fn spec_seed(edges: Seq<DepEdge>, n: int, v: int) -> (Seq<RootNode>, Seq<bool>)
    decreases v,
{
    if v <= 0 {
        (Seq::empty(), Seq::new(n as nat, |i: int| false))
    } else {
        let (roots, enqueued) = spec_seed(edges, n, v - 1);
        if spec_is_independent(edges, v - 1) {
            (
                roots.push(RootNode { node: (v - 1) as usize, overlap_score: usize::MAX }),
                enqueued.update(v - 1, true),
            )
        } else {
            (roots, enqueued)
        }
    }
}

/// The scheduler's starting state for a graph.
pub open spec fn spec_init_state(edges: Seq<DepEdge>, n: int) -> SchedState {
    let (roots, enqueued) = spec_seed(edges, n, n);
    SchedState { edges, roots, enqueued, order: Seq::empty() }
}

/// The state after satisfying, among the first `e` edges, those leaving
/// `current`: each such edge's flag is cleared, and a destination all of
/// whose edges are now satisfied joins the root set once, scored by how
/// many scheduled nodes it does not depend on.
pub open spec fn spec_clear(s: SchedState, current: int, e: int) -> SchedState
    decreases e,
{
    if e <= 0 {
        s
    } else {
        let prev = spec_clear(s, current, e - 1);
        let edge = prev.edges[e - 1];
        if edge.src == current && edge.is_edge {
            let edges2 = prev.edges.update(e - 1, DepEdge { is_edge: false, ..edge });
            if !prev.enqueued[edge.dst as int] && spec_is_independent(edges2, edge.dst as int) {
                SchedState {
                    edges: edges2,
                    roots: prev.roots.push(
                        RootNode {
                            node: edge.dst,
                            overlap_score: spec_overlap_upto(
                                edges2,
                                prev.order,
                                edge.dst as int,
                                prev.order.len() as int,
                            ) as usize,
                        },
                    ),
                    enqueued: prev.enqueued.update(edge.dst as int, true),
                    order: prev.order,
                }
            } else {
                SchedState { edges: edges2, ..prev }
            }
        } else {
            prev
        }
    }
}

/// One scheduling step: pop the best root, append it to the order, and
/// satisfy the edges leaving it.
pub open spec fn spec_sched_step(s: SchedState) -> SchedState {
    let idx = spec_max_root(s.roots, s.roots.len() as int);
    let current = s.roots[idx].node;
    let s1 = SchedState { roots: s.roots.remove(idx), order: s.order.push(current), ..s };
    spec_clear(s1, current as int, s.edges.len() as int)
}

/// The scheduling loop's termination measure: unseen nodes weigh two, roots
/// weigh one.
pub open spec fn spec_sched_measure(s: SchedState) -> int {
    2 * (s.enqueued.len() - spec_count_true(s.enqueued)) + s.roots.len()
}

/// The scheduling loop, run to a drained root set. Every reachable state
/// shrinks the measure, so the guard never stops a real run early.
pub open spec fn spec_sched_loop(s: SchedState) -> SchedState
    decreases (if spec_sched_measure(s) >= 0 {
        spec_sched_measure(s)
    } else {
        0
    }),
{
    if s.roots.len() == 0 {
        s
    } else {
        let next = spec_sched_step(s);
        if 0 <= spec_sched_measure(next) < spec_sched_measure(s) {
            spec_sched_loop(next)
        } else {
            next
        }
    }
}

/// The scheduler's final state: a function of the dependency graph alone.
pub open spec fn spec_schedule(edges: Seq<DepEdge>, n: int) -> SchedState {
    spec_sched_loop(spec_init_state(edges, n))
}

/// Produces a total order over the pass nodes that respects every dependency
/// edge, interleaving mutually independent work, or reports that the graph
/// is cyclic. On success every scratch flag has been cleared and the order
/// contains every node exactly once; the traversal fails exactly when the
/// dependency edges contain a cycle.
pub fn schedule_passes(g: &mut DepGraph) -> (r: Result<Vec<usize>, BuildError>)
    requires
        old(g).wf(),
        forall|e: int| 0 <= e < old(g).edges@.len() ==> (#[trigger] old(g).edges@[e]).is_edge,
    ensures
        final(g).n_nodes == old(g).n_nodes,
        final(g).wf(),
        crate::graph::spec_same_shape(old(g).edges@, final(g).edges@),
        final(g).edges@ == spec_schedule(old(g).edges@, old(g).n_nodes as int).edges,
        r is Ok <==> !spec_has_cycle(old(g).edges@),
        r is Err ==> r == Err::<Vec<usize>, BuildError>(BuildError::CyclicalGraph),
        match r {
            Ok(order) => {
                &&& order@.len() == old(g).n_nodes
                &&& forall|i: int|
                    0 <= i < order@.len() ==> (#[trigger] order@[i]) < old(g).n_nodes
                &&& forall|i: int, j: int| 0 <= i < j < order@.len() ==> order@[i] != order@[j]
                &&& forall|v: int|
                    0 <= v < old(g).n_nodes ==> #[trigger] order@.contains(v as usize)
                &&& spec_respects_deps(old(g).edges@, order@)
                &&& spec_respects_deps(final(g).edges@, order@)
                &&& order@ == spec_schedule(old(g).edges@, old(g).n_nodes as int).order
                &&& forall|e: int|
                    0 <= e < final(g).edges@.len() ==> !(#[trigger] final(g).edges@[e]).is_edge
            },
            Err(_) => true,
        },
{
    let n = g.n_nodes;
    let m = g.edges.len();
    let mut roots: Vec<RootNode> = Vec::new();
    let mut enqueued: Vec<bool> = vec![false; n];
    let mut order: Vec<usize> = Vec::new();
    proof {
        lemma_count_true_none(enqueued@);
        assert(enqueued@ =~= Seq::new(n as nat, |i: int| false));
        assert(roots@ =~= Seq::<RootNode>::empty());
    }

    // Seed the root set with every node that has no dependency edges at all.
    let mut v: usize = 0;
    while v < n
        invariant
            g.wf(),
            g == old(g),
            n == g.n_nodes,
            m == g.edges@.len(),
            v <= n,
            enqueued@.len() == n,
            order@.len() == 0,
            forall|u: int| 0 <= u < v ==> enqueued@[u] == spec_is_independent(g.edges@, u),
            forall|u: int| v <= u < n ==> !enqueued@[u],
            roots@ == spec_seed(g.edges@, n as int, v as int).0,
            enqueued@ == spec_seed(g.edges@, n as int, v as int).1,
            forall|i: int|
                0 <= i < roots@.len() ==> (#[trigger] roots@[i]).node < n && enqueued@[
                    roots@[i].node as int
                ] && spec_is_independent(g.edges@, roots@[i].node as int),
            forall|i: int, j: int| 0 <= i < j < roots@.len() ==> roots@[i].node != roots@[j].node,
            forall|u: int|
                0 <= u < n && #[trigger] enqueued@[u] ==> exists|i: int|
                    0 <= i < roots@.len() && (#[trigger] roots@[i]).node == u,
            roots@.len() == spec_count_true(enqueued@),
        decreases n - v,
    {
        let ghost seed_roots_prev = roots@;
        let ghost seed_enq_prev = enqueued@;
        if g.is_independent(v) {
            let ghost roots_prev = roots@;
            let ghost enq_prev = enqueued@;
            proof {
                lemma_count_true_set(enqueued@, v as int);
            }
            roots.push(RootNode { node: v, overlap_score: usize::MAX });
            enqueued[v] = true;
            proof {
                assert(roots@ == roots_prev.push(RootNode { node: v, overlap_score: usize::MAX }));
                assert(roots@[roots@.len() - 1].node == v);
                assert forall|u: int| 0 <= u < n && #[trigger] enqueued@[u] implies exists|i: int|
                    0 <= i < roots@.len() && (#[trigger] roots@[i]).node == u by {
                    if u == v as int {
                        assert(roots@[roots@.len() - 1].node == u);
                    } else {
                        assert(enq_prev[u]);
                        let i = choose|i: int|
                            0 <= i < roots_prev.len() && (#[trigger] roots_prev[i]).node == u;
                        assert(roots@[i].node == u);
                    }
                }
            }
        }
        proof {
            assert(seed_roots_prev == spec_seed(g.edges@, n as int, v as int).0);
            assert(seed_enq_prev == spec_seed(g.edges@, n as int, v as int).1);
            assert(roots@ == spec_seed(g.edges@, n as int, v as int + 1).0);
            assert(enqueued@ == spec_seed(g.edges@, n as int, v as int + 1).1);
        }
        v += 1;
    }
    proof {
        lemma_count_true_le(enqueued@);
        assert((SchedState { edges: g.edges@, roots: roots@, enqueued: enqueued@, order: order@ })
            =~= spec_init_state(old(g).edges@, n as int));
    }

    // Pop the best root, schedule it, satisfy the edges leaving it, and let
    // destinations whose last incoming edge was satisfied join the roots.
    while roots.len() > 0
        invariant
            g.wf(),
            n == g.n_nodes,
            n == old(g).n_nodes,
            m == g.edges@.len(),
            crate::graph::spec_same_shape(old(g).edges@, g.edges@),
            enqueued@.len() == n,
            forall|i: int| 0 <= i < roots@.len() ==> (#[trigger] roots@[i]).node < n,
            forall|i: int| 0 <= i < roots@.len() ==> enqueued@[(#[trigger] roots@[i]).node as int],
            forall|i: int|
                0 <= i < roots@.len() ==> !order@.contains((#[trigger] roots@[i]).node),
            forall|i: int, j: int| 0 <= i < j < roots@.len() ==> roots@[i].node != roots@[j].node,
            forall|i: int|
                0 <= i < roots@.len() ==> spec_is_independent(
                    g.edges@,
                    (#[trigger] roots@[i]).node as int,
                ),
            forall|i: int| 0 <= i < order@.len() ==> (#[trigger] order@[i]) < n,
            forall|i: int, j: int| 0 <= i < j < order@.len() ==> order@[i] != order@[j],
            forall|i: int| 0 <= i < order@.len() ==> enqueued@[(#[trigger] order@[i]) as int],
            forall|i: int|
                0 <= i < order@.len() ==> spec_is_independent(
                    g.edges@,
                    (#[trigger] order@[i]) as int,
                ),
            spec_respects_deps(g.edges@, order@),
            forall|u: int|
                0 <= u < n && #[trigger] enqueued@[u] ==> order@.contains(u as usize) || exists|
                    i: int,
                |
                    0 <= i < roots@.len() && (#[trigger] roots@[i]).node == u,
            forall|u: int|
                0 <= u < n && #[trigger] spec_is_independent(g.edges@, u) ==> enqueued@[u],
            forall|e: int|
                0 <= e < m && !(#[trigger] g.edges@[e]).is_edge ==> order@.contains(
                    g.edges@[e].src,
                ),
            forall|e: int|
                0 <= e < m && (#[trigger] g.edges@[e]).is_edge ==> !order@.contains(
                    g.edges@[e].src,
                ),
            order@.len() + roots@.len() == spec_count_true(enqueued@),
            spec_count_true(enqueued@) <= n,
            spec_sched_loop(
                SchedState { edges: g.edges@, roots: roots@, enqueued: enqueued@, order: order@ },
            ) == spec_sched_loop(spec_init_state(old(g).edges@, n as int)),
        decreases 2 * (n - spec_count_true(enqueued@)) + roots@.len(),
    {
        let ghost enq0 = enqueued@;
        let ghost roots0 = roots@;
        let ghost order0 = order@;
        let ghost s_start = SchedState {
            edges: g.edges@,
            roots: roots@,
            enqueued: enqueued@,
            order: order@,
        };
        let idx = max_root_index(&roots);
        let current = roots.remove(idx).node;
        proof {
            assert forall|i: int| 0 <= i < roots@.len() implies roots@[i] == (if i < idx {
                roots0[i]
            } else {
                roots0[i + 1]
            }) by {
                assert(roots@ == roots0.remove(idx as int));
            }
        }
        order.push(current);
        proof {
            assert(order@ == order0.push(current));
            assert(order@[order@.len() - 1] == current);
            assert(order@.contains(current));
            // every value of the old order keeps its place
            assert forall|x: usize| #[trigger] order0.contains(x) implies order@.contains(x) by {
                let i = choose|i: int| 0 <= i < order0.len() && order0[i] == x;
                assert(order@[i] == x);
            }
            // the new tail respects its dependencies: they were all satisfied,
            // so their sources are already scheduled
            assert forall|e: int, i: int|
                0 <= e < m && 0 <= i < order@.len() && (#[trigger] g.edges@[e]).dst == (
                #[trigger] order@[i]) implies exists|j: int|
                0 <= j < i && order@[j] == g.edges@[e].src by {
                if i < order@.len() - 1 {
                    assert(order0[i] == order@[i]);
                    let j = choose|j: int| 0 <= j < i && order0[j] == g.edges@[e].src;
                    assert(order@[j] == g.edges@[e].src);
                } else {
                    assert(order@[i] == current);
                    assert(spec_is_independent(g.edges@, current as int));
                    assert(!g.edges@[e].is_edge);
                    assert(order0.contains(g.edges@[e].src));
                    let j = choose|j: int| 0 <= j < order0.len() && order0[j] == g.edges@[e].src;
                    assert(order@[j] == g.edges@[e].src);
                }
            }
            // enqueued nodes are still covered after moving current from the
            // roots to the order
            assert forall|u: int| 0 <= u < n && #[trigger] enqueued@[u] implies order@.contains(
                u as usize,
            ) || exists|i: int| 0 <= i < roots@.len() && (#[trigger] roots@[i]).node == u by {
                if order0.contains(u as usize) {
                    assert(order@.contains(u as usize));
                } else {
                    let i = choose|i: int| 0 <= i < roots0.len() && (#[trigger] roots0[i]).node == u;
                    if i == idx {
                        assert(order@.contains(u as usize));
                    } else if i < idx {
                        assert(roots@[i].node == u);
                    } else {
                        assert(roots@[i - 1].node == u);
                    }
                }
            }
        }
        let ghost edges1 = g.edges@;
        let ghost order_pre = order0;
        let ghost s_mid = SchedState {
            edges: g.edges@,
            roots: roots@,
            enqueued: enqueued@,
            order: order@,
        };
        proof {
            assert(s_mid =~= (SchedState {
                roots: s_start.roots.remove(idx as int),
                order: s_start.order.push(current),
                ..s_start
            }));
        }
        let mut e: usize = 0;
        while e < m
            invariant
                g.wf(),
                n == g.n_nodes,
                n == old(g).n_nodes,
                m == g.edges@.len(),
                e <= m,
                current < n,
                crate::graph::spec_same_shape(old(g).edges@, g.edges@),
                enqueued@.len() == n,
                edges1.len() == m,
                order@ == order_pre.push(current),
                order@.contains(current),
                forall|ee: int|
                    0 <= ee < m ==> #[trigger] g.edges@[ee] == (if ee < e && edges1[ee].src
                        == current {
                        DepEdge { is_edge: false, ..edges1[ee] }
                    } else {
                        edges1[ee]
                    }),
                forall|i: int| 0 <= i < roots@.len() ==> (#[trigger] roots@[i]).node < n,
                forall|i: int|
                    0 <= i < roots@.len() ==> enqueued@[(#[trigger] roots@[i]).node as int],
                forall|i: int|
                    0 <= i < roots@.len() ==> !order@.contains((#[trigger] roots@[i]).node),
                forall|i: int, j: int|
                    0 <= i < j < roots@.len() ==> roots@[i].node != roots@[j].node,
                forall|i: int|
                    0 <= i < roots@.len() ==> spec_is_independent(
                        g.edges@,
                        (#[trigger] roots@[i]).node as int,
                    ),
                forall|i: int| 0 <= i < order@.len() ==> (#[trigger] order@[i]) < n,
                forall|i: int, j: int| 0 <= i < j < order@.len() ==> order@[i] != order@[j],
                forall|i: int| 0 <= i < order@.len() ==> enqueued@[(#[trigger] order@[i]) as int],
                forall|i: int|
                    0 <= i < order@.len() ==> spec_is_independent(
                        g.edges@,
                        (#[trigger] order@[i]) as int,
                    ),
                spec_respects_deps(g.edges@, order@),
                forall|u: int|
                    0 <= u < n && #[trigger] enqueued@[u] ==> order@.contains(u as usize)
                        || exists|i: int|
                        0 <= i < roots@.len() && (#[trigger] roots@[i]).node == u,
                forall|u: int|
                    0 <= u < n && #[trigger] spec_is_independent(g.edges@, u) ==> enqueued@[u],
                forall|ee: int|
                    0 <= ee < m && !(#[trigger] g.edges@[ee]).is_edge ==> order@.contains(
                        g.edges@[ee].src,
                    ),
                forall|ee: int|
                    0 <= ee < m && (#[trigger] g.edges@[ee]).is_edge ==> !order_pre.contains(
                        g.edges@[ee].src,
                    ),
                forall|ee: int|
                    0 <= ee < e && (#[trigger] g.edges@[ee]).is_edge ==> g.edges@[ee].src
                        != current,
                order@.len() + roots@.len() == spec_count_true(enqueued@),
                spec_count_true(enqueued@) <= n,
                2 * (n - spec_count_true(enqueued@)) + roots@.len() <= 2 * (n - spec_count_true(
                    enq0,
                )) + roots0.len() - 1,
                (SchedState {
                    edges: g.edges@,
                    roots: roots@,
                    enqueued: enqueued@,
                    order: order@,
                }) == spec_clear(s_mid, current as int, e as int),
            decreases m - e,
        {
            let ghost s_iter = SchedState {
                edges: g.edges@,
                roots: roots@,
                enqueued: enqueued@,
                order: order@,
            };
            let edge = g.edges[e];
            if edge.src == current && edge.is_edge {
                let ghost edges_before = g.edges@;
                g.edges[e].is_edge = false;
                let d = edge.dst;
                proof {
                    assert(g.edges@ == edges_before.update(
                        e as int,
                        DepEdge { is_edge: false, ..edges_before[e as int] },
                    ));
                    // only the destination of the satisfied edge can change
                    // independence status
                    assert forall|u: int|
                        0 <= u < n && u != d && spec_is_independent(edges_before, u)
                            implies spec_is_independent(g.edges@, u) by {
                        assert forall|ee: int|
                            0 <= ee < m && g.edges@[ee].dst == u implies !(
                            #[trigger] g.edges@[ee]).is_edge by {
                            assert(edges_before[ee].dst == u);
                        }
                    }
                    assert forall|u: int|
                        0 <= u < n && u != d && spec_is_independent(g.edges@, u)
                            implies spec_is_independent(edges_before, u) by {
                        assert forall|ee: int|
                            0 <= ee < m && edges_before[ee].dst == u implies !(
                            #[trigger] edges_before[ee]).is_edge by {
                            assert(ee != e as int);
                            assert(g.edges@[ee].dst == u);
                            assert(!g.edges@[ee].is_edge);
                        }
                    }
                    assert forall|u: int|
                        0 <= u < order@.len() implies spec_is_independent(
                        g.edges@,
                        (#[trigger] order@[u]) as int,
                    ) by {
                        assert(spec_is_independent(edges_before, order@[u] as int));
                        assert forall|ee: int|
                            0 <= ee < m && g.edges@[ee].dst == order@[u] as int implies !(
                            #[trigger] g.edges@[ee]).is_edge by {
                            assert(edges_before[ee].dst == order@[u] as int);
                        }
                    }
                    assert forall|i: int|
                        0 <= i < roots@.len() implies spec_is_independent(
                        g.edges@,
                        (#[trigger] roots@[i]).node as int,
                    ) by {
                        assert(spec_is_independent(edges_before, roots@[i].node as int));
                        assert forall|ee: int|
                            0 <= ee < m && g.edges@[ee].dst == roots@[i].node as int implies !(
                            #[trigger] g.edges@[ee]).is_edge by {
                            assert(edges_before[ee].dst == roots@[i].node as int);
                        }
                    }
                }
                if !enqueued[d] {
                    if g.is_independent(d) {
                        let score = overlap_score(g, &order, d);
                        let ghost roots_prev = roots@;
                        let ghost enq_prev = enqueued@;
                        proof {
                            lemma_count_true_set(enqueued@, d as int);
                        }
                        roots.push(RootNode { node: d, overlap_score: score });
                        enqueued[d] = true;
                        proof {
                            assert(roots@ == roots_prev.push(
                                RootNode { node: d, overlap_score: score },
                            ));
                            assert(roots@[roots@.len() - 1].node == d);
                            assert forall|u: int|
                                0 <= u < n && #[trigger] enqueued@[u] implies order@.contains(
                                u as usize,
                            ) || exists|i: int|
                                0 <= i < roots@.len() && (#[trigger] roots@[i]).node == u by {
                                if u == d as int {
                                    assert(roots@[roots@.len() - 1].node == u);
                                } else {
                                    assert(enq_prev[u]);
                                    if !order@.contains(u as usize) {
                                        let i = choose|i: int|
                                            0 <= i < roots_prev.len() && (
                                            #[trigger] roots_prev[i]).node == u;
                                        assert(roots@[i].node == u);
                                    }
                                }
                            }
                            lemma_count_true_le(enqueued@);
                        }
                    }
                }
                proof {
                    assert forall|u: int|
                        0 <= u < n && #[trigger] spec_is_independent(g.edges@, u)
                            implies enqueued@[u] by {
                        if u != d as int {
                            assert(spec_is_independent(edges_before, u));
                        }
                    }
                }
            }
            proof {
                assert((SchedState {
                    edges: g.edges@,
                    roots: roots@,
                    enqueued: enqueued@,
                    order: order@,
                }) =~= spec_clear(s_mid, current as int, e as int + 1));
            }
            e += 1;
        }
        proof {
            let s_end = SchedState {
                edges: g.edges@,
                roots: roots@,
                enqueued: enqueued@,
                order: order@,
            };
            assert(s_end == spec_clear(s_mid, current as int, m as int));
            assert(s_end == spec_sched_step(s_start));
            assert(spec_sched_measure(s_end) == 2 * (n - spec_count_true(enqueued@))
                + roots@.len());
            assert(spec_sched_measure(s_start) == 2 * (n - spec_count_true(enq0)) + roots0.len());
            assert(0 <= spec_sched_measure(s_end) < spec_sched_measure(s_start));
            assert(spec_sched_loop(s_start) == spec_sched_loop(s_end));
            // every edge leaving current is now satisfied, so the flag
            // invariant speaks of the grown order again
            assert forall|ee: int|
                0 <= ee < m && (#[trigger] g.edges@[ee]).is_edge implies !order@.contains(
                g.edges@[ee].src,
            ) by {
                if order@.contains(g.edges@[ee].src) {
                    let i = choose|i: int| 0 <= i < order@.len() && order@[i] == g.edges@[ee].src;
                    if i < order@.len() - 1 {
                        assert(order_pre[i] == g.edges@[ee].src);
                        assert(order_pre.contains(g.edges@[ee].src));
                    } else {
                        assert(g.edges@[ee].src == current);
                    }
                }
            }
        }
    }

    proof {
        let s_final = SchedState {
            edges: g.edges@,
            roots: roots@,
            enqueued: enqueued@,
            order: order@,
        };
        assert(spec_sched_loop(s_final) == s_final);
        assert(s_final == spec_schedule(old(g).edges@, n as int));
    }

    // The root set drained. If an edge is still unsatisfied, the graph is
    // cyclic; otherwise the order is complete.
    let mut v: usize = 0;
    while v < n
        invariant
            g.wf(),
            n == g.n_nodes,
            n == old(g).n_nodes,
            m == g.edges@.len(),
            crate::graph::spec_same_shape(old(g).edges@, g.edges@),
            enqueued@.len() == n,
            roots@.len() == 0,
            v <= n,
            forall|u: int| 0 <= u < v ==> spec_is_independent(g.edges@, u),
            forall|i: int| 0 <= i < order@.len() ==> (#[trigger] order@[i]) < n,
            forall|i: int, j: int| 0 <= i < j < order@.len() ==> order@[i] != order@[j],
            forall|i: int|
                0 <= i < order@.len() ==> spec_is_independent(
                    g.edges@,
                    (#[trigger] order@[i]) as int,
                ),
            spec_respects_deps(g.edges@, order@),
            forall|u: int|
                0 <= u < n && #[trigger] enqueued@[u] ==> order@.contains(u as usize),
            forall|u: int|
                0 <= u < n && #[trigger] spec_is_independent(g.edges@, u) ==> enqueued@[u],
            forall|e: int|
                0 <= e < m && !(#[trigger] g.edges@[e]).is_edge ==> order@.contains(
                    g.edges@[e].src,
                ),
            forall|e: int|
                0 <= e < m && (#[trigger] g.edges@[e]).is_edge ==> !order@.contains(
                    g.edges@[e].src,
                ),
            order@.len() == spec_count_true(enqueued@),
            g.edges@ == spec_schedule(old(g).edges@, n as int).edges,
            order@ == spec_schedule(old(g).edges@, n as int).order,
        decreases n - v,
    {
        if !g.is_independent(v) {
            proof {
                // a stuck state certifies a cycle: follow unsatisfied edges
                // backwards through unscheduled nodes until one repeats
                assert(!order@.contains(v)) by {
                    if order@.contains(v) {
                        let i = choose|i: int| 0 <= i < order@.len() && order@[i] == v;
                        assert(spec_is_independent(g.edges@, order@[i] as int));
                    }
                }
                assert forall|u: int|
                    0 <= u < n && !(#[trigger] order@.contains(u as usize)) implies exists|ee: int|
                    0 <= ee < g.edges@.len() && (#[trigger] g.edges@[ee]).is_edge
                        && g.edges@[ee].dst == u && !order@.contains(g.edges@[ee].src) by {
                    if spec_is_independent(g.edges@, u) {
                        assert(enqueued@[u]);
                        assert(order@.contains(u as usize));
                    } else {
                        let ee = choose|ee: int|
                            0 <= ee < g.edges@.len() && (#[trigger] g.edges@[ee]).dst == u
                                && g.edges@[ee].is_edge;
                        assert(0 <= ee < g.edges@.len() && g.edges@[ee].is_edge
                            && g.edges@[ee].dst == u && !order@.contains(g.edges@[ee].src));
                    }
                }
                let c = build_stuck_chain(
                    g.edges@,
                    order@,
                    n as int,
                    v as int,
                    (n as int + 1) as nat,
                );
                lemma_pigeonhole(c, n as int);
                let (i, j) = choose|i: int, j: int| 0 <= i < j < c.len() && c[i] == c[j];
                lemma_chain_depends(g.edges@, c, i + 1, j);
                assert(spec_edge_between(g.edges@, c[i], c[i + 1]));
                let ee = choose|ee: int|
                    0 <= ee < g.edges@.len() && (#[trigger] g.edges@[ee]).dst == c[i]
                        && g.edges@[ee].src == c[i + 1];
                assert(spec_depends(g.edges@, g.edges@[ee].src as int, g.edges@[ee].dst as int));
                assert(spec_has_cycle(g.edges@));
                crate::graph::lemma_has_cycle_same_shape(g.edges@, old(g).edges@);
            }
            return Err(BuildError::CyclicalGraph);
        }
        v += 1;
    }
    proof {
        // every node is independent, so every flag is cleared, every node
        // was enqueued, and the order holds all of them
        assert forall|e: int| 0 <= e < m implies !(#[trigger] g.edges@[e]).is_edge by {
            assert(spec_is_independent(g.edges@, g.edges@[e].dst as int));
        }
        assert forall|u: int| 0 <= u < n implies #[trigger] enqueued@[u] by {
            assert(spec_is_independent(g.edges@, u));
        }
        lemma_count_true_all(enqueued@);
        assert(order@.len() == n);
        assert forall|u: int| 0 <= u < n implies #[trigger] order@.contains(u as usize) by {
            assert(enqueued@[u]);
        }
        assert forall|e: int, i: int|
            0 <= e < m && 0 <= i < order@.len() && (#[trigger] old(g).edges@[e]).dst == (
            #[trigger] order@[i]) implies exists|j: int|
            0 <= j < i && order@[j] == old(g).edges@[e].src by {
            assert(g.edges@[e].dst == old(g).edges@[e].dst);
            let j = choose|j: int| 0 <= j < i && order@[j] == g.edges@[e].src;
            assert(order@[j] == old(g).edges@[e].src);
        }
        lemma_respects_deps_acyclic(old(g).edges@, order@, n as int);
    }
    Ok(order)
}

} // verus!
