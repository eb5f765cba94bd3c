//! The physical-pass merger.
//!
//! Walking the scheduled order, each pass joins an existing physical pass
//! when every one of its dependencies is in an acceptable place: a
//! colour-only dependency must already be a subpass of the group, and a
//! dependency that demands external synchronisation must stay outside the
//! group and must not itself depend on any of the group's subpasses, which
//! would knot the group's timing into a cycle. Among the groups that accept
//! a pass, the one sharing the most of its dependencies wins; a pass no
//! group accepts opens a new group of its own. Every dependency of a
//! subpass that demands external synchronisation is recorded once, by
//! source, in the group's external dependency list.

use vstd::prelude::*;

use crate::formats::spec_requires_external_sync;
use crate::graph::DepEdge;
use crate::graph::DepGraph;
use crate::graph::spec_depends;
use crate::schedule::spec_respects_deps;

verus! {

/// A cluster of passes executed as one native render pass: its subpasses in
/// merge order and the dependency edges that must be satisfied by other
/// physical passes before it starts.
pub struct PhysicalPass {
    /// The passes of the cluster, in the order they were merged.
    pub subpasses: Vec<usize>,
    /// Edges whose source lies outside the cluster and whose usage demands
    /// inter-pass synchronisation, one per distinct source.
    pub external_dependencies: Vec<DepEdge>,
}

/// Mathematical image of a [`PhysicalPass`].
#[verifier::ext_equal]
pub struct PhysicalPassView {
    pub subpasses: Seq<usize>,
    pub external_dependencies: Seq<DepEdge>,
}

impl View for PhysicalPass {
    type V = PhysicalPassView;

    open spec fn view(&self) -> PhysicalPassView {
        PhysicalPassView {
            subpasses: self.subpasses@,
            external_dependencies: self.external_dependencies@,
        }
    }
}

/// Two edges carry the same source, destination, attachment and usage; the
/// scratch flag does not matter.
pub open spec fn spec_edge_matches(a: DepEdge, b: DepEdge) -> bool {
    a.src == b.src && a.dst == b.dst && a.attachment == b.attachment && a.usage == b.usage
}

/// Some recorded external dependency has this source pass.
pub open spec fn spec_src_in(deps: Seq<DepEdge>, src: usize) -> bool {
    exists|k: int| 0 <= k < deps.len() && (#[trigger] deps[k]).src == src
}

/// Whether dependency edge `e` of pass `p` lets `p` merge into group `f`:
/// an externally synchronised dependency must come from outside the group
/// and must not depend on any of its subpasses; a colour-only dependency
/// must already be a subpass.
pub open spec fn spec_candidate_edge(edges: Seq<DepEdge>, f: PhysicalPassView, e: int) -> bool {
    if spec_requires_external_sync(edges[e].usage) {
        &&& !f.subpasses.contains(edges[e].src)
        &&& forall|k: int|
            0 <= k < f.subpasses.len() ==> !spec_depends(
                edges,
                edges[e].src as int,
                (#[trigger] f.subpasses[k]) as int,
            )
    } else {
        f.subpasses.contains(edges[e].src)
    }
}

/// Group `f` accepts pass `p`: every dependency of `p` is in an acceptable
/// place.
pub open spec fn spec_candidate(edges: Seq<DepEdge>, f: PhysicalPassView, p: int) -> bool {
    forall|e: int|
        0 <= e < edges.len() && (#[trigger] edges[e]).dst == p ==> spec_candidate_edge(edges, f, e)
}

/// The merge score of pass `p` against group `f`, over the first `i` edges:
/// dependencies already in the expected place, counting colour dependencies
/// sitting as subpasses and externally synchronised ones already recorded as
/// external dependencies.
pub open spec fn spec_merge_score_upto(
    edges: Seq<DepEdge>,
    f: PhysicalPassView,
    p: int,
    i: int,
) -> nat
    decreases i,
{
    if i <= 0 {
        0
    } else {
        spec_merge_score_upto(edges, f, p, i - 1) + if edges[i - 1].dst == p && (if spec_requires_external_sync(
            edges[i - 1].usage,
        ) {
            spec_src_in(f.external_dependencies, edges[i - 1].src)
        } else {
            f.subpasses.contains(edges[i - 1].src)
        }) {
            1nat
        } else {
            0nat
        }
    }
}

/// The external dependency list after scanning the first `i` edges for
/// pass `p`'s externally synchronised dependencies, recording each source
/// not already present.
pub open spec fn spec_record_ext_deps(
    edges: Seq<DepEdge>,
    deps: Seq<DepEdge>,
    p: int,
    i: int,
) -> Seq<DepEdge>
    decreases i,
{
    if i <= 0 {
        deps
    } else {
        let prev = spec_record_ext_deps(edges, deps, p, i - 1);
        let e = edges[i - 1];
        if e.dst == p && spec_requires_external_sync(e.usage) && !spec_src_in(prev, e.src) {
            prev.push(e)
        } else {
            prev
        }
    }
}

/// The group after appending pass `p`: one more subpass, and `p`'s
/// externally synchronised dependencies recorded once per source.
pub open spec fn spec_add_subpass(edges: Seq<DepEdge>, f: PhysicalPassView, p: int) -> PhysicalPassView {
    PhysicalPassView {
        subpasses: f.subpasses.push(p as usize),
        external_dependencies: spec_record_ext_deps(
            edges,
            f.external_dependencies,
            p,
            edges.len() as int,
        ),
    }
}

/// Recording keeps every existing entry in place.
proof fn lemma_record_ext_deps_prefix(edges: Seq<DepEdge>, deps: Seq<DepEdge>, p: int, i: int)
    ensures
        spec_record_ext_deps(edges, deps, p, i).len() >= deps.len(),
        forall|k: int|
            0 <= k < deps.len() ==> spec_record_ext_deps(edges, deps, p, i)[k] == deps[k],
    decreases i,
{
    if i > 0 {
        lemma_record_ext_deps_prefix(edges, deps, p, i - 1);
    }
}

/// Every entry recording appends is an edge of the table that enters `p`
/// and demands external synchronisation.
proof fn lemma_record_ext_deps_appended(edges: Seq<DepEdge>, deps: Seq<DepEdge>, p: int, i: int)
    requires
        0 <= i <= edges.len(),
    ensures
        forall|k: int|
            deps.len() <= k < spec_record_ext_deps(edges, deps, p, i).len() ==> {
                let d = #[trigger] spec_record_ext_deps(edges, deps, p, i)[k];
                &&& exists|e: int| 0 <= e < edges.len() && #[trigger] edges[e] == d
                &&& d.dst == p
                &&& spec_requires_external_sync(d.usage)
            },
    decreases i,
{
    if i > 0 {
        lemma_record_ext_deps_appended(edges, deps, p, i - 1);
        let prev = spec_record_ext_deps(edges, deps, p, i - 1);
        let cur = spec_record_ext_deps(edges, deps, p, i);
        if cur != prev {
            assert(edges[i - 1] == cur[cur.len() - 1]);
        }
    }
}

/// A recorded source stays recorded.
proof fn lemma_record_ext_deps_monotone(
    edges: Seq<DepEdge>,
    deps: Seq<DepEdge>,
    p: int,
    i: int,
    x: usize,
)
    requires
        spec_src_in(deps, x),
    ensures
        spec_src_in(spec_record_ext_deps(edges, deps, p, i), x),
{
    lemma_record_ext_deps_prefix(edges, deps, p, i);
    let k = choose|k: int| 0 <= k < deps.len() && (#[trigger] deps[k]).src == x;
    assert(spec_record_ext_deps(edges, deps, p, i)[k].src == x);
}

/// After scanning the first `i` edges, every one of them that enters `p`
/// and demands external synchronisation has its source recorded.
proof fn lemma_record_ext_deps_covers(edges: Seq<DepEdge>, deps: Seq<DepEdge>, p: int, i: int)
    requires
        0 <= i <= edges.len(),
    ensures
        forall|e: int|
            0 <= e < i && (#[trigger] edges[e]).dst == p && spec_requires_external_sync(
                edges[e].usage,
            ) ==> spec_src_in(spec_record_ext_deps(edges, deps, p, i), edges[e].src),
    decreases i,
{
    if i > 0 {
        lemma_record_ext_deps_covers(edges, deps, p, i - 1);
        let prev = spec_record_ext_deps(edges, deps, p, i - 1);
        let cur = spec_record_ext_deps(edges, deps, p, i);
        assert forall|e: int|
            0 <= e < i && (#[trigger] edges[e]).dst == p && spec_requires_external_sync(
                edges[e].usage,
            ) implies spec_src_in(cur, edges[e].src) by {
            if e < i - 1 {
                let k = choose|k: int| 0 <= k < prev.len() && (#[trigger] prev[k]).src == edges[e].src;
                if cur != prev {
                    assert(cur[k].src == edges[e].src);
                }
            } else {
                if spec_src_in(prev, edges[e].src) {
                    let k = choose|k: int|
                        0 <= k < prev.len() && (#[trigger] prev[k]).src == edges[e].src;
                    if cur != prev {
                        assert(cur[k].src == edges[e].src);
                    }
                } else {
                    assert(cur == prev.push(edges[e]));
                    assert(cur[cur.len() - 1].src == edges[e].src);
                }
            }
        }
    }
}

/// Whether `x` occurs in a list of pass indices.
fn contains_node(v: &Vec<usize>, x: usize) -> (r: bool)
    ensures
        r == v@.contains(x),
{
    let n = v.len();
    for i in 0..n
        invariant
            n == v@.len(),
            forall|j: int| 0 <= j < i ==> v@[j] != x,
    {
        if v[i] == x {
            return true;
        }
    }
    false
}

/// Whether some recorded external dependency has source `x`.
fn src_in_deps(deps: &Vec<DepEdge>, x: usize) -> (r: bool)
    ensures
        r == spec_src_in(deps@, x),
{
    let n = deps.len();
    for i in 0..n
        invariant
            n == deps@.len(),
            forall|j: int| 0 <= j < i ==> (#[trigger] deps@[j]).src != x,
    {
        if deps[i].src == x {
            return true;
        }
    }
    false
}

/// Whether group `f` accepts pass `p`.
fn is_candidate(g: &DepGraph, f: &PhysicalPass, p: usize) -> (r: bool)
    requires
        g.wf(),
        p < g.n_nodes,
        forall|k: int| 0 <= k < f@.subpasses.len() ==> (#[trigger] f@.subpasses[k]) < g.n_nodes,
    ensures
        r == spec_candidate(g.edges@, f@, p as int),
{
    let m = g.edges.len();
    for e in 0..m
        invariant
            g.wf(),
            p < g.n_nodes,
            m == g.edges@.len(),
            forall|k: int| 0 <= k < f@.subpasses.len() ==> (#[trigger] f@.subpasses[k]) < g.n_nodes,
            forall|ee: int|
                0 <= ee < e && (#[trigger] g.edges@[ee]).dst == p ==> spec_candidate_edge(
                    g.edges@,
                    f@,
                    ee,
                ),
    {
        let edge = g.edges[e];
        if edge.dst == p {
            if crate::formats::requires_external_sync(edge.usage) {
                if contains_node(&f.subpasses, edge.src) {
                    proof {
                        assert(!spec_candidate_edge(g.edges@, f@, e as int));
                    }
                    return false;
                }
                let n_sub = f.subpasses.len();
                for k in 0..n_sub
                    invariant
                        g.wf(),
                        p < g.n_nodes,
                        m == g.edges@.len(),
                        e < m,
                        edge == g.edges@[e as int],
                        edge.src < g.n_nodes,
                        edge.dst == p,
                        spec_requires_external_sync(edge.usage),
                        n_sub == f@.subpasses.len(),
                        forall|kk: int|
                            0 <= kk < f@.subpasses.len() ==> (#[trigger] f@.subpasses[kk])
                                < g.n_nodes,
                        forall|kk: int|
                            0 <= kk < k ==> !spec_depends(
                                g.edges@,
                                edge.src as int,
                                (#[trigger] f@.subpasses[kk]) as int,
                            ),
                {
                    if g.depends_on(edge.src, f.subpasses[k]) {
                        proof {
                            assert(g.edges@[e as int].src == edge.src);
                            assert(spec_depends(
                                g.edges@,
                                g.edges@[e as int].src as int,
                                f@.subpasses[k as int] as int,
                            ));
                            assert(!(forall|kk: int|
                                0 <= kk < f@.subpasses.len() ==> !spec_depends(
                                    g.edges@,
                                    g.edges@[e as int].src as int,
                                    (#[trigger] f@.subpasses[kk]) as int,
                                )));
                            assert(!spec_candidate_edge(g.edges@, f@, e as int));
                            assert(!spec_candidate(g.edges@, f@, p as int));
                        }
                        return false;
                    }
                }
            } else {
                if !contains_node(&f.subpasses, edge.src) {
                    proof {
                        assert(!spec_candidate_edge(g.edges@, f@, e as int));
                    }
                    return false;
                }
            }
            proof {
                assert(spec_candidate_edge(g.edges@, f@, e as int));
            }
        }
    }
    true
}

/// The merge score of pass `p` against group `f`.
fn merge_score(g: &DepGraph, f: &PhysicalPass, p: usize) -> (s: usize)
    requires
        g.wf(),
        p < g.n_nodes,
    ensures
        s == spec_merge_score_upto(g.edges@, f@, p as int, g.edges@.len() as int),
{
    let m = g.edges.len();
    let mut s: usize = 0;
    for e in 0..m
        invariant
            g.wf(),
            p < g.n_nodes,
            m == g.edges@.len(),
            s <= e,
            s == spec_merge_score_upto(g.edges@, f@, p as int, e as int),
    {
        let edge = g.edges[e];
        if edge.dst == p {
            let hit = if crate::formats::requires_external_sync(edge.usage) {
                src_in_deps(&f.external_dependencies, edge.src)
            } else {
                contains_node(&f.subpasses, edge.src)
            };
            if hit {
                s += 1;
            }
        }
    }
    s
}

impl PhysicalPass {
    /// Appends pass `p` as the last subpass and records, once per source,
    /// each of `p`'s dependencies that demands external synchronisation and
    /// whose source is not yet in the external dependency set.
    fn add_subpass(&mut self, g: &DepGraph, p: usize)
        requires
            g.wf(),
            p < g.n_nodes,
        ensures
            final(self)@ == spec_add_subpass(g.edges@, old(self)@, p as int),
            final(self)@.subpasses == old(self)@.subpasses.push(p),
            final(self)@.external_dependencies.len()
                >= old(self)@.external_dependencies.len(),
            forall|k: int|
                0 <= k < old(self)@.external_dependencies.len()
                    ==> final(self)@.external_dependencies[k]
                    == old(self)@.external_dependencies[k],
            forall|k: int|
                old(self)@.external_dependencies.len() <= k
                    < final(self)@.external_dependencies.len() ==> {
                    let d = #[trigger] final(self)@.external_dependencies[k];
                    &&& exists|e: int| 0 <= e < g.edges@.len() && #[trigger] g.edges@[e] == d
                    &&& d.dst == p
                    &&& spec_requires_external_sync(d.usage)
                },
            forall|e: int|
                0 <= e < g.edges@.len() && (#[trigger] g.edges@[e]).dst == p
                    && spec_requires_external_sync(g.edges@[e].usage) ==> spec_src_in(
                    final(self)@.external_dependencies,
                    g.edges@[e].src,
                ),
    {
        self.subpasses.push(p);
        let ghost deps0 = self.external_dependencies@;
        let m = g.edges.len();
        for e in 0..m
            invariant
                g.wf(),
                p < g.n_nodes,
                m == g.edges@.len(),
                self@.subpasses == old(self)@.subpasses.push(p),
                deps0 == old(self)@.external_dependencies,
                self@.external_dependencies == spec_record_ext_deps(
                    g.edges@,
                    deps0,
                    p as int,
                    e as int,
                ),
        {
            let edge = g.edges[e];
            if edge.dst == p && crate::formats::requires_external_sync(edge.usage) {
                if !src_in_deps(&self.external_dependencies, edge.src) {
                    self.external_dependencies.push(edge);
                }
            }
            proof {
                assert(g.edges@[e as int] == edge);
                assert(self@.external_dependencies == spec_record_ext_deps(
                    g.edges@,
                    deps0,
                    p as int,
                    e as int + 1,
                ));
            }
        }
        proof {
            lemma_record_ext_deps_prefix(g.edges@, deps0, p as int, m as int);
            lemma_record_ext_deps_appended(g.edges@, deps0, p as int, m as int);
            lemma_record_ext_deps_covers(g.edges@, deps0, p as int, m as int);
            assert(self@ =~= spec_add_subpass(g.edges@, old(self)@, p as int));
        }
    }
}

/// Every subpass of every group is one of the first `upto` scheduled passes.
pub open spec fn spec_subpasses_from(
    order: Seq<usize>,
    phys: Seq<PhysicalPass>,
    upto: int,
) -> bool {
    forall|f: int, k: int|
        0 <= f < phys.len() && 0 <= k < phys[f]@.subpasses.len() ==> exists|j: int|
            0 <= j < upto && order[j] == #[trigger] phys[f]@.subpasses[k]
}

/// No pass occupies two subpass slots, in one group or across groups.
pub open spec fn spec_each_pass_at_most_once(phys: Seq<PhysicalPass>) -> bool {
    forall|f1: int, k1: int, f2: int, k2: int|
        0 <= f1 < phys.len() && 0 <= k1 < phys[f1]@.subpasses.len() && 0 <= f2 < phys.len() && 0
            <= k2 < phys[f2]@.subpasses.len() && (#[trigger] phys[f1]@.subpasses[k1]) == (
        #[trigger] phys[f2]@.subpasses[k2]) ==> f1 == f2 && k1 == k2
}

/// Each of the first `upto` scheduled passes holds some subpass slot.
pub open spec fn spec_covers_prefix(
    order: Seq<usize>,
    phys: Seq<PhysicalPass>,
    upto: int,
) -> bool {
    forall|j: int|
        0 <= j < upto ==> exists|f: int, k: int|
            0 <= f < phys.len() && 0 <= k < phys[f]@.subpasses.len() && phys[f]@.subpasses[k] == (
            #[trigger] order[j])
}

/// Every recorded external dependency is a real dependency edge of the
/// graph whose usage demands external synchronisation.
pub open spec fn spec_ext_deps_valid(edges: Seq<DepEdge>, phys: Seq<PhysicalPass>) -> bool {
    forall|f: int, k: int|
        0 <= f < phys.len() && 0 <= k < phys[f]@.external_dependencies.len() ==> {
            let d = #[trigger] phys[f]@.external_dependencies[k];
            &&& exists|e: int| 0 <= e < edges.len() && spec_edge_matches(#[trigger] edges[e], d)
            &&& spec_requires_external_sync(d.usage)
        }
}

/// Every externally synchronised dependency of every subpass is recorded,
/// by source, among its group's external dependencies.
pub open spec fn spec_ext_deps_cover(edges: Seq<DepEdge>, phys: Seq<PhysicalPass>) -> bool {
    forall|f: int, k: int, e: int|
        0 <= f < phys.len() && 0 <= k < phys[f]@.subpasses.len() && 0 <= e < edges.len() && (
        #[trigger] edges[e]).dst == (#[trigger] phys[f]@.subpasses[k])
            && spec_requires_external_sync(edges[e].usage) ==> spec_src_in(
            phys[f]@.external_dependencies,
            edges[e].src,
        )
}

/// Every colour-only dependency of every subpass that joined an existing
/// group is satisfied by another subpass of the same group.
pub open spec fn spec_internal_deps_inside(edges: Seq<DepEdge>, phys: Seq<PhysicalPass>) -> bool {
    forall|f: int, k: int, e: int|
        0 <= f < phys.len() && 1 <= k < phys[f]@.subpasses.len() && 0 <= e < edges.len() && (
        #[trigger] edges[e]).dst == (#[trigger] phys[f]@.subpasses[k])
            && !spec_requires_external_sync(edges[e].usage) ==> phys[f]@.subpasses.contains(
            edges[e].src,
        )
}

/// No externally synchronised dependency edge joins two subpasses of one
/// group.
pub open spec fn spec_no_ext_edge_inside(edges: Seq<DepEdge>, phys: Seq<PhysicalPass>) -> bool {
    forall|f: int, e: int|
        0 <= f < phys.len() && 0 <= e < edges.len() && spec_requires_external_sync(
            (#[trigger] edges[e]).usage,
        ) ==> !((#[trigger] phys[f]@).subpasses.contains(edges[e].dst)
            && phys[f]@.subpasses.contains(edges[e].src))
}

/// No group is empty.
pub open spec fn spec_groups_nonempty(phys: Seq<PhysicalPass>) -> bool {
    forall|f: int| 0 <= f < phys.len() ==> (#[trigger] phys[f]@).subpasses.len() >= 1
}

/// Merging the current pass into an accepting group keeps every grouping
/// property: the new subpass is the current pass, its colour dependencies
/// were required to sit in the group, its externally synchronised
/// dependencies were required to sit outside it, and no later-scheduled
/// pass can be depended on by an earlier subpass.
#[verifier::rlimit(30)]
proof fn lemma_merge_step(
    edges: Seq<DepEdge>,
    order: Seq<usize>,
    phys0: Seq<PhysicalPass>,
    phys1: Seq<PhysicalPass>,
    pp0: PhysicalPass,
    pp1: PhysicalPass,
    best: int,
    i: int,
)
    requires
        0 <= i < order.len(),
        forall|t: int, j: int| 0 <= t < j < order.len() ==> order[t] != order[j],
        spec_respects_deps(edges, order),
        0 <= best < phys0.len(),
        phys1.len() == phys0.len(),
        forall|t: int| 0 <= t < phys0.len() && t != best ==> phys1[t] == phys0[t],
        phys1[best] == pp1,
        pp0 == phys0[best],
        pp1@.subpasses == pp0@.subpasses.push(order[i]),
        pp1@.external_dependencies.len() >= pp0@.external_dependencies.len(),
        forall|k: int|
            0 <= k < pp0@.external_dependencies.len() ==> pp1@.external_dependencies[k]
                == pp0@.external_dependencies[k],
        forall|k: int|
            pp0@.external_dependencies.len() <= k < pp1@.external_dependencies.len() ==> {
                let d = #[trigger] pp1@.external_dependencies[k];
                &&& exists|e: int| 0 <= e < edges.len() && #[trigger] edges[e] == d
                &&& d.dst == order[i]
                &&& spec_requires_external_sync(d.usage)
            },
        forall|e: int|
            0 <= e < edges.len() && (#[trigger] edges[e]).dst == order[i]
                && spec_requires_external_sync(edges[e].usage) ==> spec_src_in(
                pp1@.external_dependencies,
                edges[e].src,
            ),
        spec_candidate(edges, pp0@, order[i] as int),
        forall|f: int, k: int|
            0 <= f < phys0.len() && 0 <= k < phys0[f]@.subpasses.len() ==> (
            #[trigger] phys0[f]@.subpasses[k]) != order[i],
        spec_subpasses_from(order, phys0, i),
        spec_each_pass_at_most_once(phys0),
        spec_covers_prefix(order, phys0, i),
        spec_ext_deps_valid(edges, phys0),
        spec_ext_deps_cover(edges, phys0),
        spec_internal_deps_inside(edges, phys0),
        spec_no_ext_edge_inside(edges, phys0),
        spec_groups_nonempty(phys0),
    ensures
        spec_subpasses_from(order, phys1, i + 1),
        spec_each_pass_at_most_once(phys1),
        spec_covers_prefix(order, phys1, i + 1),
        spec_ext_deps_valid(edges, phys1),
        spec_ext_deps_cover(edges, phys1),
        spec_internal_deps_inside(edges, phys1),
        spec_no_ext_edge_inside(edges, phys1),
        spec_groups_nonempty(phys1),
{
    let p = order[i];
    let sub0 = pp0@.subpasses;
    let sub1 = pp1@.subpasses;
    assert(sub1.len() == sub0.len() + 1);
    assert(sub1[sub0.len() as int] == p);
    assert forall|x: usize| sub0.contains(x) implies #[trigger] sub1.contains(x) by {
        let k = choose|k: int| 0 <= k < sub0.len() && sub0[k] == x;
        assert(sub1[k] == x);
    }
    assert forall|x: usize| #[trigger] sub1.contains(x) implies sub0.contains(x) || x == p by {
        let k = choose|k: int| 0 <= k < sub1.len() && sub1[k] == x;
        if k < sub0.len() {
            assert(sub0[k] == x);
        }
    }
    assert forall|x: usize| #[trigger] spec_src_in(pp0@.external_dependencies, x)
        implies spec_src_in(pp1@.external_dependencies, x) by {
        let k = choose|k: int|
            0 <= k < pp0@.external_dependencies.len() && (
            #[trigger] pp0@.external_dependencies[k]).src == x;
        assert(pp1@.external_dependencies[k].src == x);
    }

    assert forall|f: int, k: int|
        0 <= f < phys1.len() && 0 <= k < phys1[f]@.subpasses.len() implies exists|j: int|
        0 <= j < i + 1 && order[j] == #[trigger] phys1[f]@.subpasses[k] by {
        if f == best && k == sub0.len() {
            assert(order[i] == phys1[f]@.subpasses[k]);
        } else {
            assert(phys1[f]@.subpasses[k] == phys0[f]@.subpasses[k]);
            let j = choose|j: int| 0 <= j < i && order[j] == #[trigger] phys0[f]@.subpasses[k];
            assert(order[j] == phys1[f]@.subpasses[k]);
        }
    }

    assert forall|f1: int, k1: int, f2: int, k2: int|
        0 <= f1 < phys1.len() && 0 <= k1 < phys1[f1]@.subpasses.len() && 0 <= f2 < phys1.len() && 0
            <= k2 < phys1[f2]@.subpasses.len() && (#[trigger] phys1[f1]@.subpasses[k1]) == (
        #[trigger] phys1[f2]@.subpasses[k2]) implies f1 == f2 && k1 == k2 by {
        let new1 = f1 == best && k1 == sub0.len();
        let new2 = f2 == best && k2 == sub0.len();
        if new1 && new2 {
        } else if new1 {
            assert(phys1[f2]@.subpasses[k2] == phys0[f2]@.subpasses[k2]);
            assert(phys0[f2]@.subpasses[k2] != p);
            assert(false);
        } else if new2 {
            assert(phys1[f1]@.subpasses[k1] == phys0[f1]@.subpasses[k1]);
            assert(phys0[f1]@.subpasses[k1] != p);
            assert(false);
        } else {
            assert(phys1[f1]@.subpasses[k1] == phys0[f1]@.subpasses[k1]);
            assert(phys1[f2]@.subpasses[k2] == phys0[f2]@.subpasses[k2]);
        }
    }

    assert forall|j: int| 0 <= j < i + 1 implies exists|f: int, k: int|
        0 <= f < phys1.len() && 0 <= k < phys1[f]@.subpasses.len() && phys1[f]@.subpasses[k] == (
        #[trigger] order[j]) by {
        if j == i {
            assert(phys1[best]@.subpasses[sub0.len() as int] == order[j]);
        } else {
            let (f, k) = choose|f: int, k: int|
                0 <= f < phys0.len() && 0 <= k < phys0[f]@.subpasses.len()
                    && phys0[f]@.subpasses[k] == (#[trigger] order[j]);
            assert(phys1[f]@.subpasses[k] == order[j]);
        }
    }

    assert forall|f: int, k: int|
        0 <= f < phys1.len() && 0 <= k < phys1[f]@.external_dependencies.len() implies {
        let d = #[trigger] phys1[f]@.external_dependencies[k];
        &&& exists|e: int| 0 <= e < edges.len() && spec_edge_matches(#[trigger] edges[e], d)
        &&& spec_requires_external_sync(d.usage)
    } by {
        if f == best {
            if k < pp0@.external_dependencies.len() {
                assert(pp1@.external_dependencies[k] == pp0@.external_dependencies[k]);
                assert(0 <= best < phys0.len() && 0 <= k
                    < phys0[best]@.external_dependencies.len());
                assert({
                    let d = phys0[best]@.external_dependencies[k];
                    &&& exists|e: int| 0 <= e < edges.len() && spec_edge_matches(
                        #[trigger] edges[e],
                        d,
                    )
                    &&& spec_requires_external_sync(d.usage)
                });
            } else {
                let d = pp1@.external_dependencies[k];
                let e = choose|e: int| 0 <= e < edges.len() && #[trigger] edges[e] == d;
                assert(spec_edge_matches(edges[e], d));
            }
        } else {
            assert(phys1[f] == phys0[f]);
            assert({
                let d = phys0[f]@.external_dependencies[k];
                &&& exists|e: int| 0 <= e < edges.len() && spec_edge_matches(
                    #[trigger] edges[e],
                    d,
                )
                &&& spec_requires_external_sync(d.usage)
            });
        }
    }

    assert forall|f: int, k: int, e: int|
        0 <= f < phys1.len() && 0 <= k < phys1[f]@.subpasses.len() && 0 <= e < edges.len() && (
        #[trigger] edges[e]).dst == (#[trigger] phys1[f]@.subpasses[k])
            && spec_requires_external_sync(edges[e].usage) implies spec_src_in(
        phys1[f]@.external_dependencies,
        edges[e].src,
    ) by {
        if f == best {
            if k == sub0.len() {
                assert(edges[e].dst == order[i]);
            } else {
                assert(phys1[f]@.subpasses[k] == phys0[f]@.subpasses[k]);
                assert(spec_src_in(phys0[best]@.external_dependencies, edges[e].src));
            }
        } else {
            assert(phys1[f] == phys0[f]);
            assert(spec_src_in(phys0[f]@.external_dependencies, edges[e].src));
        }
    }

    assert forall|f: int, k: int, e: int|
        0 <= f < phys1.len() && 1 <= k < phys1[f]@.subpasses.len() && 0 <= e < edges.len() && (
        #[trigger] edges[e]).dst == (#[trigger] phys1[f]@.subpasses[k])
            && !spec_requires_external_sync(edges[e].usage) implies phys1[f]@.subpasses.contains(
        edges[e].src,
    ) by {
        if f == best {
            if k == sub0.len() {
                assert(edges[e].dst == order[i]);
                assert(spec_candidate_edge(edges, pp0@, e));
                assert(sub0.contains(edges[e].src));
            } else {
                assert(phys1[f]@.subpasses[k] == phys0[f]@.subpasses[k]);
                assert(phys0[f]@.subpasses.contains(edges[e].src));
                assert(sub0.contains(edges[e].src));
            }
            assert(sub1.contains(edges[e].src));
        } else {
            assert(phys1[f] == phys0[f]);
            assert(phys0[f]@.subpasses.contains(edges[e].src));
        }
    }

    assert forall|f: int, e: int|
        0 <= f < phys1.len() && 0 <= e < edges.len() && spec_requires_external_sync(
            (#[trigger] edges[e]).usage,
        ) implies !((#[trigger] phys1[f]@).subpasses.contains(edges[e].dst)
        && phys1[f]@.subpasses.contains(edges[e].src)) by {
        if f == best {
            if sub1.contains(edges[e].dst) && sub1.contains(edges[e].src) {
                let dst_old = sub0.contains(edges[e].dst);
                let src_old = sub0.contains(edges[e].src);
                if dst_old && src_old {
                    assert(!(phys0[best]@.subpasses.contains(edges[e].dst)
                        && phys0[best]@.subpasses.contains(edges[e].src)));
                    assert(false);
                } else if !dst_old {
                    // the new subpass is the destination: candidacy required
                    // its externally synchronised sources to sit outside
                    assert(edges[e].dst == p);
                    assert(spec_candidate_edge(edges, pp0@, e));
                    if src_old {
                        assert(false);
                    } else {
                        // self-edge on the current pass: its source would
                        // have to be scheduled earlier than itself
                        assert(edges[e].src == p);
                        assert(edges[e].dst == order[i]);
                        let j2 = choose|j2: int| 0 <= j2 < i && order[j2] == edges[e].src;
                        assert(order[j2] == order[i]);
                        assert(false);
                    }
                } else {
                    // the new subpass is the source: it was scheduled after
                    // the destination, against the scheduled order
                    assert(edges[e].src == p);
                    assert(dst_old);
                    let k = choose|k: int| 0 <= k < sub0.len() && sub0[k] == edges[e].dst;
                    assert(phys0[best]@.subpasses[k] == edges[e].dst);
                    let j = choose|j: int|
                        0 <= j < i && order[j] == #[trigger] phys0[best]@.subpasses[k];
                    assert(order[j] == edges[e].dst);
                    let j2 = choose|j2: int| 0 <= j2 < j && order[j2] == edges[e].src;
                    assert(order[j2] == order[i]);
                    assert(j2 < i);
                    assert(false);
                }
            }
        } else {
            assert(phys1[f] == phys0[f]);
            assert(!(phys0[f]@.subpasses.contains(edges[e].dst)
                && phys0[f]@.subpasses.contains(edges[e].src)));
        }
    }

    assert forall|f: int| 0 <= f < phys1.len() implies (#[trigger] phys1[f]@).subpasses.len()
        >= 1 by {
        if f != best {
            assert(phys1[f] == phys0[f]);
            assert(phys0[f]@.subpasses.len() >= 1);
        }
    }
}

/// Opening a fresh group for a pass that no group accepts keeps every
/// grouping property: the group holds only the current pass, and its
/// external dependency list records exactly the pass's externally
/// synchronised dependencies.
#[verifier::rlimit(30)]
proof fn lemma_new_group_step(
    edges: Seq<DepEdge>,
    order: Seq<usize>,
    phys0: Seq<PhysicalPass>,
    phys1: Seq<PhysicalPass>,
    pp1: PhysicalPass,
    i: int,
)
    requires
        0 <= i < order.len(),
        forall|t: int, j: int| 0 <= t < j < order.len() ==> order[t] != order[j],
        spec_respects_deps(edges, order),
        phys1.len() == phys0.len() + 1,
        forall|t: int| 0 <= t < phys0.len() ==> phys1[t] == phys0[t],
        phys1[phys0.len() as int] == pp1,
        pp1@.subpasses =~= Seq::<usize>::empty().push(order[i]),
        forall|k: int|
            0 <= k < pp1@.external_dependencies.len() ==> {
                let d = #[trigger] pp1@.external_dependencies[k];
                &&& exists|e: int| 0 <= e < edges.len() && #[trigger] edges[e] == d
                &&& d.dst == order[i]
                &&& spec_requires_external_sync(d.usage)
            },
        forall|e: int|
            0 <= e < edges.len() && (#[trigger] edges[e]).dst == order[i]
                && spec_requires_external_sync(edges[e].usage) ==> spec_src_in(
                pp1@.external_dependencies,
                edges[e].src,
            ),
        forall|f: int, k: int|
            0 <= f < phys0.len() && 0 <= k < phys0[f]@.subpasses.len() ==> (
            #[trigger] phys0[f]@.subpasses[k]) != order[i],
        spec_subpasses_from(order, phys0, i),
        spec_each_pass_at_most_once(phys0),
        spec_covers_prefix(order, phys0, i),
        spec_ext_deps_valid(edges, phys0),
        spec_ext_deps_cover(edges, phys0),
        spec_internal_deps_inside(edges, phys0),
        spec_no_ext_edge_inside(edges, phys0),
        spec_groups_nonempty(phys0),
    ensures
        spec_subpasses_from(order, phys1, i + 1),
        spec_each_pass_at_most_once(phys1),
        spec_covers_prefix(order, phys1, i + 1),
        spec_ext_deps_valid(edges, phys1),
        spec_ext_deps_cover(edges, phys1),
        spec_internal_deps_inside(edges, phys1),
        spec_no_ext_edge_inside(edges, phys1),
        spec_groups_nonempty(phys1),
{
    let p = order[i];
    let fnew = phys0.len() as int;
    assert(pp1@.subpasses.len() == 1);
    assert(pp1@.subpasses[0] == p);
    assert forall|x: usize| #[trigger] pp1@.subpasses.contains(x) implies x == p by {
        let k = choose|k: int| 0 <= k < pp1@.subpasses.len() && pp1@.subpasses[k] == x;
    }

    assert forall|f: int, k: int|
        0 <= f < phys1.len() && 0 <= k < phys1[f]@.subpasses.len() implies exists|j: int|
        0 <= j < i + 1 && order[j] == #[trigger] phys1[f]@.subpasses[k] by {
        if f == fnew {
            assert(order[i] == phys1[f]@.subpasses[k]);
        } else {
            assert(phys1[f] == phys0[f]);
            let j = choose|j: int| 0 <= j < i && order[j] == #[trigger] phys0[f]@.subpasses[k];
            assert(order[j] == phys1[f]@.subpasses[k]);
        }
    }

    assert forall|f1: int, k1: int, f2: int, k2: int|
        0 <= f1 < phys1.len() && 0 <= k1 < phys1[f1]@.subpasses.len() && 0 <= f2 < phys1.len() && 0
            <= k2 < phys1[f2]@.subpasses.len() && (#[trigger] phys1[f1]@.subpasses[k1]) == (
        #[trigger] phys1[f2]@.subpasses[k2]) implies f1 == f2 && k1 == k2 by {
        if f1 == fnew && f2 == fnew {
        } else if f1 == fnew {
            assert(phys1[f2] == phys0[f2]);
            assert(phys0[f2]@.subpasses[k2] != p);
            assert(false);
        } else if f2 == fnew {
            assert(phys1[f1] == phys0[f1]);
            assert(phys0[f1]@.subpasses[k1] != p);
            assert(false);
        } else {
            assert(phys1[f1] == phys0[f1]);
            assert(phys1[f2] == phys0[f2]);
        }
    }

    assert forall|j: int| 0 <= j < i + 1 implies exists|f: int, k: int|
        0 <= f < phys1.len() && 0 <= k < phys1[f]@.subpasses.len() && phys1[f]@.subpasses[k] == (
        #[trigger] order[j]) by {
        if j == i {
            assert(phys1[fnew]@.subpasses[0] == order[j]);
        } else {
            let (f, k) = choose|f: int, k: int|
                0 <= f < phys0.len() && 0 <= k < phys0[f]@.subpasses.len()
                    && phys0[f]@.subpasses[k] == (#[trigger] order[j]);
            assert(phys1[f]@.subpasses[k] == order[j]);
        }
    }

    assert forall|f: int, k: int|
        0 <= f < phys1.len() && 0 <= k < phys1[f]@.external_dependencies.len() implies {
        let d = #[trigger] phys1[f]@.external_dependencies[k];
        &&& exists|e: int| 0 <= e < edges.len() && spec_edge_matches(#[trigger] edges[e], d)
        &&& spec_requires_external_sync(d.usage)
    } by {
        if f != fnew {
            assert(phys1[f] == phys0[f]);
            assert({
                let d = phys0[f]@.external_dependencies[k];
                &&& exists|e: int| 0 <= e < edges.len() && spec_edge_matches(
                    #[trigger] edges[e],
                    d,
                )
                &&& spec_requires_external_sync(d.usage)
            });
        } else {
            let d = pp1@.external_dependencies[k];
            let e = choose|e: int| 0 <= e < edges.len() && #[trigger] edges[e] == d;
            assert(spec_edge_matches(edges[e], d));
        }
    }

    assert forall|f: int, k: int, e: int|
        0 <= f < phys1.len() && 0 <= k < phys1[f]@.subpasses.len() && 0 <= e < edges.len() && (
        #[trigger] edges[e]).dst == (#[trigger] phys1[f]@.subpasses[k])
            && spec_requires_external_sync(edges[e].usage) implies spec_src_in(
        phys1[f]@.external_dependencies,
        edges[e].src,
    ) by {
        if f == fnew {
            assert(edges[e].dst == order[i]);
        } else {
            assert(phys1[f] == phys0[f]);
            assert(spec_src_in(phys0[f]@.external_dependencies, edges[e].src));
        }
    }

    assert forall|f: int, k: int, e: int|
        0 <= f < phys1.len() && 1 <= k < phys1[f]@.subpasses.len() && 0 <= e < edges.len() && (
        #[trigger] edges[e]).dst == (#[trigger] phys1[f]@.subpasses[k])
            && !spec_requires_external_sync(edges[e].usage) implies phys1[f]@.subpasses.contains(
        edges[e].src,
    ) by {
        if f == fnew {
            assert(false);
        } else {
            assert(phys1[f] == phys0[f]);
            assert(phys0[f]@.subpasses.contains(edges[e].src));
        }
    }

    assert forall|f: int, e: int|
        0 <= f < phys1.len() && 0 <= e < edges.len() && spec_requires_external_sync(
            (#[trigger] edges[e]).usage,
        ) implies !((#[trigger] phys1[f]@).subpasses.contains(edges[e].dst)
        && phys1[f]@.subpasses.contains(edges[e].src)) by {
        if f == fnew {
            if phys1[f]@.subpasses.contains(edges[e].dst) && phys1[f]@.subpasses.contains(
                edges[e].src,
            ) {
                // a self-edge on the current pass would need the pass to be
                // scheduled before itself
                assert(edges[e].dst == p && edges[e].src == p);
                assert(edges[e].dst == order[i]);
                let j2 = choose|j2: int| 0 <= j2 < i && order[j2] == edges[e].src;
                assert(order[j2] == order[i]);
                assert(false);
            }
        } else {
            assert(phys1[f] == phys0[f]);
            assert(!(phys0[f]@.subpasses.contains(edges[e].dst)
                && phys0[f]@.subpasses.contains(edges[e].src)));
        }
    }

    assert forall|f: int| 0 <= f < phys1.len() implies (#[trigger] phys1[f]@).subpasses.len()
        >= 1 by {
        if f != fnew {
            assert(phys1[f] == phys0[f]);
            assert(phys0[f]@.subpasses.len() >= 1);
        }
    }
}

/// Like [`spec_internal_deps_inside`], for every subpass including each
/// group's first: every colour-only dependency of every subpass is
/// satisfied within its group.
pub open spec fn spec_internal_deps_inside_all(
    edges: Seq<DepEdge>,
    phys: Seq<PhysicalPass>,
) -> bool {
    forall|f: int, k: int, e: int|
        0 <= f < phys.len() && 0 <= k < phys[f]@.subpasses.len() && 0 <= e < edges.len() && (
        #[trigger] edges[e]).dst == (#[trigger] phys[f]@.subpasses[k])
            && !spec_requires_external_sync(edges[e].usage) ==> phys[f]@.subpasses.contains(
            edges[e].src,
        )
}

/// The grouping properties read only the shape of the edge table, so they
/// survive any change of the scratch flags.
pub proof fn lemma_grouping_same_shape(
    edges1: Seq<DepEdge>,
    edges2: Seq<DepEdge>,
    phys: Seq<PhysicalPass>,
)
    requires
        crate::graph::spec_same_shape(edges1, edges2),
        spec_ext_deps_valid(edges1, phys),
        spec_ext_deps_cover(edges1, phys),
        spec_internal_deps_inside(edges1, phys),
        spec_no_ext_edge_inside(edges1, phys),
    ensures
        spec_ext_deps_valid(edges2, phys),
        spec_ext_deps_cover(edges2, phys),
        spec_internal_deps_inside(edges2, phys),
        spec_no_ext_edge_inside(edges2, phys),
{
    assert forall|f: int, k: int|
        0 <= f < phys.len() && 0 <= k < phys[f]@.external_dependencies.len() implies {
        let d = #[trigger] phys[f]@.external_dependencies[k];
        &&& exists|e: int| 0 <= e < edges2.len() && spec_edge_matches(#[trigger] edges2[e], d)
        &&& spec_requires_external_sync(d.usage)
    } by {
        let d = phys[f]@.external_dependencies[k];
        let e = choose|e: int| 0 <= e < edges1.len() && spec_edge_matches(#[trigger] edges1[e], d);
        assert(spec_edge_matches(edges2[e], d));
    }
    assert forall|f: int, k: int, e: int|
        0 <= f < phys.len() && 0 <= k < phys[f]@.subpasses.len() && 0 <= e < edges2.len() && (
        #[trigger] edges2[e]).dst == (#[trigger] phys[f]@.subpasses[k])
            && spec_requires_external_sync(edges2[e].usage) implies spec_src_in(
        phys[f]@.external_dependencies,
        edges2[e].src,
    ) by {
        assert(edges1[e].dst == edges2[e].dst && edges1[e].usage == edges2[e].usage
            && edges1[e].src == edges2[e].src);
        assert(spec_src_in(phys[f]@.external_dependencies, edges1[e].src));
    }
    assert forall|f: int, k: int, e: int|
        0 <= f < phys.len() && 1 <= k < phys[f]@.subpasses.len() && 0 <= e < edges2.len() && (
        #[trigger] edges2[e]).dst == (#[trigger] phys[f]@.subpasses[k])
            && !spec_requires_external_sync(edges2[e].usage) implies phys[f]@.subpasses.contains(
        edges2[e].src,
    ) by {
        assert(edges1[e].dst == edges2[e].dst && edges1[e].usage == edges2[e].usage
            && edges1[e].src == edges2[e].src);
        assert(phys[f]@.subpasses.contains(edges1[e].src));
    }
    assert forall|f: int, e: int|
        0 <= f < phys.len() && 0 <= e < edges2.len() && spec_requires_external_sync(
            (#[trigger] edges2[e]).usage,
        ) implies !((#[trigger] phys[f]@).subpasses.contains(edges2[e].dst)
        && phys[f]@.subpasses.contains(edges2[e].src)) by {
        assert(edges1[e].dst == edges2[e].dst && edges1[e].usage == edges2[e].usage
            && edges1[e].src == edges2[e].src);
        assert(!(phys[f]@.subpasses.contains(edges1[e].dst) && phys[f]@.subpasses.contains(
            edges1[e].src,
        )));
    }
}

/// The merge target among the first `f` groups: the accepting group with
/// the highest merge score, the later of equals, or nothing when none
/// accepts the pass.
pub open spec fn spec_find_target(
    edges: Seq<DepEdge>,
    phys: Seq<PhysicalPassView>,
    p: int,
    f: int,
) -> Option<int>
    decreases f,
{
    if f <= 0 {
        None
    } else {
        let prev = spec_find_target(edges, phys, p, f - 1);
        if spec_candidate(edges, phys[f - 1], p) {
            match prev {
                None => Some(f - 1),
                Some(b) => if spec_merge_score_upto(edges, phys[f - 1], p, edges.len() as int)
                    >= spec_merge_score_upto(edges, phys[b], p, edges.len() as int) {
                    Some(f - 1)
                } else {
                    Some(b)
                },
            }
        } else {
            prev
        }
    }
}

/// Scans the existing groups in insertion order and returns the accepting
/// group with the highest merge score, preferring the later of equals, or
/// nothing when no group accepts the pass.
fn find_merge_target(g: &DepGraph, phys: &Vec<PhysicalPass>, p: usize) -> (r: Option<usize>)
    requires
        g.wf(),
        p < g.n_nodes,
        forall|f: int, k: int|
            0 <= f < phys@.len() && 0 <= k < phys@[f]@.subpasses.len() ==> (
            #[trigger] phys@[f]@.subpasses[k]) < g.n_nodes,
    ensures
        ({
            let spec_r = spec_find_target(
                g.edges@,
                phys@.map_values(|pp: PhysicalPass| pp@),
                p as int,
                phys@.len() as int,
            );
            match r {
                Some(f) => spec_r == Some(f as int),
                None => spec_r is None,
            }
        }),
        match r {
            Some(f) => {
                &&& f < phys@.len()
                &&& spec_candidate(g.edges@, phys@[f as int]@, p as int)
                &&& forall|f2: int|
                    0 <= f2 < phys@.len() && spec_candidate(
                        g.edges@,
                        (#[trigger] phys@[f2])@,
                        p as int,
                    ) ==> spec_merge_score_upto(
                        g.edges@,
                        phys@[f2]@,
                        p as int,
                        g.edges@.len() as int,
                    ) <= spec_merge_score_upto(
                        g.edges@,
                        phys@[f as int]@,
                        p as int,
                        g.edges@.len() as int,
                    )
            },
            None => forall|f: int|
                0 <= f < phys@.len() ==> !spec_candidate(
                    g.edges@,
                    (#[trigger] phys@[f])@,
                    p as int,
                ),
        },
{
    let ghost views = phys@.map_values(|pp: PhysicalPass| pp@);
    let n_phys = phys.len();
    let mut best: usize = 0;
    let mut best_score: usize = 0;
    let mut found = false;
    for f in 0..n_phys
        invariant
            g.wf(),
            p < g.n_nodes,
            n_phys == phys@.len(),
            views == phys@.map_values(|pp: PhysicalPass| pp@),
            forall|ff: int, k: int|
                0 <= ff < phys@.len() && 0 <= k < phys@[ff]@.subpasses.len() ==> (
                #[trigger] phys@[ff]@.subpasses[k]) < g.n_nodes,
            found ==> best < n_phys && spec_candidate(g.edges@, phys@[best as int]@, p as int)
                && best_score == spec_merge_score_upto(
                g.edges@,
                phys@[best as int]@,
                p as int,
                g.edges@.len() as int,
            ),
            forall|f2: int|
                0 <= f2 < f && spec_candidate(g.edges@, (#[trigger] phys@[f2])@, p as int) ==> found
                    && spec_merge_score_upto(g.edges@, phys@[f2]@, p as int, g.edges@.len() as int)
                    <= best_score,
            !found ==> spec_find_target(g.edges@, views, p as int, f as int) is None,
            found ==> spec_find_target(g.edges@, views, p as int, f as int) == Some(best as int),
    {
        proof {
            assert(views[f as int] == phys@[f as int]@);
        }
        if is_candidate(g, &phys[f], p) {
            let sc = merge_score(g, &phys[f], p);
            if !found || sc >= best_score {
                best = f;
                best_score = sc;
                found = true;
            }
        }
        proof {
            if found {
                assert(views[best as int] == phys@[best as int]@);
                assert(spec_find_target(g.edges@, views, p as int, f as int + 1) == Some(
                    best as int,
                ));
            } else {
                assert(spec_find_target(g.edges@, views, p as int, f as int + 1) is None);
            }
        }
    }
    if found {
        Some(best)
    } else {
        None
    }
}

/// One merger step: the pass joins its merge target, or opens a fresh
/// group holding it alone.
pub open spec fn spec_merge_step(
    edges: Seq<DepEdge>,
    phys: Seq<PhysicalPassView>,
    p: int,
) -> Seq<PhysicalPassView> {
    match spec_find_target(edges, phys, p, phys.len() as int) {
        Some(b) => phys.update(b, spec_add_subpass(edges, phys[b], p)),
        None => phys.push(
            spec_add_subpass(
                edges,
                PhysicalPassView {
                    subpasses: Seq::empty(),
                    external_dependencies: Seq::empty(),
                },
                p,
            ),
        ),
    }
}

/// The grouping after walking the first `i` scheduled passes.
pub open spec fn spec_merge_upto(edges: Seq<DepEdge>, order: Seq<usize>, i: int) -> Seq<
    PhysicalPassView,
>
    decreases i,
{
    if i <= 0 {
        Seq::empty()
    } else {
        spec_merge_step(edges, spec_merge_upto(edges, order, i - 1), order[i - 1] as int)
    }
}

/// The whole grouping: a function of the edge table and the scheduled order
/// alone, so rebuilding from the same description and schedule yields the
/// same physical passes.
pub open spec fn spec_merge(edges: Seq<DepEdge>, order: Seq<usize>) -> Seq<PhysicalPassView> {
    spec_merge_upto(edges, order, order.len() as int)
}

/// Replacing one group of an exec grouping replaces one view of its image.
proof fn lemma_views_update(
    phys0: Seq<PhysicalPass>,
    phys1: Seq<PhysicalPass>,
    pp1: PhysicalPass,
    best: int,
)
    requires
        phys1.len() == phys0.len(),
        0 <= best < phys0.len(),
        forall|t: int| 0 <= t < phys0.len() && t != best ==> phys1[t] == phys0[t],
        phys1[best] == pp1,
    ensures
        phys1.map_values(|pp: PhysicalPass| pp@) == phys0.map_values(
            |pp: PhysicalPass| pp@,
        ).update(best, pp1@),
{
    assert(phys1.map_values(|pp: PhysicalPass| pp@) =~= phys0.map_values(
        |pp: PhysicalPass| pp@,
    ).update(best, pp1@));
}

/// Appending a group appends its view to the grouping's image.
proof fn lemma_views_push(phys0: Seq<PhysicalPass>, phys1: Seq<PhysicalPass>, pp1: PhysicalPass)
    requires
        phys1.len() == phys0.len() + 1,
        forall|t: int| 0 <= t < phys0.len() ==> phys1[t] == phys0[t],
        phys1[phys0.len() as int] == pp1,
    ensures
        phys1.map_values(|pp: PhysicalPass| pp@) == phys0.map_values(
            |pp: PhysicalPass| pp@,
        ).push(pp1@),
{
    assert(phys1.map_values(|pp: PhysicalPass| pp@) =~= phys0.map_values(
        |pp: PhysicalPass| pp@,
    ).push(pp1@));
}

/// Groups the scheduled passes greedily into physical passes. Each pass
/// joins the best group that accepts it, or opens a fresh group of its own,
/// so that each scheduled pass ends up in exactly one group's subpass list,
/// colour-only dependencies of merged passes stay inside their group, and
/// externally synchronised dependencies are recorded once per source on the
/// group and never join two subpasses of one group.
#[verifier::rlimit(60)]
pub fn merge_passes(g: &DepGraph, order: &Vec<usize>) -> (phys: Vec<PhysicalPass>)
    requires
        g.wf(),
        forall|i: int| 0 <= i < order@.len() ==> (#[trigger] order@[i]) < g.n_nodes,
        forall|i: int, j: int| 0 <= i < j < order@.len() ==> order@[i] != order@[j],
        spec_respects_deps(g.edges@, order@),
    ensures
        phys@.map_values(|pp: PhysicalPass| pp@) == spec_merge(g.edges@, order@),
        spec_subpasses_from(order@, phys@, order@.len() as int),
        spec_each_pass_at_most_once(phys@),
        spec_covers_prefix(order@, phys@, order@.len() as int),
        spec_ext_deps_valid(g.edges@, phys@),
        spec_ext_deps_cover(g.edges@, phys@),
        spec_internal_deps_inside(g.edges@, phys@),
        spec_no_ext_edge_inside(g.edges@, phys@),
        spec_groups_nonempty(phys@),
{
    let n_order = order.len();
    let mut phys: Vec<PhysicalPass> = Vec::new();
    for i in 0..n_order
        invariant
            g.wf(),
            n_order == order@.len(),
            forall|t: int| 0 <= t < order@.len() ==> (#[trigger] order@[t]) < g.n_nodes,
            forall|t: int, j: int| 0 <= t < j < order@.len() ==> order@[t] != order@[j],
            spec_respects_deps(g.edges@, order@),
            phys@.map_values(|pp: PhysicalPass| pp@) == spec_merge_upto(
                g.edges@,
                order@,
                i as int,
            ),
            spec_subpasses_from(order@, phys@, i as int),
            spec_each_pass_at_most_once(phys@),
            spec_covers_prefix(order@, phys@, i as int),
            spec_ext_deps_valid(g.edges@, phys@),
            spec_ext_deps_cover(g.edges@, phys@),
            spec_internal_deps_inside(g.edges@, phys@),
            spec_no_ext_edge_inside(g.edges@, phys@),
            spec_groups_nonempty(phys@),
    {
        let p = order[i];
        proof {
            assert forall|f: int, k: int|
                0 <= f < phys@.len() && 0 <= k < phys@[f]@.subpasses.len() implies (
            #[trigger] phys@[f]@.subpasses[k]) < g.n_nodes by {
                let j = choose|j: int|
                    0 <= j < i && order@[j] == #[trigger] phys@[f]@.subpasses[k];
            }
            // the current pass occupies no existing slot
            assert forall|f: int, k: int|
                0 <= f < phys@.len() && 0 <= k < phys@[f]@.subpasses.len() implies (
            #[trigger] phys@[f]@.subpasses[k]) != p by {
                let j = choose|j: int|
                    0 <= j < i && order@[j] == #[trigger] phys@[f]@.subpasses[k];
            }
        }
        let target = find_merge_target(g, &phys, p);
        let ghost phys0 = phys@;
        match target {
            Some(best) => {
                let mut pp = phys.remove(best);
                let ghost pp0 = pp;
                pp.add_subpass(g, p);
                let ghost pp1 = pp;
                phys.insert(best, pp);
                proof {
                    assert(pp0 == phys0[best as int]);
                    assert(phys@.len() == phys0.len());
                    assert forall|t: int|
                        0 <= t < phys0.len() && t != best implies phys@[t] == phys0[t] by {
                        if t < best {
                        } else {
                        }
                    }
                    assert(phys@[best as int] == pp1);
                    let views0 = phys0.map_values(|pp: PhysicalPass| pp@);
                    lemma_views_update(phys0, phys@, pp1, best as int);
                    assert(views0[best as int] == pp0@);
                    assert(pp1@ == spec_add_subpass(g.edges@, views0[best as int], p as int));
                    assert(spec_find_target(g.edges@, views0, p as int, views0.len() as int)
                        == Some(best as int));
                    assert(phys@.map_values(|pp: PhysicalPass| pp@) == spec_merge_step(
                        g.edges@,
                        views0,
                        p as int,
                    ));
                    lemma_merge_step(
                        g.edges@,
                        order@,
                        phys0,
                        phys@,
                        pp0,
                        pp1,
                        best as int,
                        i as int,
                    );
                }
            },
            None => {
                let mut pp = PhysicalPass {
                    subpasses: Vec::new(),
                    external_dependencies: Vec::new(),
                };
                let ghost ppe = pp;
                pp.add_subpass(g, p);
                let ghost pp1 = pp;
                phys.push(pp);
                proof {
                    assert(ppe@.subpasses =~= Seq::<usize>::empty());
                    assert(ppe@.external_dependencies.len() == 0);
                    assert(phys@ == phys0.push(pp1));
                    assert(phys@[phys0.len() as int] == pp1);
                    assert(pp1@.subpasses =~= Seq::<usize>::empty().push(p));
                    let views0 = phys0.map_values(|pp: PhysicalPass| pp@);
                    lemma_views_push(phys0, phys@, pp1);
                    assert(ppe@ =~= (PhysicalPassView {
                        subpasses: Seq::empty(),
                        external_dependencies: Seq::empty(),
                    }));
                    assert(pp1@ == spec_add_subpass(g.edges@, ppe@, p as int));
                    assert(spec_find_target(g.edges@, views0, p as int, views0.len() as int)
                        is None);
                    assert(phys@.map_values(|pp: PhysicalPass| pp@) == spec_merge_step(
                        g.edges@,
                        views0,
                        p as int,
                    ));
                    lemma_new_group_step(g.edges@, order@, phys0, phys@, pp1, i as int);
                }
            },
        }
    }
    phys
}

} // verus!
