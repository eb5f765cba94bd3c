//! The dependency graph: pass nodes and the write-to-read edges between them.
//!
//! A node is a pass, identified by its index in the description. An edge
//! records that the destination pass consumes an attachment that the source
//! pass writes, together with the attachment, the usage the read implies,
//! and the scheduler's scratch flag `is_edge`. Edges live in one table; a
//! node's dependency list is the set of edges whose destination it is, and
//! its dependent list the set of edges whose source it is.

use vstd::prelude::*;

use crate::description::BuilderView;
use crate::description::RendererBuilder;
use crate::formats::UsageKind;

verus! {

/// One dependency edge: pass `dst` consumes, through `attachment`, data that
/// pass `src` produced. `is_edge` is scheduler scratch, true until the edge
/// has been satisfied by scheduling `src`.
#[derive(Clone, Copy, PartialEq, Eq, Structural, Debug)]
pub struct DepEdge {
    pub src: usize,
    pub dst: usize,
    pub attachment: usize,
    pub usage: UsageKind,
    pub is_edge: bool,
}

/// The directed graph of pass nodes. Node `i` stands for pass `i` of the
/// description the graph was derived from.
pub struct DepGraph {
    /// Number of pass nodes; every edge endpoint lies below it.
    pub n_nodes: usize,
    /// The dependency edges, grouped by destination pass in pass order.
    pub edges: Vec<DepEdge>,
}

/// Node `a` depends on node `b` through a chain of at most `k` dependency
/// edges (every node depends on itself).
pub open spec fn spec_depends_within(edges: Seq<DepEdge>, a: int, b: int, k: nat) -> bool
    decreases k,
{
    a == b || (k > 0 && exists|e: int|
        0 <= e < edges.len() && edges[e].dst == a && spec_depends_within(
            edges,
            edges[e].src as int,
            b,
            (k - 1) as nat,
        ))
}

/// Node `a` depends on node `b`: b == a, or some chain of dependency edges
/// leads from `a` back to `b`.
pub open spec fn spec_depends(edges: Seq<DepEdge>, a: int, b: int) -> bool {
    exists|k: nat| spec_depends_within(edges, a, b, k)
}

/// The graph contains a dependency cycle: some edge's source transitively
/// depends on its own destination.
pub open spec fn spec_has_cycle(edges: Seq<DepEdge>) -> bool {
    exists|e: int|
        0 <= e < edges.len() && spec_depends(edges, edges[e].src as int, edges[e].dst as int)
}

/// All of node `a`'s incoming dependency edges have been satisfied.
pub open spec fn spec_is_independent(edges: Seq<DepEdge>, a: int) -> bool {
    forall|e: int| 0 <= e < edges.len() && edges[e].dst == a ==> !(#[trigger] edges[e]).is_edge
}

/// Dependence is reflexive.
pub proof fn lemma_depends_refl(edges: Seq<DepEdge>, a: int)
    ensures
        spec_depends(edges, a, a),
{
    assert(spec_depends_within(edges, a, a, 0));
}

/// Dependence extends along an edge at the near end: if edge `e` enters `a`
/// and `e`'s source depends on `b`, then `a` depends on `b`.
pub proof fn lemma_depends_step(edges: Seq<DepEdge>, e: int, b: int)
    requires
        0 <= e < edges.len(),
        spec_depends(edges, edges[e].src as int, b),
    ensures
        spec_depends(edges, edges[e].dst as int, b),
{
    let k = choose|k: nat| spec_depends_within(edges, edges[e].src as int, b, k);
    assert(spec_depends_within(edges, edges[e].dst as int, b, k + 1));
}

/// Dependence is transitive.
pub proof fn lemma_depends_trans(edges: Seq<DepEdge>, a: int, b: int, c: int)
    requires
        spec_depends(edges, a, b),
        spec_depends(edges, b, c),
    ensures
        spec_depends(edges, a, c),
{
    let k = choose|k: nat| spec_depends_within(edges, a, b, k);
    lemma_depends_within_trans(edges, a, b, c, k);
}

proof fn lemma_depends_within_trans(edges: Seq<DepEdge>, a: int, b: int, c: int, k: nat)
    requires
        spec_depends_within(edges, a, b, k),
        spec_depends(edges, b, c),
    ensures
        spec_depends(edges, a, c),
    decreases k,
{
    if a == b {
    } else {
        let e = choose|e: int|
            0 <= e < edges.len() && edges[e].dst == a && spec_depends_within(
                edges,
                edges[e].src as int,
                b,
                (k - 1) as nat,
            );
        lemma_depends_within_trans(edges, edges[e].src as int, b, c, (k - 1) as nat);
        lemma_depends_step(edges, e, c);
    }
}

/// Dependence reads only the shape of the edge table (sources and
/// destinations); the scratch flags, attachments and usages do not matter.
pub proof fn lemma_depends_same_shape(edges1: Seq<DepEdge>, edges2: Seq<DepEdge>, a: int, b: int)
    requires
        edges1.len() == edges2.len(),
        forall|e: int|
            0 <= e < edges1.len() ==> (#[trigger] edges2[e]).src == edges1[e].src && edges2[e].dst
                == edges1[e].dst,
        spec_depends(edges1, a, b),
    ensures
        spec_depends(edges2, a, b),
{
    let k = choose|k: nat| spec_depends_within(edges1, a, b, k);
    lemma_depends_within_same_shape(edges1, edges2, a, b, k);
}

proof fn lemma_depends_within_same_shape(
    edges1: Seq<DepEdge>,
    edges2: Seq<DepEdge>,
    a: int,
    b: int,
    k: nat,
)
    requires
        edges1.len() == edges2.len(),
        forall|e: int|
            0 <= e < edges1.len() ==> (#[trigger] edges2[e]).src == edges1[e].src && edges2[e].dst
                == edges1[e].dst,
        spec_depends_within(edges1, a, b, k),
    ensures
        spec_depends_within(edges2, a, b, k),
    decreases k,
{
    if a == b {
    } else {
        let e = choose|e: int|
            0 <= e < edges1.len() && edges1[e].dst == a && spec_depends_within(
                edges1,
                edges1[e].src as int,
                b,
                (k - 1) as nat,
            );
        lemma_depends_within_same_shape(edges1, edges2, edges1[e].src as int, b, (k - 1) as nat);
        assert(0 <= e < edges2.len() && edges2[e].dst == a && spec_depends_within(
            edges2,
            edges2[e].src as int,
            b,
            (k - 1) as nat,
        ));
    }
}

/// Two edge tables have the same shape: equal length and pointwise equal
/// sources, destinations, attachments and usages. Only the scratch flags may
/// differ.
pub open spec fn spec_same_shape(edges1: Seq<DepEdge>, edges2: Seq<DepEdge>) -> bool {
    &&& edges1.len() == edges2.len()
    &&& forall|e: int|
        0 <= e < edges1.len() ==> (#[trigger] edges2[e]).src == edges1[e].src && edges2[e].dst
            == edges1[e].dst && edges2[e].attachment == edges1[e].attachment && edges2[e].usage
            == edges1[e].usage
}

/// Cycles survive any change that keeps the edge shape.
pub proof fn lemma_has_cycle_same_shape(edges1: Seq<DepEdge>, edges2: Seq<DepEdge>)
    requires
        spec_same_shape(edges1, edges2),
        spec_has_cycle(edges1),
    ensures
        spec_has_cycle(edges2),
{
    let e = choose|e: int|
        0 <= e < edges1.len() && spec_depends(edges1, edges1[e].src as int, edges1[e].dst as int);
    lemma_depends_same_shape(edges1, edges2, edges1[e].src as int, edges1[e].dst as int);
    assert(edges2[e].src == edges1[e].src && edges2[e].dst == edges1[e].dst);
    assert(spec_depends(edges2, edges2[e].src as int, edges2[e].dst as int));
}

/// How many entries of a boolean sequence are set.
pub open spec fn spec_count_true(s: Seq<bool>) -> nat
    decreases s.len(),
{
    if s.len() == 0 {
        0
    } else {
        spec_count_true(s.drop_last()) + if s.last() {
            1nat
        } else {
            0nat
        }
    }
}

/// No more entries are set than the sequence has.
pub proof fn lemma_count_true_le(s: Seq<bool>)
    ensures
        spec_count_true(s) <= s.len(),
    decreases s.len(),
{
    if s.len() > 0 {
        lemma_count_true_le(s.drop_last());
    }
}

/// A sequence with no set entry counts zero.
pub proof fn lemma_count_true_none(s: Seq<bool>)
    requires
        forall|i: int| 0 <= i < s.len() ==> !s[i],
    ensures
        spec_count_true(s) == 0,
    decreases s.len(),
{
    if s.len() > 0 {
        lemma_count_true_none(s.drop_last());
    }
}

/// A sequence with a clear entry has fewer set entries than its length.
pub proof fn lemma_count_true_lt(s: Seq<bool>, i: int)
    requires
        0 <= i < s.len(),
        !s[i],
    ensures
        spec_count_true(s) < s.len(),
    decreases s.len(),
{
    if i == s.len() - 1 {
        lemma_count_true_le(s.drop_last());
    } else {
        lemma_count_true_lt(s.drop_last(), i);
    }
}

/// Setting a clear entry raises the count by one.
pub proof fn lemma_count_true_set(s: Seq<bool>, i: int)
    requires
        0 <= i < s.len(),
        !s[i],
    ensures
        spec_count_true(s.update(i, true)) == spec_count_true(s) + 1,
    decreases s.len(),
{
    let s2 = s.update(i, true);
    if i == s.len() - 1 {
        assert(s2.drop_last() =~= s.drop_last());
    } else {
        assert(s2.drop_last() =~= s.drop_last().update(i, true));
        lemma_count_true_set(s.drop_last(), i);
    }
}

/// The dependency edges induced for pass `p` by consuming attachment `a`
/// with usage `usage`: one fresh edge per writer of `a`, in writer order.
pub open spec fn spec_writer_edges(writers: Seq<usize>, p: int, a: int, usage: UsageKind) -> Seq<
    DepEdge,
> {
    writers.map_values(
        |w: usize|
            DepEdge {
                src: w,
                dst: p as usize,
                attachment: a as usize,
                usage,
                is_edge: true,
            },
    )
}

/// The dependency edges induced for pass `p` by its first `i` input
/// attachments.
pub open spec fn spec_input_edges_upto(b: BuilderView, p: int, i: int) -> Seq<DepEdge>
    decreases i,
{
    if i <= 0 {
        Seq::empty()
    } else {
        spec_input_edges_upto(b, p, i - 1) + spec_writer_edges(
            b.attachments[b.passes[p].color_inputs[i - 1] as int].writers,
            p,
            b.passes[p].color_inputs[i - 1] as int,
            UsageKind::InputAttachment,
        )
    }
}

/// All dependency edges of pass `p`: one per writer of each input
/// attachment, then one per writer of the depth input, if any.
pub open spec fn spec_pass_edges(b: BuilderView, p: int) -> Seq<DepEdge> {
    spec_input_edges_upto(b, p, b.passes[p].color_inputs.len() as int) + (
    match b.passes[p].depth_input {
        Some(a) => spec_writer_edges(
            b.attachments[a as int].writers,
            p,
            a as int,
            UsageKind::DepthStencil,
        ),
        None => Seq::empty(),
    })
}

/// The dependency edges of the first `p` passes, in pass order.
pub open spec fn spec_edges_upto(b: BuilderView, p: int) -> Seq<DepEdge>
    decreases p,
{
    if p <= 0 {
        Seq::empty()
    } else {
        spec_edges_upto(b, p - 1) + spec_pass_edges(b, p - 1)
    }
}

/// Every dependency edge a description induces: for each pass, for each
/// attachment it consumes, one edge from each writer of that attachment.
pub open spec fn spec_edges_of(b: BuilderView) -> Seq<DepEdge> {
    spec_edges_upto(b, b.passes.len() as int)
}

impl DepGraph {
    /// Every edge endpoint names a pass node.
    pub open spec fn wf(self) -> bool {
        forall|e: int|
            0 <= e < self.edges@.len() ==> (#[trigger] self.edges@[e]).src < self.n_nodes
                && self.edges@[e].dst < self.n_nodes
    }

    /// Whether all of node `a`'s dependency edges have been satisfied, that
    /// is, carry a cleared `is_edge` flag. A node with no incoming edges is
    /// independent from the start.
    pub fn is_independent(&self, a: usize) -> (r: bool)
        ensures
            r == spec_is_independent(self.edges@, a as int),
    {
        let n_edges = self.edges.len();
        for e in 0..n_edges
            invariant
                n_edges == self.edges@.len(),
                forall|i: int|
                    0 <= i < e && self.edges@[i].dst == a ==> !(#[trigger] self.edges@[i]).is_edge,
        {
            let edge = self.edges[e];
            if edge.dst == a && edge.is_edge {
                return false;
            }
        }
        true
    }

    /// Whether node `a` transitively depends on node `b`, walking dependency
    /// edges from consumers back to producers. Every node depends on itself.
    pub fn depends_on(&self, a: usize, b: usize) -> (r: bool)
        requires
            self.wf(),
            a < self.n_nodes,
            b < self.n_nodes,
        ensures
            r == spec_depends(self.edges@, a as int, b as int),
    {
        let n = self.n_nodes;
        let mut visited: Vec<bool> = vec![false; n];
        let mut stack: Vec<usize> = Vec::new();
        visited[a] = true;
        stack.push(a);
        proof {
            lemma_depends_refl(self.edges@, a as int);
            lemma_count_true_le(visited@);
            assert(stack@.contains(a)) by {
                assert(stack@[0] == a);
            }
        }
        while stack.len() > 0
            invariant
                self.wf(),
                a < n,
                b < n,
                n == self.n_nodes,
                visited@.len() == n,
                visited@[a as int],
                spec_count_true(visited@) <= n,
                forall|i: int| 0 <= i < stack@.len() ==> (#[trigger] stack@[i]) < n,
                forall|i: int| 0 <= i < stack@.len() ==> visited@[#[trigger] stack@[i] as int],
                forall|m: int|
                    0 <= m < n && visited@[m] ==> spec_depends(self.edges@, a as int, m),
                forall|e: int|
                    0 <= e < self.edges@.len() && visited@[(#[trigger] self.edges@[e]).dst as int]
                        && !stack@.contains(self.edges@[e].dst) ==> visited@[
                        self.edges@[e].src as int
                    ],
            decreases 2 * (n - spec_count_true(visited@)) + stack@.len(),
        {
            let ghost visited_before = visited@;
            let ghost stack_pre = stack@;
            let ghost stack_len_before = stack@.len();
            let node = stack.pop().unwrap();
            proof {
                assert(stack_pre =~= stack@.push(node));
                assert forall|x: usize| #[trigger] stack_pre.contains(x) implies stack@.contains(x)
                    || x == node by {
                    let i = choose|i: int| 0 <= i < stack_pre.len() && stack_pre[i] == x;
                    if i < stack@.len() {
                        assert(stack@[i] == x);
                    }
                }
                assert forall|ee: int|
                    0 <= ee < self.edges@.len() && (#[trigger] self.edges@[ee]).dst != node
                        && visited@[self.edges@[ee].dst as int] && !stack@.contains(
                        self.edges@[ee].dst,
                    ) implies visited@[self.edges@[ee].src as int] by {
                    assert(!stack_pre.contains(self.edges@[ee].dst));
                }
            }
            let n_edges = self.edges.len();
            for e in 0..n_edges
                invariant
                    self.wf(),
                    a < n,
                    b < n,
                    n == self.n_nodes,
                    n_edges == self.edges@.len(),
                    node < n,
                    visited@.len() == n,
                    visited@[a as int],
                    visited@[node as int],
                    spec_count_true(visited@) <= n,
                    2 * (n - spec_count_true(visited@)) + stack@.len() <= 2 * (n
                        - spec_count_true(visited_before)) + stack_len_before - 1,
                    forall|i: int| 0 <= i < stack@.len() ==> (#[trigger] stack@[i]) < n,
                    forall|i: int| 0 <= i < stack@.len() ==> visited@[#[trigger] stack@[i] as int],
                    forall|m: int|
                        0 <= m < n && visited@[m] ==> spec_depends(self.edges@, a as int, m),
                    forall|ee: int|
                        0 <= ee < e && (#[trigger] self.edges@[ee]).dst == node ==> visited@[
                            self.edges@[ee].src as int
                        ],
                    forall|ee: int|
                        0 <= ee < self.edges@.len() && (#[trigger] self.edges@[ee]).dst != node
                            && visited@[self.edges@[ee].dst as int] && !stack@.contains(
                            self.edges@[ee].dst,
                        ) ==> visited@[self.edges@[ee].src as int],
            {
                let edge = self.edges[e];
                if edge.dst == node && !visited[edge.src] {
                    proof {
                        lemma_count_true_lt(visited@, edge.src as int);
                        lemma_count_true_set(visited@, edge.src as int);
                        lemma_depends_refl(self.edges@, edge.src as int);
                        lemma_depends_step(self.edges@, e as int, edge.src as int);
                        lemma_depends_trans(
                            self.edges@,
                            a as int,
                            node as int,
                            edge.src as int,
                        );
                    }
                    let ghost stack_old = stack@;
                    let ghost visited_old = visited@;
                    visited[edge.src] = true;
                    stack.push(edge.src);
                    proof {
                        assert forall|x: usize| #[trigger] stack_old.contains(x)
                            implies stack@.contains(x) by {
                            let i = choose|i: int| 0 <= i < stack_old.len() && stack_old[i] == x;
                            assert(stack@[i] == x);
                        }
                        assert(stack@.contains(edge.src)) by {
                            assert(stack@[stack@.len() - 1] == edge.src);
                        }
                    }
                }
            }
        }
        proof {
            if visited@[b as int] {
            } else {
                if spec_depends(self.edges@, a as int, b as int) {
                    let k = choose|k: nat| spec_depends_within(self.edges@, a as int, b as int, k);
                    lemma_closed_set_covers_chains(self.edges@, visited@, a as int, b as int, k);
                }
            }
        }
        visited[b]
    }

    /// Materialises the implicit write-to-read dependencies of a description
    /// into the explicit edge table: for each pass, in pass order, one edge
    /// per writer of each of its input attachments, then one per writer of
    /// its depth input. Every fresh edge carries a set `is_edge` flag and a
    /// usage that demands external synchronisation.
    pub fn from_description(desc: &RendererBuilder) -> (g: DepGraph)
        requires
            desc@.wf(),
        ensures
            g.wf(),
            g.n_nodes == desc@.passes.len(),
            g.edges@ == spec_edges_of(desc@),
            forall|e: int| 0 <= e < g.edges@.len() ==> (#[trigger] g.edges@[e]).is_edge,
            forall|e: int|
                0 <= e < g.edges@.len() ==> crate::formats::spec_requires_external_sync(
                    (#[trigger] g.edges@[e]).usage,
                ),
    {
        let n = desc.num_passes();
        let mut edges: Vec<DepEdge> = Vec::new();
        for p in 0..n
            invariant
                desc@.wf(),
                n == desc@.passes.len(),
                edges@ =~= spec_edges_upto(desc@, p as int),
                forall|e: int|
                    0 <= e < edges@.len() ==> (#[trigger] edges@[e]).src < n && edges@[e].dst < n,
                forall|e: int| 0 <= e < edges@.len() ==> (#[trigger] edges@[e]).is_edge,
                forall|e: int|
                    0 <= e < edges@.len() ==> crate::formats::spec_requires_external_sync(
                        (#[trigger] edges@[e]).usage,
                    ),
        {
            proof {
                assert(desc@.passes[p as int].wf(desc@.attachments.len() as int));
            }
            let inputs = desc.pass_color_inputs(p);
            let n_inputs = inputs.len();
            for i in 0..n_inputs
                invariant
                    desc@.wf(),
                    n == desc@.passes.len(),
                    p < n,
                    inputs@ == desc@.passes[p as int].color_inputs,
                    n_inputs == inputs@.len(),
                    edges@ =~= spec_edges_upto(desc@, p as int) + spec_input_edges_upto(
                        desc@,
                        p as int,
                        i as int,
                    ),
                    forall|e: int|
                        0 <= e < edges@.len() ==> (#[trigger] edges@[e]).src < n && edges@[e].dst
                            < n,
                    forall|e: int| 0 <= e < edges@.len() ==> (#[trigger] edges@[e]).is_edge,
                    forall|e: int|
                        0 <= e < edges@.len() ==> crate::formats::spec_requires_external_sync(
                            (#[trigger] edges@[e]).usage,
                        ),
            {
                proof {
                    assert(desc@.passes[p as int].wf(desc@.attachments.len() as int));
                }
                let a = inputs[i];
                let writers = desc.attachment_writers(a);
                let n_writers = writers.len();
                let ghost edges_base = edges@;
                for w in 0..n_writers
                    invariant
                        desc@.wf(),
                        n == desc@.passes.len(),
                        p < n,
                        a < desc@.attachments.len(),
                        writers@ == desc@.attachments[a as int].writers,
                        n_writers == writers@.len(),
                        edges@ =~= edges_base + spec_writer_edges(
                            writers@.take(w as int),
                            p as int,
                            a as int,
                            UsageKind::InputAttachment,
                        ),
                        forall|e: int|
                            0 <= e < edges@.len() ==> (#[trigger] edges@[e]).src < n
                                && edges@[e].dst < n,
                        forall|e: int| 0 <= e < edges@.len() ==> (#[trigger] edges@[e]).is_edge,
                        forall|e: int|
                            0 <= e < edges@.len() ==> crate::formats::spec_requires_external_sync(
                                (#[trigger] edges@[e]).usage,
                            ),
                {
                    proof {
                        assert(desc@.attachments[a as int].wf(desc@.passes.len() as int));
                    }
                    let src = writers[w];
                    edges.push(
                        DepEdge {
                            src,
                            dst: p,
                            attachment: a,
                            usage: UsageKind::InputAttachment,
                            is_edge: true,
                        },
                    );
                    proof {
                        assert(edges@ =~= edges_base + spec_writer_edges(
                            writers@.take(w as int + 1),
                            p as int,
                            a as int,
                            UsageKind::InputAttachment,
                        ));
                    }
                }
                proof {
                    assert(writers@.take(n_writers as int) =~= writers@);
                    assert(edges@ =~= spec_edges_upto(desc@, p as int) + spec_input_edges_upto(
                        desc@,
                        p as int,
                        i as int + 1,
                    ));
                }
            }
            proof {
                assert(inputs@.len() == desc@.passes[p as int].color_inputs.len());
            }
            if let Some(a) = desc.pass_depth_input(p) {
                let writers = desc.attachment_writers(a);
                let n_writers = writers.len();
                let ghost edges_base = edges@;
                for w in 0..n_writers
                    invariant
                        desc@.wf(),
                        n == desc@.passes.len(),
                        p < n,
                        a < desc@.attachments.len(),
                        writers@ == desc@.attachments[a as int].writers,
                        n_writers == writers@.len(),
                        edges@ =~= edges_base + spec_writer_edges(
                            writers@.take(w as int),
                            p as int,
                            a as int,
                            UsageKind::DepthStencil,
                        ),
                        forall|e: int|
                            0 <= e < edges@.len() ==> (#[trigger] edges@[e]).src < n
                                && edges@[e].dst < n,
                        forall|e: int| 0 <= e < edges@.len() ==> (#[trigger] edges@[e]).is_edge,
                        forall|e: int|
                            0 <= e < edges@.len() ==> crate::formats::spec_requires_external_sync(
                                (#[trigger] edges@[e]).usage,
                            ),
                {
                    proof {
                        assert(desc@.attachments[a as int].wf(desc@.passes.len() as int));
                    }
                    let src = writers[w];
                    edges.push(
                        DepEdge {
                            src,
                            dst: p,
                            attachment: a,
                            usage: UsageKind::DepthStencil,
                            is_edge: true,
                        },
                    );
                    proof {
                        assert(edges@ =~= edges_base + spec_writer_edges(
                            writers@.take(w as int + 1),
                            p as int,
                            a as int,
                            UsageKind::DepthStencil,
                        ));
                    }
                }
                proof {
                    assert(writers@.take(n_writers as int) =~= writers@);
                    assert(edges@ =~= spec_edges_upto(desc@, p as int) + spec_pass_edges(
                        desc@,
                        p as int,
                    ));
                    assert(edges@ =~= spec_edges_upto(desc@, p as int + 1));
                }
            } else {
                proof {
                    assert(spec_pass_edges(desc@, p as int) =~= spec_input_edges_upto(
                        desc@,
                        p as int,
                        desc@.passes[p as int].color_inputs.len() as int,
                    ));
                    assert(edges@ =~= spec_edges_upto(desc@, p as int + 1));
                }
            }
        }
        let g = DepGraph { n_nodes: n, edges };
        proof {
            assert(g.edges@ =~= spec_edges_of(desc@));
        }
        g
    }
}

/// If a set of visited nodes contains `a` and is closed under stepping from
/// a node to the source of any of its dependency edges, it contains every
/// node that `a` transitively depends on.
proof fn lemma_closed_set_covers_chains(
    edges: Seq<DepEdge>,
    visited: Seq<bool>,
    a: int,
    b: int,
    k: nat,
)
    requires
        forall|e: int|
            0 <= e < edges.len() ==> (#[trigger] edges[e]).src < visited.len() && edges[e].dst
                < visited.len(),
        0 <= a < visited.len(),
        visited[a],
        forall|e: int|
            0 <= e < edges.len() && visited[(#[trigger] edges[e]).dst as int] ==> visited[
                edges[e].src as int
            ],
        spec_depends_within(edges, a, b, k),
    ensures
        0 <= b < visited.len() && visited[b],
    decreases k,
{
    if a == b {
    } else {
        let e = choose|e: int|
            0 <= e < edges.len() && edges[e].dst == a && spec_depends_within(
                edges,
                edges[e].src as int,
                b,
                (k - 1) as nat,
            );
        lemma_closed_set_covers_chains(edges, visited, edges[e].src as int, b, (k - 1) as nat);
    }
}

} // verus!
