//! The renderer artifact: the frozen result of compiling a description.
//!
//! `build` runs the whole pipeline — validation, dependency graph
//! construction, scheduling, physical-pass merging — and either returns a
//! complete plan or exactly one diagnostic. The artifact keeps the
//! description it was compiled from, the scheduled pass order, and the
//! physical passes with their subpasses and external dependencies; it is
//! read-only.

use vstd::prelude::*;

use crate::BuildError;
use crate::description::BuilderView;
use crate::description::RendererBuilder;
use crate::description::spec_depth_slots_valid;
use crate::description::spec_pass_names_distinct;
use crate::graph::DepEdge;
use crate::graph::DepGraph;
use crate::graph::spec_edges_of;
use crate::graph::spec_has_cycle;
use crate::merge::PhysicalPass;
use crate::merge::merge_passes;
use crate::merge::spec_covers_prefix;
use crate::merge::spec_each_pass_at_most_once;
use crate::merge::spec_ext_deps_cover;
use crate::merge::spec_ext_deps_valid;
use crate::merge::spec_groups_nonempty;
use crate::merge::spec_internal_deps_inside_all;
use crate::merge::spec_no_ext_edge_inside;
use crate::merge::spec_subpasses_from;
use crate::schedule::schedule_passes;
use crate::schedule::spec_respects_deps;

verus! {

/// The frozen plan for one frame: the scheduled order of the passes and
/// their grouping into physical passes, together with the description they
/// were compiled from.
pub struct Renderer {
    description: RendererBuilder,
    schedule: Vec<usize>,
    physical_passes: Vec<PhysicalPass>,
}

/// Mathematical image of a [`Renderer`].
#[verifier::ext_equal]
pub struct RendererView {
    pub description: BuilderView,
    pub schedule: Seq<usize>,
    pub physical_passes: Seq<PhysicalPass>,
}

impl View for Renderer {
    type V = RendererView;

    closed spec fn view(&self) -> RendererView {
        RendererView {
            description: self.description@,
            schedule: self.schedule@,
            physical_passes: self.physical_passes@,
        }
    }
}

impl Renderer {
    /// The description this plan was compiled from.
    pub fn description(&self) -> (r: &RendererBuilder)
        ensures
            r@ == self@.description,
    {
        &self.description
    }

    /// The scheduled order: pass handles, every pass exactly once, every
    /// dependency source before its consumers.
    pub fn scheduled_order(&self) -> (r: &Vec<usize>)
        ensures
            r@ == self@.schedule,
    {
        &self.schedule
    }

    /// How many physical passes the plan holds.
    pub fn num_physical_passes(&self) -> (n: usize)
        ensures
            n == self@.physical_passes.len(),
    {
        self.physical_passes.len()
    }

    /// The ordered subpasses of one physical pass, as pass handles.
    pub fn physical_subpasses(&self, f: usize) -> (r: &Vec<usize>)
        requires
            f < self@.physical_passes.len(),
        ensures
            r@ == self@.physical_passes[f as int]@.subpasses,
    {
        &self.physical_passes[f].subpasses
    }

    /// The external dependencies of one physical pass: for each, the source
    /// pass, the attachment that induced it and the usage that demands the
    /// synchronisation.
    pub fn physical_external_dependencies(&self, f: usize) -> (r: &Vec<DepEdge>)
        requires
            f < self@.physical_passes.len(),
        ensures
            r@ == self@.physical_passes[f as int]@.external_dependencies,
    {
        &self.physical_passes[f].external_dependencies
    }
}

impl RendererBuilder {
    /// Compiles the description into a frozen plan. Either every stage
    /// succeeds and the returned artifact schedules every pass after all of
    /// its dependency sources and groups the passes into physical passes, or
    /// exactly one diagnostic comes back: a non-depth format in a depth
    /// slot, a pass name collision, or a dependency cycle, checked in that
    /// order. No partial result survives a failure.
    pub fn build(self) -> (r: Result<Renderer, BuildError>)
        requires
            self@.wf(),
        ensures
            r is Ok <==> (spec_depth_slots_valid(self@) && spec_pass_names_distinct(self@)
                && !spec_has_cycle(spec_edges_of(self@))),
            r == Err::<Renderer, BuildError>(BuildError::NonDepthFormatInDepthSlot)
                <==> !spec_depth_slots_valid(self@),
            r == Err::<Renderer, BuildError>(BuildError::PassNameCollision) <==> (
            spec_depth_slots_valid(self@) && !spec_pass_names_distinct(self@)),
            r == Err::<Renderer, BuildError>(BuildError::CyclicalGraph) <==> (
            spec_depth_slots_valid(self@) && spec_pass_names_distinct(self@) && spec_has_cycle(
                spec_edges_of(self@),
            )),
            match r {
                Ok(renderer) => {
                    &&& renderer@.description == self@
                    &&& renderer@.schedule.len() == self@.passes.len()
                    &&& forall|i: int|
                        0 <= i < renderer@.schedule.len() ==> (#[trigger] renderer@.schedule[i])
                            < self@.passes.len()
                    &&& forall|i: int, j: int|
                        0 <= i < j < renderer@.schedule.len() ==> renderer@.schedule[i]
                            != renderer@.schedule[j]
                    &&& forall|v: int|
                        0 <= v < self@.passes.len() ==> #[trigger] renderer@.schedule.contains(
                            v as usize,
                        )
                    &&& spec_respects_deps(spec_edges_of(self@), renderer@.schedule)
                    &&& spec_subpasses_from(
                        renderer@.schedule,
                        renderer@.physical_passes,
                        renderer@.schedule.len() as int,
                    )
                    &&& spec_each_pass_at_most_once(renderer@.physical_passes)
                    &&& spec_covers_prefix(
                        renderer@.schedule,
                        renderer@.physical_passes,
                        renderer@.schedule.len() as int,
                    )
                    &&& spec_ext_deps_valid(spec_edges_of(self@), renderer@.physical_passes)
                    &&& spec_ext_deps_cover(spec_edges_of(self@), renderer@.physical_passes)
                    &&& spec_internal_deps_inside_all(
                        spec_edges_of(self@),
                        renderer@.physical_passes,
                    )
                    &&& spec_no_ext_edge_inside(spec_edges_of(self@), renderer@.physical_passes)
                    &&& spec_groups_nonempty(renderer@.physical_passes)
                    &&& renderer@.schedule == crate::schedule::spec_schedule(
                        spec_edges_of(self@),
                        self@.passes.len() as int,
                    ).order
                    &&& renderer@.physical_passes.map_values(|pp: PhysicalPass| pp@)
                        == crate::merge::spec_merge(
                        crate::schedule::spec_schedule(
                            spec_edges_of(self@),
                            self@.passes.len() as int,
                        ).edges,
                        renderer@.schedule,
                    )
                },
                Err(_) => true,
            },
    {
        if let Err(err) = self.validate_passes() {
            return Err(err);
        }
        let mut graph = DepGraph::from_description(&self);
        let ghost edges0 = graph.edges@;
        let order = match schedule_passes(&mut graph) {
            Err(err) => {
                return Err(err);
            },
            Ok(order) => order,
        };
        proof {
            assert(spec_respects_deps(graph.edges@, order@));
        }
        let physical_passes = merge_passes(&graph, &order);
        proof {
            crate::merge::lemma_grouping_same_shape(graph.edges@, edges0, physical_passes@);
            // the construction induces no colour-only edges, so every
            // internal dependency of every subpass is trivially inside
            assert forall|f: int, k: int, e: int|
                0 <= f < physical_passes@.len() && 0 <= k < physical_passes@[f]@.subpasses.len()
                    && 0 <= e < edges0.len() && (#[trigger] edges0[e]).dst == (
                #[trigger] physical_passes@[f]@.subpasses[k])
                    && !crate::formats::spec_requires_external_sync(edges0[e].usage)
                    implies physical_passes@[f]@.subpasses.contains(edges0[e].src) by {
                assert(crate::formats::spec_requires_external_sync(edges0[e].usage));
            }
        }
        Ok(Renderer { description: self, schedule: order, physical_passes })
    }
}

} // verus!
