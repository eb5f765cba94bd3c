//! A render graph compiler.
//!
//! The crate plans a frame's rendering work. A caller describes attachments
//! (named GPU images) and passes (rendering steps that read and write those
//! attachments) through a [`description::RendererBuilder`], and `build` turns
//! the description into a frozen [`renderer::Renderer`]: a schedule of the
//! passes that respects every write-to-read dependency, grouped into physical
//! passes so that cheap colour handoffs stay inside one native render pass and
//! expensive synchronisation is hoisted into external dependencies.

use vstd::prelude::*;

pub mod description;
pub mod graph;
pub mod merge;
pub mod renderer;
pub mod schedule;
pub mod formats;

verus! {

/// A failure diagnostic from `build`. Building either returns a complete
/// artifact or exactly one of these values; no partial state is retained.
#[derive(Clone, Copy, PartialEq, Eq, Structural, Debug)]
pub enum BuildError {
    /// A depth input or depth output slot references an attachment whose
    /// format is not a depth format.
    NonDepthFormatInDepthSlot,
    /// Two passes share a name.
    PassNameCollision,
    /// The dependency edges of the description form a cycle.
    CyclicalGraph,
}

} // verus!
