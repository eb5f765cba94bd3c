//! Pixel formats and attachment usage intents.
//!
//! The graph only ever inspects a format to ask whether it belongs to the
//! depth set, and only ever inspects a usage to ask whether it demands
//! synchronisation between physical passes.

use vstd::prelude::*;

verus! {

/// The closed set of pixel formats an attachment may carry.
#[allow(non_camel_case_types)]
#[derive(Clone, Copy, PartialEq, Eq, Structural, Debug)]
pub enum Format {
    R8G8Unorm,
    R8G8B8A8Unorm,
    R32Uint,
    D16Unorm,
    D16Unorm_S8Uint,
    D24Unorm_S8Uint,
    D32Sfloat,
    D32Sfloat_S8Uint,
}

/// Whether `format` is in the depth set, and so is acceptable in a pass's
/// depth input or depth output slot.
pub open spec fn spec_is_depth_format(format: Format) -> bool {
    ||| format == Format::D16Unorm
    ||| format == Format::D16Unorm_S8Uint
    ||| format == Format::D24Unorm_S8Uint
    ||| format == Format::D32Sfloat
    ||| format == Format::D32Sfloat_S8Uint
}

#[verifier::when_used_as_spec(spec_is_depth_format)]
pub fn is_depth_format(format: Format) -> (r: bool)
    ensures
        r == spec_is_depth_format(format),
{
    match format {
        Format::D16Unorm => true,
        Format::D16Unorm_S8Uint => true,
        Format::D24Unorm_S8Uint => true,
        Format::D32Sfloat => true,
        Format::D32Sfloat_S8Uint => true,
        _ => false,
    }
}

/// The usage-intent bitset accumulated on an attachment while passes are
/// wired to it.
#[derive(Clone, Copy, PartialEq, Eq, Structural, Debug)]
pub struct ImageUsage {
    pub color_attachment: bool,
    pub depth_stencil_attachment: bool,
    pub input_attachment: bool,
}

impl ImageUsage {
    /// The empty usage set: a freshly declared attachment has no intent yet.
    pub fn none() -> (r: ImageUsage)
        ensures
            r == (ImageUsage {
                color_attachment: false,
                depth_stencil_attachment: false,
                input_attachment: false,
            }),
    {
        ImageUsage { color_attachment: false, depth_stencil_attachment: false, input_attachment: false }
    }
}

/// The usage a single dependency edge implies for the attachment that
/// induced it.
#[derive(Clone, Copy, PartialEq, Eq, Structural, Debug)]
pub enum UsageKind {
    ColorAttachment,
    DepthStencil,
    InputAttachment,
}

/// Whether an edge of this usage demands synchronisation between physical
/// passes. Colour-attachment handoffs are implicit inside one native render
/// pass; depth-stencil writes and input-attachment reads are not.
pub open spec fn spec_requires_external_sync(usage: UsageKind) -> bool {
    usage == UsageKind::DepthStencil || usage == UsageKind::InputAttachment
}

#[verifier::when_used_as_spec(spec_requires_external_sync)]
pub fn requires_external_sync(usage: UsageKind) -> (r: bool)
    ensures
        r == spec_requires_external_sync(usage),
{
    match usage {
        UsageKind::ColorAttachment => false,
        UsageKind::DepthStencil => true,
        UsageKind::InputAttachment => true,
    }
}

} // verus!
