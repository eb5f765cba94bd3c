use render_graph::BuildError;
use render_graph::description::RendererBuilder;
use render_graph::formats::Format;
use render_graph::formats::ImageUsage;
use render_graph::formats::UsageKind;
use render_graph::formats::is_depth_format;
use render_graph::formats::requires_external_sync;

#[test]
fn backbuffer_preinstalled() {
    let b = RendererBuilder::new();
    assert_eq!(b.num_attachments(), 1);
    assert_eq!(b.num_passes(), 0);
    let bb = b.get_backbuffer_attachment();
    assert_eq!(bb, 0);
    assert_eq!(b.attachment_name(bb), "BACKBUFFER");
    assert_eq!(b.attachment_format(bb), Format::R8G8B8A8Unorm);
    assert_eq!(b.attachment_samples(bb), 1);
}

#[test]
fn add_attachment_records_declaration() {
    let mut b = RendererBuilder::new();
    let a1 = b.add_attachment("albedo", Format::R8G8B8A8Unorm, 1);
    let a2 = b.add_attachment("normal", Format::R8G8Unorm, 4);
    assert_eq!(a1, 1);
    assert_eq!(a2, 2);
    assert_eq!(b.num_attachments(), 3);
    assert_eq!(b.attachment_name(a1), "albedo");
    assert_eq!(b.attachment_format(a2), Format::R8G8Unorm);
    assert_eq!(b.attachment_samples(a2), 4);
    let usage = b.attachment_usage(a1);
    assert!(!usage.color_attachment);
    assert!(!usage.depth_stencil_attachment);
    assert!(!usage.input_attachment);
    assert!(b.attachment_readers(a1).is_empty());
    assert!(b.attachment_writers(a1).is_empty());
}

#[test]
fn add_depth_attachment_uses_default_depth_format() {
    let mut b = RendererBuilder::new();
    let d = b.add_depth_attachment("depth", 1);
    assert_eq!(b.attachment_format(d), Format::D24Unorm_S8Uint);
}

#[test]
fn wiring_is_symmetric() {
    let mut b = RendererBuilder::new();
    let color = b.add_attachment("color", Format::R8G8B8A8Unorm, 1);
    let depth = b.add_depth_attachment("depth", 1);
    let p = b.add_pass("draw");
    let q = b.add_pass("post");

    b.add_color_output(p, color);
    b.set_depth_output(p, depth);
    b.add_color_input(q, color);
    b.set_depth_input(q, depth);

    assert_eq!(b.pass_color_outputs(p).as_slice(), &[color]);
    assert_eq!(b.pass_depth_output(p), Some(depth));
    assert_eq!(b.pass_color_inputs(q).as_slice(), &[color]);
    assert_eq!(b.pass_depth_input(q), Some(depth));

    assert_eq!(b.attachment_writers(color).as_slice(), &[p]);
    assert_eq!(b.attachment_readers(color).as_slice(), &[q]);
    assert_eq!(b.attachment_writers(depth).as_slice(), &[p]);
    assert_eq!(b.attachment_readers(depth).as_slice(), &[q]);

    let color_usage = b.attachment_usage(color);
    assert!(color_usage.color_attachment);
    assert!(color_usage.input_attachment);
    assert!(!color_usage.depth_stencil_attachment);
    let depth_usage = b.attachment_usage(depth);
    assert!(depth_usage.depth_stencil_attachment);
    assert!(!depth_usage.color_attachment);
}

#[test]
fn duplicate_color_output_recorded_twice() {
    let mut b = RendererBuilder::new();
    let a = b.add_attachment("target", Format::R8G8B8A8Unorm, 1);
    let p = b.add_pass("draw");
    b.add_color_output(p, a);
    b.add_color_output(p, a);
    assert_eq!(b.pass_color_outputs(p).as_slice(), &[a, a]);
    assert_eq!(b.attachment_writers(a).as_slice(), &[p, p]);
}

#[test]
fn depth_slot_is_replaced_not_appended() {
    let mut b = RendererBuilder::new();
    let d1 = b.add_depth_attachment("depth1", 1);
    let d2 = b.add_depth_attachment("depth2", 1);
    let p = b.add_pass("draw");
    b.set_depth_output(p, d1);
    b.set_depth_output(p, d2);
    assert_eq!(b.pass_depth_output(p), Some(d2));
    // the writer registration is cumulative even though the slot is replaced
    assert_eq!(b.attachment_writers(d1).as_slice(), &[p]);
    assert_eq!(b.attachment_writers(d2).as_slice(), &[p]);
}

#[test]
fn non_depth_format_in_depth_input_rejected() {
    let mut b = RendererBuilder::new();
    let a = b.add_attachment("color", Format::R8G8B8A8Unorm, 1);
    let p = b.add_pass("draw");
    b.set_depth_input(p, a);
    match b.build() {
        Err(e) => assert_eq!(e, BuildError::NonDepthFormatInDepthSlot),
        Ok(_) => panic!("expected a diagnostic"),
    }
}

#[test]
fn non_depth_format_in_depth_output_rejected() {
    let mut b = RendererBuilder::new();
    let a = b.add_attachment("color", Format::R32Uint, 1);
    let p = b.add_pass("draw");
    b.set_depth_output(p, a);
    match b.build() {
        Err(e) => assert_eq!(e, BuildError::NonDepthFormatInDepthSlot),
        Ok(_) => panic!("expected a diagnostic"),
    }
}

#[test]
fn pass_name_collision_rejected() {
    let mut b = RendererBuilder::new();
    b.add_pass("foo");
    b.add_pass("foo");
    match b.build() {
        Err(e) => assert_eq!(e, BuildError::PassNameCollision),
        Ok(_) => panic!("expected a diagnostic"),
    }
}

#[test]
fn depth_check_precedes_name_check() {
    let mut b = RendererBuilder::new();
    let a = b.add_attachment("color", Format::R8G8B8A8Unorm, 1);
    let p = b.add_pass("foo");
    b.add_pass("foo");
    b.set_depth_input(p, a);
    match b.build() {
        Err(e) => assert_eq!(e, BuildError::NonDepthFormatInDepthSlot),
        Ok(_) => panic!("expected a diagnostic"),
    }
}

#[test]
fn name_check_precedes_cycle_check() {
    let mut b = RendererBuilder::new();
    let x = b.add_attachment("x", Format::R8G8B8A8Unorm, 1);
    let y = b.add_attachment("y", Format::R8G8B8A8Unorm, 1);
    let pa = b.add_pass("same");
    let pb = b.add_pass("same");
    b.add_color_output(pa, x);
    b.add_color_input(pb, x);
    b.add_color_output(pb, y);
    b.add_color_input(pa, y);
    match b.build() {
        Err(e) => assert_eq!(e, BuildError::PassNameCollision),
        Ok(_) => panic!("expected a diagnostic"),
    }
}

#[test]
fn depth_format_set_is_exact() {
    assert!(!is_depth_format(Format::R8G8Unorm));
    assert!(!is_depth_format(Format::R8G8B8A8Unorm));
    assert!(!is_depth_format(Format::R32Uint));
    assert!(is_depth_format(Format::D16Unorm));
    assert!(is_depth_format(Format::D16Unorm_S8Uint));
    assert!(is_depth_format(Format::D24Unorm_S8Uint));
    assert!(is_depth_format(Format::D32Sfloat));
    assert!(is_depth_format(Format::D32Sfloat_S8Uint));
}

#[test]
fn only_color_usage_stays_inside_a_render_pass() {
    assert!(!requires_external_sync(UsageKind::ColorAttachment));
    assert!(requires_external_sync(UsageKind::DepthStencil));
    assert!(requires_external_sync(UsageKind::InputAttachment));
}

#[test]
fn empty_usage_has_no_intent() {
    let u = ImageUsage::none();
    assert!(!u.color_attachment);
    assert!(!u.depth_stencil_attachment);
    assert!(!u.input_attachment);
}
