use render_graph::BuildError;
use render_graph::description::RendererBuilder;
use render_graph::formats::Format;
use render_graph::formats::UsageKind;
use render_graph::graph::DepGraph;
use render_graph::renderer::Renderer;

/// The canonical deferred-shading description: a geometry pass feeding a
/// lighting pass, two chained blurs, and a composite writing the backbuffer.
/// Returns the builder and the pass handles
/// (gbuffer, lighting, blur_pass, blur_pass2, composite).
fn gbuffer_description() -> (RendererBuilder, [usize; 5]) {
    let mut b = RendererBuilder::new();
    let depth = b.add_depth_attachment("depth", 1);
    let albedo = b.add_attachment("albedo", Format::R8G8B8A8Unorm, 1);
    let normal = b.add_attachment("normal", Format::R8G8Unorm, 1);
    let color = b.add_attachment("color", Format::R8G8B8A8Unorm, 1);
    let blur = b.add_attachment("blur", Format::R8G8B8A8Unorm, 1);
    let blur2 = b.add_attachment("blur2", Format::R8G8B8A8Unorm, 1);
    let backbuffer = b.get_backbuffer_attachment();

    let gbuffer = b.add_pass("gbuffer");
    b.add_color_output(gbuffer, albedo);
    b.add_color_output(gbuffer, normal);
    b.set_depth_output(gbuffer, depth);

    let lighting = b.add_pass("lighting");
    b.add_color_output(lighting, color);
    b.add_color_input(lighting, albedo);
    b.add_color_input(lighting, normal);
    b.set_depth_input(lighting, depth);

    let blur_pass = b.add_pass("blur_pass");
    b.add_color_output(blur_pass, blur);
    b.add_color_input(blur_pass, color);

    let blur_pass2 = b.add_pass("blur_pass2");
    b.add_color_output(blur_pass2, blur2);
    b.add_color_input(blur_pass2, blur);

    let composite = b.add_pass("composite");
    b.add_color_output(composite, backbuffer);
    b.add_color_input(composite, color);
    b.add_color_input(composite, blur);
    b.add_color_input(composite, blur2);

    (b, [gbuffer, lighting, blur_pass, blur_pass2, composite])
}

/// The write-to-read pairs (producer, consumer) a description induces.
fn dependency_pairs(desc: &RendererBuilder) -> Vec<(usize, usize)> {
    let mut pairs = Vec::new();
    for p in 0..desc.num_passes() {
        for &a in desc.pass_color_inputs(p).iter() {
            for &w in desc.attachment_writers(a).iter() {
                pairs.push((w, p));
            }
        }
        if let Some(a) = desc.pass_depth_input(p) {
            for &w in desc.attachment_writers(a).iter() {
                pairs.push((w, p));
            }
        }
    }
    pairs
}

fn position(order: &[usize], pass: usize) -> usize {
    order.iter().position(|&x| x == pass).expect("pass missing from the schedule")
}

fn build_ok(b: RendererBuilder) -> Renderer {
    match b.build() {
        Ok(r) => r,
        Err(_) => panic!("expected a successful build"),
    }
}

#[test]
fn gbuffer_schedule_respects_dependencies() {
    let (b, [gbuffer, lighting, blur_pass, blur_pass2, composite]) = gbuffer_description();
    let r = build_ok(b);
    let order = r.scheduled_order().clone();
    assert_eq!(order.len(), 5);

    // every dependency source appears strictly earlier than its consumer
    let pairs = dependency_pairs(r.description());
    for &(src, dst) in pairs.iter() {
        assert!(position(&order, src) < position(&order, dst));
    }

    assert_eq!(order[0], gbuffer);
    assert!(position(&order, gbuffer) < position(&order, lighting));
    assert!(position(&order, blur_pass) < position(&order, blur_pass2));
    assert_eq!(order[4], composite);
}

#[test]
fn gbuffer_every_pass_in_exactly_one_physical_pass() {
    let (b, passes) = gbuffer_description();
    let r = build_ok(b);
    for &p in passes.iter() {
        let mut occurrences = 0;
        for f in 0..r.num_physical_passes() {
            occurrences += r.physical_subpasses(f).iter().filter(|&&s| s == p).count();
        }
        assert_eq!(occurrences, 1);
    }
}

#[test]
fn gbuffer_external_dependencies_are_synchronising_and_outside() {
    let (b, _) = gbuffer_description();
    let r = build_ok(b);
    for f in 0..r.num_physical_passes() {
        for d in r.physical_external_dependencies(f).iter() {
            // every external dependency demands synchronisation between
            // physical passes
            assert!(matches!(d.usage, UsageKind::DepthStencil | UsageKind::InputAttachment));
        }
    }
}

#[test]
fn gbuffer_no_synchronising_edge_joins_two_subpasses() {
    let (b, _) = gbuffer_description();
    let r = build_ok(b);
    // all dependencies here are input or depth reads, so no producer and
    // consumer may share a physical pass
    let pairs = dependency_pairs(r.description());
    for f in 0..r.num_physical_passes() {
        let subpasses = r.physical_subpasses(f);
        for &(src, dst) in pairs.iter() {
            assert!(!(subpasses.contains(&src) && subpasses.contains(&dst)));
        }
    }
}

#[test]
fn backbuffer_writer_lands_in_last_physical_pass() {
    let (b, [_, _, _, _, composite]) = gbuffer_description();
    let r = build_ok(b);
    let last = r.num_physical_passes() - 1;
    assert!(r.physical_subpasses(last).contains(&composite));
}

#[test]
fn rebuilding_the_same_description_gives_the_same_plan() {
    let (b1, _) = gbuffer_description();
    let (b2, _) = gbuffer_description();
    let r1 = build_ok(b1);
    let r2 = build_ok(b2);
    assert_eq!(r1.scheduled_order(), r2.scheduled_order());
    assert_eq!(r1.num_physical_passes(), r2.num_physical_passes());
    for f in 0..r1.num_physical_passes() {
        assert_eq!(r1.physical_subpasses(f), r2.physical_subpasses(f));
        let d1 = r1.physical_external_dependencies(f);
        let d2 = r2.physical_external_dependencies(f);
        assert_eq!(d1.len(), d2.len());
        for (x, y) in d1.iter().zip(d2.iter()) {
            assert_eq!(x.src, y.src);
            assert_eq!(x.dst, y.dst);
            assert_eq!(x.attachment, y.attachment);
            assert_eq!(x.usage, y.usage);
        }
    }
}

#[test]
fn cyclical_graph_rejected() {
    let mut b = RendererBuilder::new();
    let x = b.add_attachment("x", Format::R8G8B8A8Unorm, 1);
    let y = b.add_attachment("y", Format::R8G8B8A8Unorm, 1);
    let pa = b.add_pass("a");
    let pb = b.add_pass("b");
    b.add_color_output(pa, x);
    b.add_color_input(pb, x);
    b.add_color_output(pb, y);
    b.add_color_input(pa, y);
    match b.build() {
        Err(e) => assert_eq!(e, BuildError::CyclicalGraph),
        Ok(_) => panic!("expected a diagnostic"),
    }
}

#[test]
fn self_read_rejected_as_cycle() {
    let mut b = RendererBuilder::new();
    let x = b.add_attachment("x", Format::R8G8B8A8Unorm, 1);
    let p = b.add_pass("feedback");
    b.add_color_output(p, x);
    b.add_color_input(p, x);
    match b.build() {
        Err(e) => assert_eq!(e, BuildError::CyclicalGraph),
        Ok(_) => panic!("expected a diagnostic"),
    }
}

#[test]
fn independent_chains_interleave() {
    let mut b = RendererBuilder::new();
    let x = b.add_attachment("x", Format::R8G8B8A8Unorm, 1);
    let y = b.add_attachment("y", Format::R8G8B8A8Unorm, 1);
    let pa = b.add_pass("a");
    let pb = b.add_pass("b");
    let pc = b.add_pass("c");
    let pd = b.add_pass("d");
    b.add_color_output(pa, x);
    b.add_color_input(pb, x);
    b.add_color_output(pc, y);
    b.add_color_input(pd, y);
    let r = build_ok(b);
    let order = r.scheduled_order().clone();
    assert_eq!(order.len(), 4);
    assert!(position(&order, pa) < position(&order, pb));
    assert!(position(&order, pc) < position(&order, pd));
    // the chains interleave: neither chain completes before the other starts
    let first_done = position(&order, pb);
    let second_done = position(&order, pd);
    let first_start = position(&order, pa);
    let second_start = position(&order, pc);
    assert!(!(first_done < second_start));
    assert!(!(second_done < first_start));
}

#[test]
fn independent_passes_share_a_physical_pass() {
    let mut b = RendererBuilder::new();
    let x = b.add_attachment("x", Format::R8G8B8A8Unorm, 1);
    let y = b.add_attachment("y", Format::R8G8B8A8Unorm, 1);
    let pa = b.add_pass("a");
    let pb = b.add_pass("b");
    let pc = b.add_pass("c");
    let pd = b.add_pass("d");
    b.add_color_output(pa, x);
    b.add_color_input(pb, x);
    b.add_color_output(pc, y);
    b.add_color_input(pd, y);
    let r = build_ok(b);
    // the two chain heads have no dependencies at all, so the second joins
    // the group the first opened
    let mut heads_group = None;
    for f in 0..r.num_physical_passes() {
        let subpasses = r.physical_subpasses(f);
        if subpasses.contains(&pa) {
            heads_group = Some(f);
            assert!(subpasses.contains(&pc));
        }
    }
    assert!(heads_group.is_some());
}

#[test]
fn empty_description_builds_to_an_empty_plan() {
    let b = RendererBuilder::new();
    let r = build_ok(b);
    assert!(r.scheduled_order().is_empty());
    assert_eq!(r.num_physical_passes(), 0);
}

#[test]
fn duplicate_wiring_builds_with_duplicate_edges() {
    let mut b = RendererBuilder::new();
    let a = b.add_attachment("target", Format::R8G8B8A8Unorm, 1);
    let p = b.add_pass("writer");
    let q = b.add_pass("reader");
    b.add_color_output(p, a);
    b.add_color_output(p, a);
    b.add_color_input(q, a);
    // the duplicate wiring induces one edge per recorded writer
    let g = DepGraph::from_description(&b);
    assert_eq!(g.edges.len(), 2);
    assert!(g.edges.iter().all(|e| e.src == p && e.dst == q && e.attachment == a));
    // the build still succeeds and schedules the writer first
    let r = build_ok(b);
    assert_eq!(r.scheduled_order().as_slice(), &[p, q]);
}

#[test]
fn dependency_graph_reachability() {
    let (b, [gbuffer, lighting, blur_pass, blur_pass2, composite]) = gbuffer_description();
    let g = DepGraph::from_description(&b);
    assert_eq!(g.n_nodes, 5);
    // reflexive, one step, transitive, and negative cases
    assert!(g.depends_on(gbuffer, gbuffer));
    assert!(g.depends_on(lighting, gbuffer));
    assert!(g.depends_on(blur_pass2, gbuffer));
    assert!(g.depends_on(composite, blur_pass));
    assert!(!g.depends_on(gbuffer, lighting));
    assert!(!g.depends_on(blur_pass, blur_pass2));
    // only the pass with no inputs starts independent
    assert!(g.is_independent(gbuffer));
    assert!(!g.is_independent(lighting));
    assert!(!g.is_independent(composite));
}

#[test]
fn scheduling_clears_every_edge_flag() {
    let (b, _) = gbuffer_description();
    let mut g = DepGraph::from_description(&b);
    let order = render_graph::schedule::schedule_passes(&mut g);
    assert!(order.is_ok());
    for e in g.edges.iter() {
        assert!(!e.is_edge);
    }
}

#[test]
fn graph_edges_carry_the_inducing_attachment() {
    let mut b = RendererBuilder::new();
    let x = b.add_attachment("x", Format::R8G8B8A8Unorm, 1);
    let d = b.add_depth_attachment("depth", 1);
    let pa = b.add_pass("a");
    let pb = b.add_pass("b");
    b.add_color_output(pa, x);
    b.set_depth_output(pa, d);
    b.add_color_input(pb, x);
    b.set_depth_input(pb, d);
    let g = DepGraph::from_description(&b);
    assert_eq!(g.edges.len(), 2);
    let input_edge = &g.edges[0];
    assert_eq!(input_edge.src, pa);
    assert_eq!(input_edge.dst, pb);
    assert_eq!(input_edge.attachment, x);
    assert_eq!(input_edge.usage, UsageKind::InputAttachment);
    assert!(input_edge.is_edge);
    let depth_edge = &g.edges[1];
    assert_eq!(depth_edge.src, pa);
    assert_eq!(depth_edge.dst, pb);
    assert_eq!(depth_edge.attachment, d);
    assert_eq!(depth_edge.usage, UsageKind::DepthStencil);
    assert!(depth_edge.is_edge);
}
