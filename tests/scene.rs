use gpui_scene::{
    AtlasTextureId, AtlasTextureKind, Bounds, ContentMask, HoverGroup, Point, Primitive,
    PrimitiveBatch, PrimitiveKind, Scene, Size,
};

fn rect(x: i32, y: i32, width: i32, height: i32) -> Bounds {
    Bounds { origin: Point { x, y }, size: Size { width, height } }
}

fn texture(index: u32) -> AtlasTextureId {
    AtlasTextureId { index, kind: AtlasTextureKind::Monochrome }
}

fn prim(bounds: Bounds, payload: u32) -> Primitive<u32> {
    Primitive {
        order: 0,
        bounds,
        content_mask: ContentMask { bounds: rect(0, 0, 1000, 1000) },
        texture_id: texture(0),
        payload,
    }
}

fn sprite(bounds: Bounds, tex: u32, payload: u32) -> Primitive<u32> {
    Primitive { texture_id: texture(tex), ..prim(bounds, payload) }
}

fn payloads(scene: &Scene<u32>, kind: PrimitiveKind) -> Vec<u32> {
    scene.primitives(kind).iter().map(|p| p.payload).collect()
}

fn batch_orders(scene: &Scene<u32>, batches: &[PrimitiveBatch]) -> Vec<u32> {
    let mut out = Vec::new();
    for b in batches {
        for p in &scene.primitives(b.kind)[b.start..b.end] {
            out.push(p.order);
        }
    }
    out
}

#[test]
fn orders_strictly_increase_across_kinds() {
    let mut scene: Scene<u32> = Scene::new();
    let a = scene.insert_quad(prim(rect(0, 0, 10, 10), 1), None, vec![]);
    let b = scene.insert_shadow(prim(rect(5, 5, 10, 10), 2), None, vec![]);
    let c = scene.insert_path(prim(rect(0, 0, 0, 10), 3), None, vec![]);
    let d = scene.insert_underline(prim(rect(1, 1, 3, 3), 4), None, vec![]);
    let e = scene.insert_surface(prim(rect(2, 2, 3, 3), 5), None, vec![], false);
    assert_eq!(a, Some(0));
    assert_eq!(b, Some(1));
    assert_eq!(c, None);
    assert_eq!(d, Some(2));
    assert_eq!(e, Some(3));
}

#[test]
fn clipped_primitives_are_rejected() {
    let mut scene: Scene<u32> = Scene::new();
    assert_eq!(scene.insert_quad(prim(rect(0, 0, 0, 10), 1), None, vec![]), None);
    assert_eq!(scene.insert_quad(prim(rect(0, 0, 10, -3), 2), None, vec![]), None);
    assert_eq!(scene.insert_quad(prim(rect(2000, 0, 10, 10), 3), None, vec![]), None);
    let mut masked = prim(rect(0, 0, 10, 10), 4);
    masked.content_mask = ContentMask { bounds: rect(10, 0, 10, 10) };
    assert_eq!(scene.insert_quad(masked, None, vec![]), None);
    scene.finish(Point { x: 0, y: 0 });
    assert!(scene.primitives(PrimitiveKind::Quad).is_empty());
    assert!(scene.batches().is_empty());
    assert_eq!(scene.insert_quad(prim(rect(0, 0, 10, 10), 5), None, vec![]), Some(0));
}

#[test]
fn batches_reproduce_global_order() {
    let mut scene: Scene<u32> = Scene::new();
    scene.insert_quad(prim(rect(0, 0, 10, 10), 1), None, vec![]);
    scene.insert_quad(prim(rect(0, 0, 10, 10), 2), None, vec![]);
    scene.insert_shadow(prim(rect(0, 0, 10, 10), 3), None, vec![]);
    scene.insert_quad(prim(rect(0, 0, 10, 10), 4), None, vec![]);
    scene.insert_path(prim(rect(0, 0, 10, 10), 5), None, vec![]);
    scene.insert_path(prim(rect(0, 0, 10, 10), 6), None, vec![]);
    scene.insert_surface(prim(rect(0, 0, 10, 10), 7), None, vec![], false);
    scene.finish(Point { x: 500, y: 500 });
    for kind in [PrimitiveKind::Quad, PrimitiveKind::Shadow, PrimitiveKind::Path] {
        let ps = scene.primitives(kind);
        assert!(ps.windows(2).all(|w| w[0].order < w[1].order));
    }
    let batches = scene.batches();
    let kinds: Vec<PrimitiveKind> = batches.iter().map(|b| b.kind).collect();
    assert_eq!(
        kinds,
        vec![
            PrimitiveKind::Quad,
            PrimitiveKind::Shadow,
            PrimitiveKind::Quad,
            PrimitiveKind::Path,
            PrimitiveKind::Surface
        ]
    );
    assert_eq!(batch_orders(&scene, &batches), vec![0, 1, 2, 3, 4, 5, 6]);
    assert_eq!(batches[0].end - batches[0].start, 2);
    assert_eq!(batches[3].end - batches[3].start, 2);
}

#[test]
fn occluding_hover_stops_the_walk() {
    // B below, A above, both under the pointer.
    let mut scene: Scene<u32> = Scene::new();
    scene.insert_surface(prim(rect(0, 0, 100, 100), 10), Some(prim(rect(0, 0, 100, 100), 11)), vec![], true);
    scene.insert_surface(prim(rect(0, 0, 50, 50), 20), Some(prim(rect(0, 0, 50, 50), 21)), vec![], true);
    scene.finish(Point { x: 10, y: 10 });
    assert_eq!(payloads(&scene, PrimitiveKind::Surface), vec![10, 21]);

    let mut scene: Scene<u32> = Scene::new();
    scene.insert_surface(prim(rect(0, 0, 100, 100), 10), Some(prim(rect(0, 0, 100, 100), 11)), vec![], true);
    scene.insert_surface(prim(rect(0, 0, 50, 50), 20), Some(prim(rect(0, 0, 50, 50), 21)), vec![], false);
    scene.finish(Point { x: 10, y: 10 });
    assert_eq!(payloads(&scene, PrimitiveKind::Surface), vec![11, 21]);
}

#[test]
fn primitives_without_hover_do_not_occlude() {
    let mut scene: Scene<u32> = Scene::new();
    scene.insert_quad(prim(rect(0, 0, 100, 100), 1), Some(prim(rect(0, 0, 100, 100), 2)), vec![]);
    scene.insert_quad(prim(rect(0, 0, 100, 100), 3), None, vec![]);
    scene.finish(Point { x: 100, y: 100 });
    assert_eq!(payloads(&scene, PrimitiveKind::Quad), vec![2, 3]);
}

#[test]
fn group_hover_reaches_unrelated_members() {
    let mut scene: Scene<u32> = Scene::new();
    let g = scene.hover_group(Some("button".to_string()));
    let h = scene.hover_group(Some("other".to_string()));
    // C is under the pointer; D and E are elsewhere.
    scene.insert_quad(prim(rect(0, 0, 10, 10), 1), None, vec![(g, Some(prim(rect(0, 0, 10, 10), 101)))]);
    scene.insert_underline(prim(rect(200, 200, 10, 10), 2), None, vec![(g, Some(prim(rect(200, 200, 10, 10), 102)))]);
    scene.insert_quad(prim(rect(300, 300, 10, 10), 3), None, vec![(h, Some(prim(rect(300, 300, 10, 10), 103)))]);
    scene.finish(Point { x: 5, y: 5 });
    assert_eq!(payloads(&scene, PrimitiveKind::Quad), vec![101, 3]);
    assert_eq!(payloads(&scene, PrimitiveKind::Underline), vec![102]);
    let orders: Vec<u32> = scene.primitives(PrimitiveKind::Quad).iter().map(|p| p.order).collect();
    assert_eq!(orders, vec![0, 2]);
}

#[test]
fn group_without_variant_only_tags_membership() {
    let mut scene: Scene<u32> = Scene::new();
    let g = scene.hover_group(None);
    scene.insert_quad(prim(rect(0, 0, 10, 10), 1), None, vec![(g, None)]);
    scene.insert_quad(prim(rect(50, 50, 10, 10), 2), None, vec![(g, Some(prim(rect(50, 50, 10, 10), 12)))]);
    scene.finish(Point { x: 1, y: 1 });
    assert_eq!(payloads(&scene, PrimitiveKind::Quad), vec![1, 12]);
}

#[test]
fn pointer_elsewhere_changes_nothing() {
    let mut scene: Scene<u32> = Scene::new();
    let g = scene.hover_group(Some("x".to_string()));
    scene.insert_quad(prim(rect(0, 0, 10, 10), 1), Some(prim(rect(0, 0, 10, 10), 9)), vec![(g, Some(prim(rect(0, 0, 10, 10), 8)))]);
    scene.finish(Point { x: 500, y: 500 });
    assert_eq!(payloads(&scene, PrimitiveKind::Quad), vec![1]);
}

#[test]
fn clear_reproduces_orders() {
    let build = |scene: &mut Scene<u32>| {
        vec![
            scene.insert_quad(prim(rect(0, 0, 10, 10), 1), None, vec![]),
            scene.insert_shadow(prim(rect(0, 0, 0, 10), 2), None, vec![]),
            scene.insert_monochrome_sprite(sprite(rect(0, 0, 4, 4), 1, 3), None, vec![]),
            scene.insert_polychrome_sprite(sprite(rect(0, 0, 4, 4), 2, 4), None, vec![]),
        ]
    };
    let mut fresh: Scene<u32> = Scene::new();
    let expected = build(&mut fresh);
    let mut reused: Scene<u32> = Scene::new();
    build(&mut reused);
    reused.finish(Point { x: 1, y: 1 });
    reused.clear();
    assert!(reused.batches().is_empty());
    assert_eq!(build(&mut reused), expected);
    assert_eq!(expected, vec![Some(0), None, Some(1), Some(2)]);
}

#[test]
fn hover_groups_are_interned_and_reset() {
    let mut scene: Scene<u32> = Scene::new();
    let a = scene.hover_group(Some("a".to_string()));
    let anon = scene.hover_group(None);
    let b = scene.hover_group(Some("b".to_string()));
    let a2 = scene.hover_group(Some("a".to_string()));
    assert_eq!(a, HoverGroup(0));
    assert_eq!(anon, HoverGroup(1));
    assert_eq!(b, HoverGroup(2));
    assert_eq!(a2, a);
    assert_eq!(scene.hover_group(None), HoverGroup(3));
    scene.clear();
    assert_eq!(scene.hover_group(Some("b".to_string())), HoverGroup(0));
}

#[test]
fn texture_change_splits_sprite_batches() {
    let mut scene: Scene<u32> = Scene::new();
    scene.insert_monochrome_sprite(sprite(rect(0, 0, 4, 4), 1, 1), None, vec![]);
    scene.insert_monochrome_sprite(sprite(rect(4, 0, 4, 4), 2, 2), None, vec![]);
    scene.insert_monochrome_sprite(sprite(rect(8, 0, 4, 4), 2, 3), None, vec![]);
    scene.finish(Point { x: 500, y: 500 });
    let batches = scene.batches();
    assert_eq!(batches.len(), 2);
    assert_eq!(batches[0].kind, PrimitiveKind::MonochromeSprite);
    assert_eq!(batches[0].texture_id, Some(texture(1)));
    assert_eq!((batches[0].start, batches[0].end), (0, 1));
    assert_eq!(batches[1].texture_id, Some(texture(2)));
    assert_eq!((batches[1].start, batches[1].end), (1, 3));
}

#[test]
fn same_texture_sprites_share_a_batch() {
    let mut scene: Scene<u32> = Scene::new();
    scene.insert_polychrome_sprite(sprite(rect(0, 0, 4, 4), 7, 1), None, vec![]);
    scene.insert_polychrome_sprite(sprite(rect(4, 0, 4, 4), 7, 2), None, vec![]);
    scene.finish(Point { x: 500, y: 500 });
    let batches = scene.batches();
    assert_eq!(batches.len(), 1);
    assert_eq!(batches[0].kind, PrimitiveKind::PolychromeSprite);
    assert_eq!(batches[0].texture_id, Some(texture(7)));
    assert_eq!(batches[0].end - batches[0].start, 2);
}

#[test]
fn overlapping_hovered_quad_example() {
    let mut scene: Scene<u32> = Scene::new();
    let q1 = scene.insert_quad(prim(rect(0, 0, 100, 100), 1), None, vec![]);
    let q2 = scene.insert_quad(prim(rect(0, 50, 100, 50), 2), Some(prim(rect(0, 50, 100, 50), 22)), vec![]);
    assert_eq!((q1, q2), (Some(0), Some(1)));
    scene.finish(Point { x: 50, y: 75 });
    let batches = scene.batches();
    assert_eq!(batches.len(), 1);
    assert_eq!(batches[0].kind, PrimitiveKind::Quad);
    assert_eq!(batches[0].texture_id, None);
    assert_eq!((batches[0].start, batches[0].end), (0, 2));
    assert_eq!(payloads(&scene, PrimitiveKind::Quad), vec![1, 22]);
    assert_eq!(batch_orders(&scene, &batches), vec![0, 1]);
}

#[test]
fn paths_are_exposed_in_order() {
    let mut scene: Scene<u32> = Scene::new();
    scene.insert_path(prim(rect(0, 0, 10, 10), 1), None, vec![]);
    scene.insert_quad(prim(rect(0, 0, 10, 10), 2), None, vec![]);
    scene.insert_path(prim(rect(0, 0, 10, 10), 3), None, vec![]);
    scene.finish(Point { x: 500, y: 500 });
    let paths: Vec<(u32, u32)> = scene.paths().iter().map(|p| (p.order, p.payload)).collect();
    assert_eq!(paths, vec![(0, 1), (2, 3)]);
}

#[test]
fn intersect_and_contains_edges() {
    let a = rect(0, 0, 10, 10);
    assert_eq!(a.intersect(&rect(5, 5, 10, 10)), Some(rect(5, 5, 5, 5)));
    assert_eq!(a.intersect(&rect(10, 0, 10, 10)), None);
    assert_eq!(a.intersect(&rect(i32::MAX, i32::MAX, i32::MAX, i32::MAX)), None);
    assert_eq!(rect(i32::MIN, i32::MIN, i32::MAX, i32::MAX).intersect(&rect(-5, -5, 3, 3)), Some(rect(-5, -5, 3, 3)));
    assert!(a.contains(&Point { x: 10, y: 10 }));
    assert!(a.contains(&Point { x: 0, y: 0 }));
    assert!(!a.contains(&Point { x: 11, y: 0 }));
}

#[test]
fn batch_iterator_yields_one_batch_at_a_time() {
    let mut scene: Scene<u32> = Scene::new();
    scene.insert_underline(prim(rect(0, 0, 10, 10), 1), None, vec![]);
    scene.insert_shadow(prim(rect(0, 0, 10, 10), 2), None, vec![]);
    scene.finish(Point { x: 500, y: 500 });
    let mut it = gpui_scene::BatchIterator::new();
    let first = it.next(&scene).unwrap();
    assert_eq!(first.kind, PrimitiveKind::Underline);
    let second = it.next(&scene).unwrap();
    assert_eq!(second.kind, PrimitiveKind::Shadow);
    assert!(it.next(&scene).is_none());
}

#[test]
fn default_scene_starts_empty() {
    let mut scene: Scene<u32> = Scene::default();
    assert!(scene.batches().is_empty());
    assert_eq!(scene.hover_group(None), HoverGroup(0));
    assert_eq!(scene.insert_shadow(prim(rect(0, 0, 1, 1), 1), None, vec![]), Some(0));
}

#[test]
fn group_variant_wins_over_hover_variant() {
    let mut scene: Scene<u32> = Scene::new();
    let g = scene.hover_group(Some("card".to_string()));
    scene.insert_quad(
        prim(rect(0, 0, 10, 10), 1),
        Some(prim(rect(0, 0, 10, 10), 2)),
        vec![(g, Some(prim(rect(0, 0, 10, 10), 3)))],
    );
    scene.finish(Point { x: 5, y: 5 });
    assert_eq!(payloads(&scene, PrimitiveKind::Quad), vec![3]);
    assert_eq!(scene.primitives(PrimitiveKind::Quad)[0].order, 0);
}

#[test]
fn occluder_hides_groups_beneath_it() {
    let mut scene: Scene<u32> = Scene::new();
    let g = scene.hover_group(None);
    scene.insert_quad(prim(rect(0, 0, 10, 10), 1), None, vec![(g, Some(prim(rect(0, 0, 10, 10), 11)))]);
    scene.insert_quad(prim(rect(0, 0, 10, 10), 2), Some(prim(rect(0, 0, 10, 10), 12)), vec![]);
    scene.finish(Point { x: 5, y: 5 });
    assert_eq!(payloads(&scene, PrimitiveKind::Quad), vec![1, 12]);
}

#[test]
fn inserted_order_overwrites_callers_order() {
    let mut scene: Scene<u32> = Scene::new();
    let mut p = prim(rect(0, 0, 10, 10), 1);
    p.order = 99;
    assert_eq!(scene.insert_underline(p, Some(prim(rect(0, 0, 10, 10), 2)), vec![]), Some(0));
    scene.finish(Point { x: 5, y: 5 });
    let u = &scene.primitives(PrimitiveKind::Underline)[0];
    assert_eq!((u.order, u.payload), (0, 2));
}
