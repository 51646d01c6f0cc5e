use renderer::line_builder::{
    box_edge, emit_box_edges, emit_frustum_edges, AxisAlignedBoundingBox, BoundingBox, BoundingBoxComponent, LineSink,
    LineVertex, ObjectOrientedBoundingBox, LightFrustum, LineColor, LineDrawable, BOX_COLOR,
};

#[test]
fn corners_follow_the_documented_order() {
    let b = BoundingBox { min: [0, 0, 0], max: [1, 2, 3] };
    let c = b.gen_corners();
    assert_eq!(
        c,
        [[0, 0, 0], [1, 0, 0], [1, 2, 0], [0, 2, 0], [0, 0, 3], [1, 0, 3], [1, 2, 3], [0, 2, 3]]
    );
}

#[test]
fn twelve_edges() {
    let edges: Vec<(usize, usize)> = (0..12).map(box_edge).collect();
    assert_eq!(
        edges,
        vec![(0, 1), (1, 2), (2, 3), (3, 0), (4, 5), (5, 6), (6, 7), (7, 4), (0, 4), (1, 5), (2, 6), (3, 7)]
    );
}

#[test]
fn a_line_is_two_vertices() {
    let mut v: Vec<LineVertex<u8, u8>> = Vec::new();
    v.line(1, 2, 9);
    assert_eq!(v.len(), 2);
    assert_eq!((v[0].position, v[0].color, v[1].position, v[1].color), (1, 9, 2, 9));
}

#[test]
fn box_edges_are_24_vertices() {
    let corners = [0u8, 1, 2, 3, 4, 5, 6, 7];
    let mut v = Vec::new();
    emit_box_edges(&corners, 'c', &mut v);
    let positions: Vec<u8> = v.iter().map(|x| x.position).collect();
    assert_eq!(
        positions,
        vec![0, 1, 1, 2, 2, 3, 3, 0, 4, 5, 5, 6, 6, 7, 7, 4, 0, 4, 1, 5, 2, 6, 3, 7]
    );
    assert!(v.iter().all(|x| x.color == 'c'));
}

#[test]
fn oriented_box_maps_corners() {
    let b = BoundingBox { min: [0i32, 0, 0], max: [1, 1, 1] };
    let offset = 10i32;
    let obb = ObjectOrientedBoundingBox { bbox: &b, transform: &offset };
    let mut v = Vec::new();
    obb.emit(|m: &i32, c: [i32; 3]| [c[0] + m, c[1] + m, c[2] + m], &mut v);
    assert!(v.iter().all(|x| x.color == LineColor::Cyan));
    assert_eq!(v.len(), 24);
    assert_eq!(v[0].position, [10, 10, 10]);
    assert_eq!(v[1].position, [11, 10, 10]);

    let aabb = AxisAlignedBoundingBox { bbox: &b };
    let mut w = Vec::new();
    aabb.emit(&mut w);
    assert!(w.iter().all(|x| x.color == LineColor::Cyan));
    assert_eq!(w[1].position, [1, 0, 0]);
}

#[test]
fn component_keeps_one_box_twice() {
    let b = BoundingBox { min: [0, 0, 0], max: [2, 2, 2] };
    let c = BoundingBoxComponent::new(b);
    assert_eq!(c.bounding_box.max, [2, 2, 2]);
    assert_eq!(c.global_bounding_box.min, [0, 0, 0]);
    let v = c.gen_aabb_vertices();
    assert!(v.iter().all(|x| x.color == BOX_COLOR));
    assert_eq!(v.len(), 24);
    assert_eq!(v[23].position, [0, 2, 2]);
}

#[test]
fn frustum_rings_and_links_take_their_colours() {
    let corners = [0u8, 1, 2, 3, 4, 5, 6, 7];
    let mut v = Vec::new();
    emit_frustum_edges(&corners, &mut v);
    assert_eq!(v.len(), 24);
    assert!(v[..8].iter().all(|x| x.color == LineColor::Red));
    assert!(v[8..16].iter().all(|x| x.color == LineColor::Blue));
    assert!(v[16..].iter().all(|x| x.color == LineColor::Green));
    assert_eq!((v[16].position, v[17].position), (0, 4));
    assert_eq!((v[6].position, v[7].position), (3, 0));
}

#[test]
fn oriented_vertices_of_a_component() {
    let c = BoundingBoxComponent::new(BoundingBox { min: [0i64, 0, 0], max: [1, 1, 1] });
    let v = c.gen_obb_vertices(&2i64, |m: &i64, p: [i64; 3]| [p[0] * m, p[1] * m, p[2] * m]);
    assert!(v.iter().all(|x| x.color == LineColor::Cyan));
    assert_eq!(v.len(), 24);
    assert_eq!(v[1].position, [2, 0, 0]);
    assert_eq!(v[23].position, [0, 2, 2]);
}

#[test]
fn vertices_between_given_corners() {
    let v = BoundingBoxComponent::<u8>::gen_vertices(&['a', 'b', 'c', 'd', 'e', 'f', 'g', 'h']);
    let ends: String = v.iter().map(|x| x.position).collect();
    assert_eq!(ends, "abbccddaeffgghheaebfcgdh");
    assert!(v.iter().all(|x| x.color == LineColor::Cyan));
}

#[test]
fn a_light_is_its_frustum_then_a_green_arrow() {
    let f = LightFrustum { corners: [0u8, 1, 2, 3, 4, 5, 6, 7], arrow: [10, 11, 12, 11, 13, 11] };
    let mut v = Vec::new();
    f.emit(&mut v);
    assert_eq!(v.len(), 30);
    let tail: Vec<u8> = v[24..].iter().map(|x| x.position).collect();
    assert_eq!(tail, vec![10, 11, 12, 11, 13, 11]);
    assert!(v[16..].iter().all(|x| x.color == LineColor::Green));
    assert_eq!(v[0].color, LineColor::Red);
}
