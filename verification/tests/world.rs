use renderer::assets::LightComponent;
use renderer::render_objects::RenderObjects;
use renderer::render_queue::RenderQueue;
use renderer::line_builder::{BoundingBox, BoundingBoxComponent, LightFrustum, LineColor, LineVertex};
use renderer::world::{EntityRecord, SceneWorld};

fn entity(id: u64, hidden: bool, parent: Option<usize>) -> EntityRecord<u32, u8, u16> {
    EntityRecord { entity_id: id, hidden, parent, mesh: Some(id), model: Some(id as u32), light: None, bbox: None }
}

fn world() -> SceneWorld<u32, u8, u16> {
    let mut entities = vec![
        entity(100, false, None),
        entity(101, true, Some(0)),
        entity(102, false, Some(1)),
        entity(103, false, Some(0)),
        entity(104, false, Some(42)),
    ];
    entities[3].light = Some(LightComponent { enabled: true, frustum: true, data: 1 });
    entities[0].light = Some(LightComponent { enabled: false, frustum: true, data: 2 });
    entities[2].bbox = Some(7);
    entities[4].bbox = Some(8);
    entities[4].model = None;
    SceneWorld { entities }
}

#[test]
fn hidden_marker_hides_descendants() {
    let w = world();
    assert!(!w.is_hidden(0));
    assert!(w.is_hidden(1));
    assert!(w.is_hidden(2));
    assert!(!w.is_hidden(3));
    assert!(!w.is_hidden(4));
    assert!(!w.is_hidden(17));
}

fn boxed_world() -> SceneWorld<i32, u8, BoundingBoxComponent<i32>> {
    let w = world();
    let entities = w
        .entities
        .into_iter()
        .map(|e| EntityRecord {
            entity_id: e.entity_id,
            hidden: e.hidden,
            parent: e.parent,
            mesh: e.mesh,
            model: e.model.map(|m| m as i32),
            light: e.light,
            bbox: e.bbox.map(|b| {
                let mut c = BoundingBoxComponent::new(BoundingBox { min: [0, 0, 0], max: [1, 1, 1] });
                c.global_bounding_box = BoundingBox { min: [b as i32; 3], max: [b as i32 + 1; 3] };
                c
            }),
        })
        .collect();
    SceneWorld { entities }
}

fn frustum_of(l: &LightComponent<u8>) -> LightFrustum<[i32; 3]> {
    let d = l.data as i32;
    LightFrustum { corners: [[d; 3]; 8], arrow: [[d, 0, 0]; 6] }
}

#[test]
fn queue_takes_visible_meshes_and_lit_lights() {
    let w = boxed_world();
    let mut queue: RenderQueue<i32, u8, LineVertex<[i32; 3], LineColor>> = RenderQueue::new();
    queue.build(&w, false, true, |m: &i32, c: [i32; 3]| [c[0] + m, c[1], c[2]], frustum_of);
    let ids: Vec<u64> = queue.mesh.iter().map(|m| m.entity_id).collect();
    assert_eq!(ids, vec![100, 103]);
    assert_eq!(queue.lights.len(), 1);
    assert_eq!(queue.lights[0].entity_id, 103);
    // no boxes; the two lights showing their frustum, each 30 vertices, in entity order
    assert_eq!(queue.lines.len(), 60);
    assert_eq!(queue.lines[0].position, [2, 2, 2]);
    assert_eq!(queue.lines[30].position, [1, 1, 1]);
    assert_eq!(queue.lines[59].position, [1, 0, 0]);
}

#[test]
fn queue_draws_boxes_axis_aligned_or_oriented() {
    let w = boxed_world();
    let mut queue: RenderQueue<i32, u8, LineVertex<[i32; 3], LineColor>> = RenderQueue::new();
    queue.build(&w, true, true, |m: &i32, c: [i32; 3]| [c[0] + m, c[1], c[2]], frustum_of);
    assert_eq!(queue.lines.len(), 24 + 60);
    assert_eq!(queue.lines[0].position, [7, 7, 7]);
    assert_eq!(queue.lines[1].position, [8, 7, 7]);
    assert!(queue.lines[..24].iter().all(|x| x.color == LineColor::Cyan));
    let mut queue: RenderQueue<i32, u8, LineVertex<[i32; 3], LineColor>> = RenderQueue::new();
    queue.build(&w, true, false, |m: &i32, c: [i32; 3]| [c[0] + m, c[1], c[2]], frustum_of);
    assert_eq!(queue.lines[0].position, [102, 0, 0]);
    assert_eq!(queue.lines[1].position, [103, 0, 0]);
}

#[test]
fn render_objects_collect_boxes_when_enabled() {
    let w = world();
    let objects = RenderObjects::build(&w, true);
    assert_eq!(objects.meshes.len(), 2);
    assert_eq!(objects.lights.len(), 1);
    assert_eq!(objects.bboxes.len(), 1);
    assert_eq!(objects.bboxes[0].bbox, 7);
    assert_eq!(objects.bboxes[0].transform, 102);
    let objects = RenderObjects::build(&w, false);
    assert!(objects.bboxes.is_empty());
}

#[test]
fn line_sources() {
    let w = world();
    assert_eq!(w.bbox_line_sources(true), vec![2]);
    assert!(w.bbox_line_sources(false).is_empty());
    assert_eq!(w.light_frustum_sources(), vec![0, 3]);
}
