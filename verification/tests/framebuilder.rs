use renderer::assets::{AssetCatalog, LightComponent, MaterialInfo, MeshAssetInfo, SubmeshDesc};
use renderer::framebuilder::{compute_stats, DrawStats, FrameBuilder, InstanceBatch, MAX_LIGHTS};
use renderer::render_queue::RenderQueue;

fn catalog() -> AssetCatalog {
    AssetCatalog {
        meshes: vec![
            MeshAssetInfo {
                id: 1,
                submeshes: vec![
                    SubmeshDesc { material: 10, index_start: 0, index_end: 6 },
                    SubmeshDesc { material: 11, index_start: 6, index_end: 12 },
                ],
            },
            MeshAssetInfo {
                id: 2,
                submeshes: vec![
                    SubmeshDesc { material: 12, index_start: 0, index_end: 3 },
                    SubmeshDesc { material: 99, index_start: 3, index_end: 9 },
                ],
            },
        ],
        materials: vec![
            MaterialInfo { id: 10, transmissive: false, transparent: false },
            MaterialInfo { id: 11, transmissive: true, transparent: false },
            MaterialInfo { id: 12, transmissive: false, transparent: true },
        ],
    }
}

#[test]
fn instances_of_a_submesh_share_one_batch() {
    let mut queue: RenderQueue<u32, (), ()> = RenderQueue::new();
    queue.mesh(1, 100, 7);
    queue.mesh(2, 200, 8);
    queue.mesh(1, 300, 9);
    queue.mesh(5, 400, 10);
    let frame = FrameBuilder::prepare(queue, &catalog(), true);

    assert_eq!(
        frame.opaque_batches,
        vec![InstanceBatch {
            mesh: 1,
            material: 10,
            index_start: 0,
            index_end: 6,
            instance_start: 0,
            instance_count: 2
        }]
    );
    assert_eq!(
        frame.transmission_batches,
        vec![InstanceBatch {
            mesh: 1,
            material: 11,
            index_start: 6,
            index_end: 12,
            instance_start: 2,
            instance_count: 2
        }]
    );
    let transforms: Vec<u32> = frame.instances.iter().map(|i| i.transform).collect();
    let entities: Vec<u64> = frame.instances.iter().map(|i| i.entity_id).collect();
    assert_eq!(transforms, vec![100, 300, 100, 300]);
    assert_eq!(entities, vec![7, 9, 7, 9]);
    assert_eq!(frame.opaque_stats, DrawStats { draw_calls: 1, instances: 2 });
    assert_eq!(frame.transmission_stats, DrawStats { draw_calls: 1, instances: 2 });
}

#[test]
fn batches_follow_first_appearance() {
    let cat = AssetCatalog {
        meshes: vec![
            MeshAssetInfo { id: 1, submeshes: vec![SubmeshDesc { material: 10, index_start: 0, index_end: 6 }] },
            MeshAssetInfo { id: 2, submeshes: vec![SubmeshDesc { material: 10, index_start: 0, index_end: 6 }] },
        ],
        materials: vec![MaterialInfo { id: 10, transmissive: false, transparent: false }],
    };
    let mut queue: RenderQueue<u32, (), ()> = RenderQueue::new();
    queue.mesh(2, 1, 1);
    queue.mesh(1, 2, 2);
    queue.mesh(2, 3, 3);
    let frame = FrameBuilder::prepare(queue, &cat, false);
    assert_eq!(frame.opaque_batches.len(), 2);
    assert_eq!(frame.opaque_batches[0].mesh, 2);
    assert_eq!(frame.opaque_batches[0].instance_start, 0);
    assert_eq!(frame.opaque_batches[0].instance_count, 2);
    assert_eq!(frame.opaque_batches[1].mesh, 1);
    assert_eq!(frame.opaque_batches[1].instance_start, 2);
    assert_eq!(frame.opaque_batches[1].instance_count, 1);
    let transforms: Vec<u32> = frame.instances.iter().map(|i| i.transform).collect();
    assert_eq!(transforms, vec![1, 3, 2]);
    assert!(frame.transmission_batches.is_empty());
    assert_eq!(frame.lights.enabled, 0);
}

#[test]
fn empty_queue_gives_empty_frame() {
    let queue: RenderQueue<u32, (), u8> = RenderQueue::new();
    let frame = FrameBuilder::prepare(queue, &catalog(), true);
    assert!(frame.instances.is_empty());
    assert_eq!(frame.opaque_stats, DrawStats { draw_calls: 0, instances: 0 });
    assert_eq!(frame.lights.count, 0);
    assert_eq!(frame.lights.enabled, 1);
}

#[test]
fn lines_move_into_the_frame() {
    let mut queue: RenderQueue<u32, (), u8> = RenderQueue::new();
    queue.lines.push(4);
    queue.lines.push(5);
    let frame = FrameBuilder::prepare(queue, &catalog(), true);
    assert_eq!(frame.lines, vec![4, 5]);
}

#[test]
fn lights_switched_off_are_not_queued() {
    let mut queue: RenderQueue<u32, u8, ()> = RenderQueue::new();
    queue.light(1, &LightComponent { enabled: true, frustum: false, data: 1 });
    queue.light(2, &LightComponent { enabled: false, frustum: true, data: 2 });
    queue.light(3, &LightComponent { enabled: true, frustum: false, data: 3 });
    assert_eq!(queue.lights.len(), 2);
    assert_eq!(queue.lights[1].entity_id, 3);
}

#[test]
fn at_most_max_lights_are_used() {
    let mut queue: RenderQueue<u32, usize, ()> = RenderQueue::new();
    for i in 0..(MAX_LIGHTS + 10) {
        queue.light(i as u64, &LightComponent { enabled: true, frustum: false, data: i });
    }
    let mut frame: FrameBuilder<u32, usize, ()> = FrameBuilder::new();
    FrameBuilder::prepare_lights(&queue, true, &mut frame);
    assert_eq!(frame.lights.count as usize, MAX_LIGHTS);
    assert_eq!(frame.lights.lights.len(), MAX_LIGHTS);
    assert_eq!(frame.lights.lights[63].light.data, 63);
    assert_eq!(frame.lights.enabled, 1);
}

#[test]
fn stats_count_calls_and_instances() {
    let batches = vec![
        InstanceBatch { mesh: 1, material: 1, index_start: 0, index_end: 3, instance_start: 0, instance_count: 4 },
        InstanceBatch { mesh: 2, material: 1, index_start: 0, index_end: 3, instance_start: 4, instance_count: 5 },
    ];
    assert_eq!(compute_stats(&batches), DrawStats { draw_calls: 2, instances: 9 });
    assert_eq!(compute_stats(&[]), DrawStats { draw_calls: 0, instances: 0 });
}

#[test]
fn no_submesh_is_in_both_mesh_passes() {
    let mut queue: RenderQueue<u32, (), ()> = RenderQueue::new();
    for k in 0..6 {
        queue.mesh(1 + k % 2, k as u32, k);
    }
    let frame = FrameBuilder::prepare(queue, &catalog(), false);
    for o in &frame.opaque_batches {
        for t in &frame.transmission_batches {
            assert!((o.mesh, o.material, o.index_start, o.index_end) != (t.mesh, t.material, t.index_start, t.index_end));
        }
    }
    assert_eq!(frame.opaque_batches.len(), 1);
    assert_eq!(frame.transmission_batches.len(), 1);
}
