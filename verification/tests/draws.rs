use renderer::draws::{mesh_pass_draws, shadow_jobs, sort_by_material, DrawStep, ShadowJob};
use renderer::framebuilder::{FrameBuilder, InstanceBatch};
use renderer::renderpass::{LightsIconPass, MeshPass};

fn batch(mesh: u64, material: u64) -> InstanceBatch {
    InstanceBatch { mesh, material, index_start: 0, index_end: 3, instance_start: 0, instance_count: 1 }
}

#[test]
fn batches_sort_by_material_keeping_frame_order() {
    let batches = vec![batch(1, 5), batch(2, 3), batch(3, 5), batch(4, 1), batch(5, 3)];
    assert_eq!(sort_by_material(&batches), vec![3, 1, 4, 0, 2]);
    assert!(sort_by_material(&[]).is_empty());
}

#[test]
fn materials_are_bound_when_they_change() {
    let batches = vec![batch(1, 7), batch(2, 2), batch(3, 7), batch(4, 2)];
    let draws = mesh_pass_draws(&batches, &[true, true, true, true]);
    assert_eq!(
        draws,
        vec![
            DrawStep { batch: 1, bind_material: true },
            DrawStep { batch: 3, bind_material: false },
            DrawStep { batch: 0, bind_material: true },
            DrawStep { batch: 2, bind_material: false },
        ]
    );
}

#[test]
fn batches_without_gpu_resources_are_skipped() {
    let batches = vec![batch(1, 4), batch(2, 4), batch(3, 9)];
    let draws = mesh_pass_draws(&batches, &[false, true, false]);
    assert_eq!(draws, vec![DrawStep { batch: 1, bind_material: true }]);
    assert!(mesh_pass_draws(&batches, &[false, false, false]).is_empty());
}

#[test]
fn a_skipped_batch_binds_nothing() {
    let batches = vec![batch(1, 4), batch(2, 6), batch(3, 6)];
    let draws = mesh_pass_draws(&batches, &[true, false, true]);
    assert_eq!(draws, vec![DrawStep { batch: 0, bind_material: true }, DrawStep { batch: 2, bind_material: true }]);
    let draws = mesh_pass_draws(&batches, &[true, true, true]);
    assert_eq!(draws[2], DrawStep { batch: 2, bind_material: false });
}

#[test]
fn each_mesh_pass_draws_its_own_batches() {
    let mut frame: FrameBuilder<u8, u8, u8> = FrameBuilder::new();
    frame.opaque_batches = vec![batch(1, 2), batch(2, 1)];
    frame.transmission_batches = vec![batch(3, 8)];
    let opaque = MeshPass::opaque().draws(&frame, &[true, true]);
    assert_eq!(opaque.iter().map(|d| d.batch).collect::<Vec<_>>(), vec![1, 0]);
    let transmission = MeshPass::transmission().draws(&frame, &[true]);
    assert_eq!(transmission, vec![DrawStep { batch: 0, bind_material: true }]);
}

#[test]
fn shadow_jobs_take_the_first_casters_with_a_map() {
    let casts = [true, false, true, true, true];
    let has_map = [true, true, false, true, true];
    let ids = [10, 11, 12, 13, 14];
    let jobs = shadow_jobs(&casts, &has_map, &ids, 3, 64, Some(13));
    assert_eq!(
        jobs,
        vec![
            ShadowJob { slot: 0, offset: 0, show: false },
            ShadowJob { slot: 3, offset: 192, show: true },
        ]
    );
    assert!(shadow_jobs(&casts, &has_map, &ids, 0, 64, None).is_empty());
    let all = shadow_jobs(&casts, &has_map, &ids, 10, 64, None);
    assert_eq!(all.iter().map(|j| j.slot).collect::<Vec<_>>(), vec![0, 3, 4]);
}

#[test]
fn light_icons_follow_the_lights_sent() {
    let mut frame: FrameBuilder<u8, u8, u8> = FrameBuilder::new();
    frame.lights.count = 3;
    assert_eq!(LightsIconPass::new().icon_count(&frame), 0);
    frame.lights.enabled = 1;
    assert_eq!(LightsIconPass::new().icon_count(&frame), 3);
}
