use renderer::ibl::{
    cube_render_steps, dispatch_size, mip_chain_steps, mip_levels, mip_size, MipStep, BRDFLUTBuilder, CubeRenderStep, EquirectangularToCubemap,
    IblFormat, IrrarianceMap, PrefilterMap, TexturePlan, SKYBOX_CUBE_SIZE,
};

#[test]
fn should_calculate_mip_size() {
    assert_eq!(mip_size(300, 0), 300);
    assert_eq!(mip_size(300, 1), 150);
    assert_eq!(mip_size(300, 2), 75);
    assert_eq!(mip_size(300, 3), 37);
    assert_eq!(mip_size(300, 4), 18);
    assert_eq!(mip_size(300, 5), 9);
    assert_eq!(mip_size(300, 6), 4);
    assert_eq!(mip_size(300, 7), 2);
    assert_eq!(mip_size(300, 8), 1);
    assert_eq!(mip_size(300, 9), 1);
}

#[test]
fn should_calculate_mip_levels() {
    assert_eq!(mip_levels(300), 9);
    assert_eq!(mip_levels(256), 9);
    assert_eq!(mip_levels(128), 8);
    assert_eq!(mip_levels(64), 7);
    assert_eq!(mip_levels(32), 6);
    assert_eq!(mip_levels(16), 5);
    assert_eq!(mip_levels(8), 4);
    assert_eq!(mip_levels(4), 3);
    assert_eq!(mip_levels(2), 2);
    assert_eq!(mip_levels(1), 1);
}

#[test]
fn mip_size_never_drops_below_one_texel() {
    assert_eq!(mip_size(0, 0), 1);
    assert_eq!(mip_size(1, 5), 1);
    assert_eq!(mip_size(u32::MAX, 31), 1);
    assert_eq!(mip_size(u32::MAX, 32), 1);
    assert_eq!(mip_size(u32::MAX, u32::MAX), 1);
    assert_eq!(mip_size(u32::MAX, 0), u32::MAX);
    assert_eq!(mip_size(u32::MAX, 1), u32::MAX / 2);
}

#[test]
fn mip_levels_of_extremes() {
    assert_eq!(mip_levels(0), 0);
    assert_eq!(mip_levels(3), 2);
    assert_eq!(mip_levels(512), 10);
    assert_eq!(mip_levels(16_777_215), 24);
    assert_eq!(mip_levels(u32::MAX), 32);
    assert_eq!(mip_levels(1 << 31), 32);
}

#[test]
fn mip_chain_halves_to_one_texel() {
    let size = 300;
    let levels = mip_levels(size);
    assert_eq!(mip_size(size, levels - 1), 1);
    assert!(mip_size(size, levels - 2) > 1);
}

#[test]
fn ibl_texture_plans() {
    assert_eq!(BRDFLUTBuilder::plan(), TexturePlan { size: 512, mip_level_count: 1, format: IblFormat::Rg16Float, layers: 1 });
    assert_eq!(PrefilterMap::plan(), TexturePlan { size: 128, mip_level_count: 5, format: IblFormat::Rgba16Float, layers: 6 });
    assert_eq!(IrrarianceMap::plan(), TexturePlan { size: 32, mip_level_count: 1, format: IblFormat::Rgba16Float, layers: 6 });
    assert_eq!(
        EquirectangularToCubemap::plan(SKYBOX_CUBE_SIZE),
        TexturePlan { size: 512, mip_level_count: 10, format: IblFormat::Rgba16Float, layers: 6 }
    );
}

#[test]
fn prefilter_cube_renders_six_faces_per_mip() {
    let steps = cube_render_steps(PrefilterMap::plan());
    assert_eq!(steps.len(), 30);
    assert_eq!(steps[0], CubeRenderStep { mip_level: 0, face: 0, capture_size: 128 });
    assert_eq!(steps[5], CubeRenderStep { mip_level: 0, face: 5, capture_size: 128 });
    assert_eq!(steps[6], CubeRenderStep { mip_level: 1, face: 0, capture_size: 64 });
    assert_eq!(steps[29], CubeRenderStep { mip_level: 4, face: 5, capture_size: 8 });
}

#[test]
fn irradiance_cube_renders_one_level() {
    let steps = cube_render_steps(IrrarianceMap::plan());
    assert_eq!(steps.len(), 6);
    for (face, step) in steps.iter().enumerate() {
        assert_eq!(*step, CubeRenderStep { mip_level: 0, face: face as u32, capture_size: 32 });
    }
}

#[test]
fn workgroups_cover_the_extent() {
    assert_eq!(dispatch_size(0), 0);
    assert_eq!(dispatch_size(1), 1);
    assert_eq!(dispatch_size(16), 1);
    assert_eq!(dispatch_size(17), 2);
    assert_eq!(dispatch_size(512), 32);
    assert_eq!(dispatch_size(u32::MAX), 268435456);
}

#[test]
fn mip_chain_steps_fill_from_level_two() {
    assert!(mip_chain_steps(0).is_empty());
    assert!(mip_chain_steps(2).is_empty());
    assert_eq!(
        mip_chain_steps(5),
        vec![MipStep { src: 1, dst: 2 }, MipStep { src: 2, dst: 3 }, MipStep { src: 3, dst: 4 }]
    );
}
