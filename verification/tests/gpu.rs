use renderer::gpu::{
    resolve_texture_id, ColorSpace, GpuSync, GpuTextureBuilder, LayoutKind, PipelineKind, StaticTexture,
    TextureData, TextureSlot, BindingKind, LayoutEntry, Visibility, material_textures, MaterialTextureSlot, DepthCompare,
};
use renderer::scene_renderer::SceneRenderer;
use renderer::rendergraph::RenderPass;
use renderer::framebuilder::{DrawStats, FrameBuilder};

#[test]
fn layout_table_order() {
    let all = LayoutKind::all();
    assert_eq!(all.len(), 10);
    for (k, kind) in all.iter().enumerate() {
        assert_eq!(kind.index(), k);
    }
    assert_eq!(LayoutKind::Material.index(), 5);
    assert_eq!(PipelineKind::Skybox.index(), 2);
    assert_eq!(PipelineKind::all(), vec![PipelineKind::Default, PipelineKind::Light, PipelineKind::Skybox]);
    assert_eq!(TextureSlot::LightIcon.index(), 0);
    assert_eq!(TextureSlot::all(), vec![TextureSlot::LightIcon]);
}

#[test]
fn texel_sizes() {
    assert_eq!(ColorSpace::Rgba8.pixel_size(), 4);
    assert_eq!(ColorSpace::Srgba8.pixel_size(), 4);
    assert_eq!(ColorSpace::Rgbaf16.pixel_size(), 8);
    assert_eq!(ColorSpace::Rgbaf32.pixel_size(), 16);
}

static WHITE: [u8; 4] = [255, 255, 255, 255];
static WHITE_TEX: StaticTexture = StaticTexture { width: 1, height: 1, pixels: &WHITE, format: ColorSpace::Srgba8 };

#[test]
fn texture_layouts() {
    let data = TextureData { width: 4, height: 2, pixels: vec![0; 4 * 2 * 16], format: ColorSpace::Rgbaf32 };
    let l = GpuTextureBuilder::from_cpu(data).label("hdr").layout();
    assert_eq!(l.bytes_per_row, 64);
    assert_eq!(l.rows_per_image, 2);
    assert_eq!(l.estimated_size, 128);
    let b = GpuTextureBuilder::from_static(&WHITE_TEX);
    assert!(b.label.is_none());
    let l = b.layout();
    assert_eq!((l.width, l.height, l.bytes_per_row, l.estimated_size), (1, 1, 4, 4));
}

#[test]
fn missing_material_textures_fall_back_to_white() {
    let textures = [Some(3), None, Some(5)];
    assert_eq!(resolve_texture_id(0, &textures, 1), 3);
    assert_eq!(resolve_texture_id(1, &textures, 1), 1);
    assert_eq!(resolve_texture_id(2, &textures, 1), 5);
}

#[test]
fn highlighted_entity() {
    assert_eq!(GpuSync::selected_entity_id(Some(42)), 42);
    assert_eq!(GpuSync::selected_entity_id(None), 0);
}

#[test]
fn scene_renderer_passes_and_stats() {
    let mut r = SceneRenderer::new();
    let names: Vec<&str> = r.default_pass.iter().map(|p| p.name()).collect();
    assert_eq!(
        names,
        vec![
            "ShadowPass Opaque",
            "MeshPass Opaque",
            "SkyboxPass",
            "MeshPass Transmission",
            "LightPass",
            "AxisPass",
            "BoundingboxPass",
            "LinearizePass",
            "OutlinePass"
        ]
    );
    assert_eq!(r.get_render_stats().opaque, DrawStats { draw_calls: 0, instances: 0 });
    let mut frame: FrameBuilder<u8, u8, u8> = FrameBuilder::new();
    frame.opaque_stats = DrawStats { draw_calls: 3, instances: 7 };
    frame.transmission_stats = DrawStats { draw_calls: 1, instances: 1 };
    r.record_stats(&frame);
    assert_eq!(r.get_render_stats().opaque.instances, 7);
    assert_eq!(r.get_render_stats().transmission.draw_calls, 1);
}

#[test]
fn layout_bindings() {
    let vf = Visibility::VertexFragment;
    let f = Visibility::Fragment;
    let e = |binding: u32, visibility: Visibility, kind: BindingKind| LayoutEntry { binding, visibility, kind };
    assert_eq!(LayoutKind::Camera.entries(), vec![e(0, vf, BindingKind::Uniform)]);
    assert_eq!(
        LayoutKind::PerFrame.entries(),
        vec![e(0, vf, BindingKind::Uniform), e(1, vf, BindingKind::Uniform), e(2, vf, BindingKind::Uniform)]
    );
    assert_eq!(
        LayoutKind::Ibl.entries(),
        vec![
            e(0, f, BindingKind::FilteringSampler),
            e(1, f, BindingKind::FloatTextureCube),
            e(2, f, BindingKind::FloatTextureCube),
            e(3, f, BindingKind::FloatTexture2d),
        ]
    );
    let material = LayoutKind::Material.entries();
    assert_eq!(material.len(), 7);
    assert_eq!(material[5], e(5, f, BindingKind::FloatTexture2d));
    assert_eq!(material[6], e(6, f, BindingKind::Uniform));
    assert_eq!(
        LayoutKind::EntityId.entries(),
        vec![e(0, f, BindingKind::NonFilteringSampler), e(1, f, BindingKind::UintTexture2d)]
    );
    assert_eq!(LayoutKind::Skybox.entries()[1], e(1, f, BindingKind::FloatTextureCube));
    assert_eq!(LayoutKind::Hdr.entries(), LayoutKind::LightTexture.entries());
}

#[test]
fn layout_labels() {
    assert_eq!(LayoutKind::Camera.label(), "Camera Bind Group Layout");
    assert_eq!(LayoutKind::PerFrame.label(), "Globals Bind Group Layout");
    assert_eq!(LayoutKind::EntityId.label(), "ID_Texture_bind_group_layout");
    let labels: Vec<&str> = LayoutKind::all().into_iter().map(|k| k.label()).collect();
    assert_eq!(labels.len(), 10);
}

#[test]
fn material_slots_fall_back_to_white() {
    let textures = [Some(3), None, Some(5), None, Some(9)];
    assert_eq!(material_textures(&textures, 1), vec![3, 1, 5, 1, 9]);
    assert_eq!(material_textures(&[None; 5], 7), vec![7; 5]);
    assert_eq!(MaterialTextureSlot::BaseColor.index(), 0);
    assert_eq!(MaterialTextureSlot::Occlusion.index(), 4);
}

#[test]
fn pipeline_descriptions() {
    let d = PipelineKind::Default.desc();
    assert_eq!(d.shader, "shader.wgsl");
    assert!(d.mesh_vertices && d.depth_write);
    assert_eq!(d.depth_compare, DepthCompare::Less);
    let l = PipelineKind::Light.desc();
    assert_eq!(l.shader, "light.wgsl");
    assert!(!l.mesh_vertices && l.depth_write);
    let s = PipelineKind::Skybox.desc();
    assert_eq!(s.shader, "skybox.wgsl");
    assert!(!s.mesh_vertices && !s.depth_write);
    assert_eq!(s.depth_compare, DepthCompare::LessEqual);
}
