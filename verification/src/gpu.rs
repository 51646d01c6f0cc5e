//! The GPU-side tables of the renderer: bind-group layouts, pipelines,
//! built-in textures, and how texture sources are laid out for upload.
use vstd::prelude::*;

use crate::assets::TextureId;

verus! {

/// The bind-group layouts, in the order they are created and indexed.
#[derive(Clone, Copy, Debug, PartialEq, Eq, Structural)]
pub enum LayoutKind {
    Camera,
    PerFrame,
    Lines,
    LightTexture,
    Ibl,
    Material,
    Model,
    Skybox,
    Hdr,
    EntityId,
}

pub open spec fn layout_kind_at(k: int) -> LayoutKind {
    if k == 0 {
        LayoutKind::Camera
    } else if k == 1 {
        LayoutKind::PerFrame
    } else if k == 2 {
        LayoutKind::Lines
    } else if k == 3 {
        LayoutKind::LightTexture
    } else if k == 4 {
        LayoutKind::Ibl
    } else if k == 5 {
        LayoutKind::Material
    } else if k == 6 {
        LayoutKind::Model
    } else if k == 7 {
        LayoutKind::Skybox
    } else if k == 8 {
        LayoutKind::Hdr
    } else {
        LayoutKind::EntityId
    }
}

impl LayoutKind {
    /// The position of the layout in the table of layouts.
    pub fn index(self) -> (r: usize)
        ensures
            r < 10,
            layout_kind_at(r as int) == self,
    {
        match self {
            LayoutKind::Camera => 0,
            LayoutKind::PerFrame => 1,
            LayoutKind::Lines => 2,
            LayoutKind::LightTexture => 3,
            LayoutKind::Ibl => 4,
            LayoutKind::Material => 5,
            LayoutKind::Model => 6,
            LayoutKind::Skybox => 7,
            LayoutKind::Hdr => 8,
            LayoutKind::EntityId => 9,
        }
    }

    /// Every layout kind, in declaration order.
    pub fn all() -> (r: Vec<LayoutKind>)
        ensures
            r@.len() == 10,
            forall|k: int| 0 <= k < 10 ==> #[trigger] r@[k] == layout_kind_at(k),
    {
        let mut r = Vec::new();
        r.push(LayoutKind::Camera);
        r.push(LayoutKind::PerFrame);
        r.push(LayoutKind::Lines);
        r.push(LayoutKind::LightTexture);
        r.push(LayoutKind::Ibl);
        r.push(LayoutKind::Material);
        r.push(LayoutKind::Model);
        r.push(LayoutKind::Skybox);
        r.push(LayoutKind::Hdr);
        r.push(LayoutKind::EntityId);
        r
    }
}

/// The shader stages that see a binding.
#[derive(Clone, Copy, Debug, PartialEq, Eq, Structural)]
pub enum Visibility {
    VertexFragment,
    Fragment,
}

/// What a binding of a layout holds.
#[derive(Clone, Copy, Debug, PartialEq, Eq, Structural)]
pub enum BindingKind {
    /// A uniform buffer, without dynamic offset.
    Uniform,
    /// A sampler that filters.
    FilteringSampler,
    /// A sampler that does not filter.
    NonFilteringSampler,
    /// A filterable float texture, single-sampled, two-dimensional.
    FloatTexture2d,
    /// A filterable float texture, single-sampled, a cube.
    FloatTextureCube,
    /// An unsigned-integer texture, single-sampled, two-dimensional.
    UintTexture2d,
}

/// One binding of a bind-group layout.
#[derive(Clone, Copy, Debug, PartialEq, Eq, Structural)]
pub struct LayoutEntry {
    pub binding: u32,
    pub visibility: Visibility,
    pub kind: BindingKind,
}

pub open spec fn entry(binding: u32, visibility: Visibility, kind: BindingKind) -> LayoutEntry {
    LayoutEntry { binding, visibility, kind }
}

/// The bindings of each layout, in binding order: uniforms seen by both
/// stages for the camera, per-frame, lines and model layouts; a filtering
/// sampler and textures for the light-texture, image-based-lighting, material,
/// skybox and HDR layouts (with the material's uniform last); a non-filtering
/// sampler and an integer texture for the entity-id layout.
pub open spec fn layout_entries(kind: LayoutKind) -> Seq<LayoutEntry> {
    let vf = Visibility::VertexFragment;
    let f = Visibility::Fragment;
    match kind {
        LayoutKind::Camera | LayoutKind::Lines | LayoutKind::Model => seq![entry(0, vf, BindingKind::Uniform)],
        LayoutKind::PerFrame => seq![
            entry(0, vf, BindingKind::Uniform),
            entry(1, vf, BindingKind::Uniform),
            entry(2, vf, BindingKind::Uniform),
        ],
        LayoutKind::LightTexture | LayoutKind::Hdr => seq![
            entry(0, f, BindingKind::FilteringSampler),
            entry(1, f, BindingKind::FloatTexture2d),
        ],
        LayoutKind::Ibl => seq![
            entry(0, f, BindingKind::FilteringSampler),
            entry(1, f, BindingKind::FloatTextureCube),
            entry(2, f, BindingKind::FloatTextureCube),
            entry(3, f, BindingKind::FloatTexture2d),
        ],
        LayoutKind::Material => seq![
            entry(0, f, BindingKind::FilteringSampler),
            entry(1, f, BindingKind::FloatTexture2d),
            entry(2, f, BindingKind::FloatTexture2d),
            entry(3, f, BindingKind::FloatTexture2d),
            entry(4, f, BindingKind::FloatTexture2d),
            entry(5, f, BindingKind::FloatTexture2d),
            entry(6, f, BindingKind::Uniform),
        ],
        LayoutKind::Skybox => seq![
            entry(0, f, BindingKind::FilteringSampler),
            entry(1, f, BindingKind::FloatTextureCube),
        ],
        LayoutKind::EntityId => seq![
            entry(0, f, BindingKind::NonFilteringSampler),
            entry(1, f, BindingKind::UintTexture2d),
        ],
    }
}

/// The bind-group layout table: every layout numbers its bindings from 0 in
/// order; the camera, lines and model layouts hold one uniform and the
/// per-frame layout three, seen by both stages; the HDR and light-texture
/// layouts sample a two-dimensional float texture, the skybox a cube map,
/// image-based lighting two cube maps and a two-dimensional lookup table, and
/// the material five two-dimensional textures followed by its uniform, all
/// through a filtering sampler in the fragment stage; the entity-id layout
/// reads an unsigned-integer texture through a non-filtering sampler.
pub proof fn lemma_layout_bindings(kind: LayoutKind)
    ensures
        forall|k: int| 0 <= k < layout_entries(kind).len() ==> #[trigger] layout_entries(kind)[k].binding == k,
        (kind == LayoutKind::Camera || kind == LayoutKind::Lines || kind == LayoutKind::Model) ==> (layout_entries(kind)
            == seq![(LayoutEntry { binding: 0, visibility: Visibility::VertexFragment, kind: BindingKind::Uniform })]),
        kind == LayoutKind::PerFrame ==> (layout_entries(kind) == seq![
            (LayoutEntry { binding: 0, visibility: Visibility::VertexFragment, kind: BindingKind::Uniform }),
            (LayoutEntry { binding: 1, visibility: Visibility::VertexFragment, kind: BindingKind::Uniform }),
            (LayoutEntry { binding: 2, visibility: Visibility::VertexFragment, kind: BindingKind::Uniform }),
        ]),
        (kind == LayoutKind::Hdr || kind == LayoutKind::LightTexture) ==> (layout_entries(kind) == seq![
            (LayoutEntry { binding: 0, visibility: Visibility::Fragment, kind: BindingKind::FilteringSampler }),
            (LayoutEntry { binding: 1, visibility: Visibility::Fragment, kind: BindingKind::FloatTexture2d }),
        ]),
        kind == LayoutKind::Skybox ==> (layout_entries(kind) == seq![
            (LayoutEntry { binding: 0, visibility: Visibility::Fragment, kind: BindingKind::FilteringSampler }),
            (LayoutEntry { binding: 1, visibility: Visibility::Fragment, kind: BindingKind::FloatTextureCube }),
        ]),
        kind == LayoutKind::Ibl ==> (layout_entries(kind) == seq![
            (LayoutEntry { binding: 0, visibility: Visibility::Fragment, kind: BindingKind::FilteringSampler }),
            (LayoutEntry { binding: 1, visibility: Visibility::Fragment, kind: BindingKind::FloatTextureCube }),
            (LayoutEntry { binding: 2, visibility: Visibility::Fragment, kind: BindingKind::FloatTextureCube }),
            (LayoutEntry { binding: 3, visibility: Visibility::Fragment, kind: BindingKind::FloatTexture2d }),
        ]),
        kind == LayoutKind::Material ==> (layout_entries(kind) == seq![
            (LayoutEntry { binding: 0, visibility: Visibility::Fragment, kind: BindingKind::FilteringSampler }),
            (LayoutEntry { binding: 1, visibility: Visibility::Fragment, kind: BindingKind::FloatTexture2d }),
            (LayoutEntry { binding: 2, visibility: Visibility::Fragment, kind: BindingKind::FloatTexture2d }),
            (LayoutEntry { binding: 3, visibility: Visibility::Fragment, kind: BindingKind::FloatTexture2d }),
            (LayoutEntry { binding: 4, visibility: Visibility::Fragment, kind: BindingKind::FloatTexture2d }),
            (LayoutEntry { binding: 5, visibility: Visibility::Fragment, kind: BindingKind::FloatTexture2d }),
            (LayoutEntry { binding: 6, visibility: Visibility::Fragment, kind: BindingKind::Uniform }),
        ]),
        kind == LayoutKind::EntityId ==> (layout_entries(kind) == seq![
            (LayoutEntry { binding: 0, visibility: Visibility::Fragment, kind: BindingKind::NonFilteringSampler }),
            (LayoutEntry { binding: 1, visibility: Visibility::Fragment, kind: BindingKind::UintTexture2d }),
        ]),
{
}

/// The label each layout is created with.
pub open spec fn layout_label(kind: LayoutKind) -> Seq<char> {
    match kind {
        LayoutKind::Camera => "Camera Bind Group Layout"@,
        LayoutKind::PerFrame => "Globals Bind Group Layout"@,
        LayoutKind::Lines => "Lines Bind Group Layout"@,
        LayoutKind::LightTexture => "Light Texture_bind_group_layout"@,
        LayoutKind::Ibl => "Light Ibl_bind_group_layout"@,
        LayoutKind::Material => "Material_bind_group_layout"@,
        LayoutKind::Model => "Model Bind Group Layout"@,
        LayoutKind::Skybox => "Skybox bind_group_layout"@,
        LayoutKind::Hdr => "Hdr_Texture_bind_group_layout"@,
        LayoutKind::EntityId => "ID_Texture_bind_group_layout"@,
    }
}

fn uniforms(visibility: Visibility, count: u32) -> (r: Vec<LayoutEntry>)
    requires
        count <= 3,
    ensures
        r@.len() == count,
        forall|k: int| 0 <= k < count ==> #[trigger] r@[k] == entry(k as u32, visibility, BindingKind::Uniform),
{
    let mut r: Vec<LayoutEntry> = Vec::new();
    for b in 0..count
        invariant
            r@.len() == b,
            forall|k: int| 0 <= k < b ==> #[trigger] r@[k] == entry(k as u32, visibility, BindingKind::Uniform),
    {
        r.push(LayoutEntry { binding: b, visibility, kind: BindingKind::Uniform });
    }
    r
}

/// A fragment-stage sampler at binding 0, then these textures from binding 1 on.
fn sampled(sampler: BindingKind, textures: &[BindingKind]) -> (r: Vec<LayoutEntry>)
    requires
        textures@.len() < 8,
    ensures
        r@.len() == textures@.len() + 1,
        r@[0] == entry(0, Visibility::Fragment, sampler),
        forall|k: int| 1 <= k <= textures@.len() ==> #[trigger] r@[k] == entry(k as u32, Visibility::Fragment, textures@[k - 1]),
{
    let mut r: Vec<LayoutEntry> = Vec::new();
    r.push(LayoutEntry { binding: 0, visibility: Visibility::Fragment, kind: sampler });
    for k in 0..textures.len()
        invariant
            textures@.len() < 8,
            r@.len() == k + 1,
            r@[0] == entry(0, Visibility::Fragment, sampler),
            forall|j: int| 1 <= j <= k ==> #[trigger] r@[j] == entry(j as u32, Visibility::Fragment, textures@[j - 1]),
    {
        r.push(LayoutEntry { binding: (k + 1) as u32, visibility: Visibility::Fragment, kind: textures[k] });
    }
    r
}

impl LayoutKind {
    /// The bindings of the layout, in binding order.
    pub fn entries(self) -> (r: Vec<LayoutEntry>)
        ensures
            r@ == layout_entries(self),
            forall|k: int| 0 <= k < r@.len() ==> #[trigger] r@[k].binding == k,
    {
        proof {
            lemma_layout_bindings(self);
        }
        let f = Visibility::Fragment;
        match self {
            LayoutKind::Camera | LayoutKind::Lines | LayoutKind::Model => {
                let r = uniforms(Visibility::VertexFragment, 1);
                assert(r@ =~= layout_entries(self));
                r
            },
            LayoutKind::PerFrame => {
                let r = uniforms(Visibility::VertexFragment, 3);
                assert(r@ =~= layout_entries(self));
                r
            },
            LayoutKind::LightTexture | LayoutKind::Hdr => {
                let t = [BindingKind::FloatTexture2d];
                let r = sampled(BindingKind::FilteringSampler, &t);
                assert(r@ =~= layout_entries(self));
                r
            },
            LayoutKind::Ibl => {
                let t = [BindingKind::FloatTextureCube, BindingKind::FloatTextureCube, BindingKind::FloatTexture2d];
                let r = sampled(BindingKind::FilteringSampler, &t);
                assert(r@ =~= layout_entries(self));
                r
            },
            LayoutKind::Material => {
                let t = [BindingKind::FloatTexture2d; 5];
                let mut r = sampled(BindingKind::FilteringSampler, &t);
                r.push(LayoutEntry { binding: 6, visibility: f, kind: BindingKind::Uniform });
                assert(r@ =~= layout_entries(self));
                r
            },
            LayoutKind::Skybox => {
                let t = [BindingKind::FloatTextureCube];
                let r = sampled(BindingKind::FilteringSampler, &t);
                assert(r@ =~= layout_entries(self));
                r
            },
            LayoutKind::EntityId => {
                let t = [BindingKind::UintTexture2d];
                let r = sampled(BindingKind::NonFilteringSampler, &t);
                assert(r@ =~= layout_entries(self));
                r
            },
        }
    }

    /// The label the layout is created with.
    pub fn label(self) -> (r: &'static str)
        ensures
            r@ == layout_label(self),
    {
        match self {
            LayoutKind::Camera => "Camera Bind Group Layout",
            LayoutKind::PerFrame => "Globals Bind Group Layout",
            LayoutKind::Lines => "Lines Bind Group Layout",
            LayoutKind::LightTexture => "Light Texture_bind_group_layout",
            LayoutKind::Ibl => "Light Ibl_bind_group_layout",
            LayoutKind::Material => "Material_bind_group_layout",
            LayoutKind::Model => "Model Bind Group Layout",
            LayoutKind::Skybox => "Skybox bind_group_layout",
            LayoutKind::Hdr => "Hdr_Texture_bind_group_layout",
            LayoutKind::EntityId => "ID_Texture_bind_group_layout",
        }
    }
}

/// The render pipelines, in the order they are created and indexed.
#[derive(Clone, Copy, Debug, PartialEq, Eq, Structural)]
pub enum PipelineKind {
    Default,
    Light,
    Skybox,
}

pub open spec fn pipeline_kind_at(k: int) -> PipelineKind {
    if k == 0 {
        PipelineKind::Default
    } else if k == 1 {
        PipelineKind::Light
    } else {
        PipelineKind::Skybox
    }
}

impl PipelineKind {
    /// The position of the pipeline in the table of pipelines.
    pub fn index(self) -> (r: usize)
        ensures
            r < 3,
            pipeline_kind_at(r as int) == self,
    {
        match self {
            PipelineKind::Default => 0,
            PipelineKind::Light => 1,
            PipelineKind::Skybox => 2,
        }
    }

    /// Every pipeline kind, in declaration order.
    pub fn all() -> (r: Vec<PipelineKind>)
        ensures
            r@.len() == 3,
            forall|k: int| 0 <= k < 3 ==> #[trigger] r@[k] == pipeline_kind_at(k),
    {
        let mut r = Vec::new();
        r.push(PipelineKind::Default);
        r.push(PipelineKind::Light);
        r.push(PipelineKind::Skybox);
        r
    }
}

/// How a pipeline compares fragment depths with the depth buffer.
#[derive(Clone, Copy, Debug, PartialEq, Eq, Structural)]
pub enum DepthCompare {
    Less,
    LessEqual,
}

/// What tells the render pipelines apart: their shader, whether they read
/// mesh vertices, and how they test and write depth. All of them draw
/// triangle lists, unculled, filled, single-sampled, replacing the colour
/// target, against a 32-bit float depth buffer.
#[derive(Clone, Copy, Debug)]
pub struct PipelineDesc {
    pub shader: &'static str,
    pub mesh_vertices: bool,
    pub depth_write: bool,
    pub depth_compare: DepthCompare,
}

/// The shader file of each pipeline.
pub open spec fn pipeline_shader(kind: PipelineKind) -> Seq<char> {
    match kind {
        PipelineKind::Default => "shader.wgsl"@,
        PipelineKind::Light => "light.wgsl"@,
        PipelineKind::Skybox => "skybox.wgsl"@,
    }
}

impl PipelineKind {
    /// The description of the pipeline: the default one (depth written,
    /// nearer fragments pass) for the mesh and light-icon pipelines, the mesh
    /// pipeline alone reading mesh vertices; the skybox pipeline drawn behind
    /// everything (depth not written, equal depths pass).
    pub fn desc(self) -> (d: PipelineDesc)
        ensures
            d.shader@ == pipeline_shader(self),
            d.mesh_vertices == (self == PipelineKind::Default),
            d.depth_write == (self != PipelineKind::Skybox),
            d.depth_compare == if self == PipelineKind::Skybox {
                DepthCompare::LessEqual
            } else {
                DepthCompare::Less
            },
    {
        match self {
            PipelineKind::Default => PipelineDesc {
                shader: "shader.wgsl",
                mesh_vertices: true,
                depth_write: true,
                depth_compare: DepthCompare::Less,
            },
            PipelineKind::Light => PipelineDesc {
                shader: "light.wgsl",
                mesh_vertices: false,
                depth_write: true,
                depth_compare: DepthCompare::Less,
            },
            PipelineKind::Skybox => PipelineDesc {
                shader: "skybox.wgsl",
                mesh_vertices: false,
                depth_write: false,
                depth_compare: DepthCompare::LessEqual,
            },
        }
    }
}

/// The textures built into the renderer.
#[derive(Clone, Copy, Debug, PartialEq, Eq, Structural)]
pub enum TextureSlot {
    LightIcon,
}

impl TextureSlot {
    /// The position of the texture in the table of built-in textures.
    pub fn index(self) -> (r: usize)
        ensures
            r == 0,
    {
        match self {
            TextureSlot::LightIcon => 0,
        }
    }

    /// Every built-in texture, in declaration order.
    pub fn all() -> (r: Vec<TextureSlot>)
        ensures
            r@ == seq![TextureSlot::LightIcon],
    {
        let mut r = Vec::new();
        r.push(TextureSlot::LightIcon);
        r
    }
}

/// The texel formats of texture data.
#[derive(Clone, Copy, Debug, PartialEq, Eq, Structural)]
pub enum ColorSpace {
    Rgba8,
    Srgba8,
    Rgbaf16,
    Rgbaf32,
}

impl ColorSpace {
    pub open spec fn spec_pixel_size(self) -> u32 {
        match self {
            ColorSpace::Rgba8 | ColorSpace::Srgba8 => 4,
            ColorSpace::Rgbaf16 => 8,
            ColorSpace::Rgbaf32 => 16,
        }
    }

    /// The bytes of one texel: four 8-bit, four 16-bit or four 32-bit channels.
    pub fn pixel_size(self) -> (r: u32)
        ensures
            r == self.spec_pixel_size(),
            (self == ColorSpace::Rgba8 || self == ColorSpace::Srgba8) ==> r == 4,
            self == ColorSpace::Rgbaf16 ==> r == 8,
            self == ColorSpace::Rgbaf32 ==> r == 16,
    {
        match self {
            ColorSpace::Rgba8 | ColorSpace::Srgba8 => 4,
            ColorSpace::Rgbaf16 => 8,
            ColorSpace::Rgbaf32 => 16,
        }
    }
}

/// Decoded texels in memory.
pub struct TextureData {
    pub width: u32,
    pub height: u32,
    pub pixels: Vec<u8>,
    pub format: ColorSpace,
}

/// Texels compiled into the program.
pub struct StaticTexture {
    pub width: u32,
    pub height: u32,
    pub pixels: &'static [u8],
    pub format: ColorSpace,
}

/// Where the texels of a texture come from.
pub enum TextureSource<'a> {
    Cpu(TextureData),
    Static(&'a StaticTexture),
}

/// How a texture is created and filled: its extent, format, row pitch, and
/// the bytes it holds.
#[derive(Clone, Copy, Debug, PartialEq, Eq, Structural)]
pub struct TextureLayout {
    pub width: u32,
    pub height: u32,
    pub format: ColorSpace,
    pub bytes_per_row: u32,
    pub rows_per_image: u32,
    pub estimated_size: usize,
}

/// The width, height, format and byte count of a source.
pub open spec fn source_shape(source: TextureSource) -> (u32, u32, ColorSpace, nat) {
    match source {
        TextureSource::Cpu(d) => (d.width, d.height, d.format, d.pixels@.len()),
        TextureSource::Static(t) => (t.width, t.height, t.format, t.pixels@.len()),
    }
}

/// A source's shape is its own: the width, height, format and byte count of
/// the decoded or compiled-in texels it holds, in that order.
pub proof fn lemma_source_shape(source: TextureSource)
    ensures
        match source {
            TextureSource::Cpu(d) => source_shape(source) == (d.width, d.height, d.format, d.pixels@.len()),
            TextureSource::Static(t) => source_shape(source) == (t.width, t.height, t.format, t.pixels@.len()),
        },
{
}

/// A texture to upload: its source and an optional label.
pub struct GpuTextureBuilder<'a> {
    pub source: TextureSource<'a>,
    pub label: Option<&'a str>,
}

impl<'a> GpuTextureBuilder<'a> {
    fn from_source(source: TextureSource<'a>) -> (b: Self)
        ensures
            b.source == source,
            b.label is None,
    {
        GpuTextureBuilder { source, label: None }
    }

    /// A texture filled from decoded texels.
    pub fn from_cpu(data: TextureData) -> (b: GpuTextureBuilder<'static>)
        ensures
            b.source == TextureSource::Cpu(data),
            b.label is None,
    {
        GpuTextureBuilder::from_source(TextureSource::Cpu(data))
    }

    /// A texture filled from texels compiled into the program.
    pub fn from_static(tex: &'static StaticTexture) -> (b: GpuTextureBuilder<'static>)
        ensures
            b.source == TextureSource::Static(tex),
            b.label is None,
    {
        GpuTextureBuilder::from_source(TextureSource::Static(tex))
    }

    /// The same texture, labelled.
    pub fn label(self, label: &'a str) -> (b: Self)
        ensures
            b.source == self.source,
            b.label == Some(label),
    {
        GpuTextureBuilder { source: self.source, label: Some(label) }
    }

    /// The extent, format and row pitch of the texture, and its size in bytes.
    pub fn layout(&self) -> (l: TextureLayout)
        requires
            source_shape(self.source).2.spec_pixel_size() * source_shape(self.source).0 <= u32::MAX,
        ensures
            ({
                let (w, h, f, n) = source_shape(self.source);
                l == (TextureLayout {
                    width: w,
                    height: h,
                    format: f,
                    bytes_per_row: (f.spec_pixel_size() * w) as u32,
                    rows_per_image: h,
                    estimated_size: n as usize,
                })
            }),
            match self.source {
                TextureSource::Cpu(d) => {
                    &&& l.width == d.width
                    &&& l.height == d.height
                    &&& l.format == d.format
                    &&& l.bytes_per_row == d.format.spec_pixel_size() * d.width
                    &&& l.rows_per_image == d.height
                    &&& l.estimated_size == d.pixels@.len()
                },
                TextureSource::Static(t) => {
                    &&& l.width == t.width
                    &&& l.height == t.height
                    &&& l.format == t.format
                    &&& l.bytes_per_row == t.format.spec_pixel_size() * t.width
                    &&& l.rows_per_image == t.height
                    &&& l.estimated_size == t.pixels@.len()
                },
            },
    {
        let (width, height, format, estimated_size) = match &self.source {
            TextureSource::Cpu(data) => (data.width, data.height, data.format, data.pixels.len()),
            TextureSource::Static(tex) => (tex.width, tex.height, tex.format, tex.pixels.len()),
        };
        let pixel_size = format.pixel_size();
        TextureLayout {
            width,
            height,
            format,
            bytes_per_row: pixel_size * width,
            rows_per_image: height,
            estimated_size,
        }
    }
}

/// The texture bound to material slot `slot`: the material's own texture
/// there, or else the white texture.
pub fn resolve_texture_id(slot: usize, textures: &[Option<TextureId>], white: TextureId) -> (r: TextureId)
    requires
        slot < textures@.len(),
    ensures
        r == match textures@[slot as int] {
            Some(t) => t,
            None => white,
        },
{
    match textures[slot] {
        Some(t) => t,
        None => white,
    }
}

/// The texture slots of a material, in the order their textures are bound
/// (bindings 1 to 5 of the material layout).
#[derive(Clone, Copy, Debug, PartialEq, Eq, Structural)]
pub enum MaterialTextureSlot {
    BaseColor,
    Normal,
    MetallicRoughness,
    Emissive,
    Occlusion,
}

impl MaterialTextureSlot {
    pub open spec fn spec_index(self) -> int {
        match self {
            MaterialTextureSlot::BaseColor => 0,
            MaterialTextureSlot::Normal => 1,
            MaterialTextureSlot::MetallicRoughness => 2,
            MaterialTextureSlot::Emissive => 3,
            MaterialTextureSlot::Occlusion => 4,
        }
    }

    /// The position of the slot among a material's textures.
    pub fn index(self) -> (r: usize)
        ensures
            r == self.spec_index(),
    {
        match self {
            MaterialTextureSlot::BaseColor => 0,
            MaterialTextureSlot::Normal => 1,
            MaterialTextureSlot::MetallicRoughness => 2,
            MaterialTextureSlot::Emissive => 3,
            MaterialTextureSlot::Occlusion => 4,
        }
    }
}

/// The textures a material binds, one per slot in binding order: its own
/// texture in each slot that has one, the white texture in the others.
pub fn material_textures(textures: &[Option<TextureId>], white: TextureId) -> (r: Vec<TextureId>)
    requires
        textures@.len() >= 5,
    ensures
        r@.len() == 5,
        forall|k: int|
            0 <= k < 5 ==> #[trigger] r@[k] == match textures@[k] {
                Some(t) => t,
                None => white,
            },
{
    let mut r: Vec<TextureId> = Vec::new();
    let slots = [
        MaterialTextureSlot::BaseColor,
        MaterialTextureSlot::Normal,
        MaterialTextureSlot::MetallicRoughness,
        MaterialTextureSlot::Emissive,
        MaterialTextureSlot::Occlusion,
    ];
    for k in 0..5
        invariant
            textures@.len() >= 5,
            r@.len() == k,
            forall|j: int| 0 <= j < 5 ==> #[trigger] slots@[j].spec_index() == j,
            forall|j: int|
                0 <= j < k ==> #[trigger] r@[j] == match textures@[j] {
                    Some(t) => t,
                    None => white,
                },
    {
        let slot = slots[k].index();
        r.push(resolve_texture_id(slot, textures, white));
    }
    r
}

/// Keeps the GPU copies of per-frame data in step with the scene.
pub struct GpuSync;

impl GpuSync {
    /// The entity id the shaders highlight: the selected entity's, or zero
    /// when nothing is selected.
    pub fn selected_entity_id(selected: Option<u64>) -> (r: u64)
        ensures
            r == match selected {
                Some(id) => id,
                None => 0,
            },
    {
        match selected {
            Some(id) => id,
            None => 0,
        }
    }
}

} // verus!
