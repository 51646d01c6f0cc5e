//! The passes of a frame and the resources each declares.
use vstd::prelude::*;

use crate::draws::{draw_steps, is_material_order, mesh_pass_draws, DrawStep};
use crate::framebuilder::{FrameBuilder, InstanceBatch};
use crate::rendergraph::{is_execution_order, PassNode, RenderPass, ResourceId};

verus! {

/// Draws the world axes into the HDR target.
pub struct AxisPass {}

impl AxisPass {
    pub fn new() -> Self {
        AxisPass {}
    }
}

impl RenderPass for AxisPass {
    open spec fn spec_name(&self) -> Seq<char> {
        "AxisPass"@
    }

    open spec fn spec_reads(&self) -> Seq<ResourceId> {
        seq![]
    }

    open spec fn spec_writes(&self) -> Seq<ResourceId> {
        seq![ResourceId::HDR]
    }

    fn name(&self) -> (r: &'static str) {
        "AxisPass"
    }

    fn reads(&self) -> (r: &[ResourceId])
        ensures
            r@ == Seq::<ResourceId>::empty(),
    {
        &[]
    }

    fn writes(&self) -> (r: &[ResourceId])
        ensures
            r@ == seq![ResourceId::HDR],
    {
        &[ResourceId::HDR]
    }
}

/// Draws the line list of the frame (bounding boxes, light frusta) into the HDR target.
pub struct LinesPass {}

impl LinesPass {
    pub fn new() -> Self {
        LinesPass {}
    }
}

impl RenderPass for LinesPass {
    open spec fn spec_name(&self) -> Seq<char> {
        "BoundingboxPass"@
    }

    open spec fn spec_reads(&self) -> Seq<ResourceId> {
        seq![]
    }

    open spec fn spec_writes(&self) -> Seq<ResourceId> {
        seq![ResourceId::HDR]
    }

    fn name(&self) -> (r: &'static str) {
        "BoundingboxPass"
    }

    fn reads(&self) -> (r: &[ResourceId])
        ensures
            r@ == Seq::<ResourceId>::empty(),
    {
        &[]
    }

    fn writes(&self) -> (r: &[ResourceId])
        ensures
            r@ == seq![ResourceId::HDR],
    {
        &[ResourceId::HDR]
    }
}

/// Draws bounding boxes into the HDR target.
pub struct BoundingboxPass {}

impl BoundingboxPass {
    pub fn new() -> Self {
        BoundingboxPass {}
    }
}

impl RenderPass for BoundingboxPass {
    open spec fn spec_name(&self) -> Seq<char> {
        "BoundingboxPass"@
    }

    open spec fn spec_reads(&self) -> Seq<ResourceId> {
        seq![]
    }

    open spec fn spec_writes(&self) -> Seq<ResourceId> {
        seq![ResourceId::HDR]
    }

    fn name(&self) -> (r: &'static str) {
        "BoundingboxPass"
    }

    fn reads(&self) -> (r: &[ResourceId])
        ensures
            r@ == Seq::<ResourceId>::empty(),
    {
        &[]
    }

    fn writes(&self) -> (r: &[ResourceId])
        ensures
            r@ == seq![ResourceId::HDR],
    {
        &[ResourceId::HDR]
    }
}

/// Draws the light icons into the HDR and depth targets.
pub struct LightsIconPass {}

impl LightsIconPass {
    pub fn new() -> Self {
        LightsIconPass {}
    }

    /// How many light icons a frame draws: one per light sent to the shaders,
    /// none when lighting is off.
    pub fn icon_count<T, D, V>(&self, frame: &FrameBuilder<T, D, V>) -> (r: u32)
        ensures
            r == if frame.lights.enabled == 0 {
                0
            } else {
                frame.lights.count
            },
    {
        if frame.lights.enabled == 0 {
            0
        } else {
            frame.lights.count
        }
    }
}

impl RenderPass for LightsIconPass {
    open spec fn spec_name(&self) -> Seq<char> {
        "LightPass"@
    }

    open spec fn spec_reads(&self) -> Seq<ResourceId> {
        seq![]
    }

    open spec fn spec_writes(&self) -> Seq<ResourceId> {
        seq![ResourceId::HDR, ResourceId::DEPTH]
    }

    fn name(&self) -> (r: &'static str) {
        "LightPass"
    }

    fn reads(&self) -> (r: &[ResourceId])
        ensures
            r@ == Seq::<ResourceId>::empty(),
    {
        &[]
    }

    fn writes(&self) -> (r: &[ResourceId])
        ensures
            r@ == seq![ResourceId::HDR, ResourceId::DEPTH],
    {
        &[ResourceId::HDR, ResourceId::DEPTH]
    }
}

/// Tone-maps the HDR target into the LDR target.
pub struct LinearizePass {}

/// Tone mapping runs after drawing: the linearize pass reads the HDR target
/// and writes the LDR target, so in every execution order of a graph it comes
/// after each other pass that writes HDR.
pub proof fn lemma_linearize_after_hdr_writers(
    p: LinearizePass,
    passes: Seq<PassNode>,
    order: Seq<usize>,
    a: int,
    b: int,
)
    requires
        is_execution_order(passes, order),
        0 <= a < order.len(),
        0 <= b < order.len(),
        a != b,
        passes[order[a] as int].reads@ == p.spec_reads(),
        passes[order[b] as int].writes@.contains(ResourceId::HDR),
    ensures
        p.spec_reads() == seq![ResourceId::HDR],
        p.spec_writes() == seq![ResourceId::LDR],
        b < a,
{
    assert(p.spec_reads()[0] == ResourceId::HDR);
    assert(passes[order[a] as int].reads@.contains(ResourceId::HDR));
    if a < b {
        assert(order[a] != order[b]);
    } else {
        assert(order[b] != order[a]);
    }
    assert(order[a] < passes.len() && order[b] < passes.len());
    assert(crate::rendergraph::depends_on(passes, order[a] as int, order[b] as int));
}

impl LinearizePass {
    pub fn new() -> Self {
        LinearizePass {}
    }
}

impl RenderPass for LinearizePass {
    open spec fn spec_name(&self) -> Seq<char> {
        "LinearizePass"@
    }

    open spec fn spec_reads(&self) -> Seq<ResourceId> {
        seq![ResourceId::HDR]
    }

    open spec fn spec_writes(&self) -> Seq<ResourceId> {
        seq![ResourceId::LDR]
    }

    fn name(&self) -> (r: &'static str) {
        "LinearizePass"
    }

    fn reads(&self) -> (r: &[ResourceId])
        ensures
            r@ == seq![ResourceId::HDR],
    {
        &[ResourceId::HDR]
    }

    fn writes(&self) -> (r: &[ResourceId])
        ensures
            r@ == seq![ResourceId::LDR],
    {
        &[ResourceId::LDR]
    }
}

/// Which meshes a mesh pass draws.
#[derive(Clone, Copy, Debug, PartialEq, Eq, Structural)]
pub enum MeshPassMode {
    Opaque,
    Transmission,
}

/// Draws meshes: first the opaque ones, then, in a second pass, the transmissive ones.
pub struct MeshPass {
    pub mode: MeshPassMode,
}

impl MeshPass {
    pub fn opaque() -> (p: Self)
        ensures
            p.mode == MeshPassMode::Opaque,
    {
        MeshPass { mode: MeshPassMode::Opaque }
    }

    pub fn transmission() -> (p: Self)
        ensures
            p.mode == MeshPassMode::Transmission,
    {
        MeshPass { mode: MeshPassMode::Transmission }
    }

    /// The opaque pass clears its targets; the transmission pass draws over
    /// what the opaque pass left.
    pub fn clears_targets(&self) -> (r: bool)
        ensures
            r == (self.mode == MeshPassMode::Opaque),
    {
        match self.mode {
            MeshPassMode::Opaque => true,
            MeshPassMode::Transmission => false,
        }
    }

    /// The batches of the frame this pass draws.
    pub open spec fn spec_batches<T, D, V>(&self, frame: FrameBuilder<T, D, V>) -> Seq<InstanceBatch> {
        match self.mode {
            MeshPassMode::Opaque => frame.opaque_batches@,
            MeshPassMode::Transmission => frame.transmission_batches@,
        }
    }

    /// The batches of the frame this pass draws.
    pub fn batches<'a, T, D, V>(&self, frame: &'a FrameBuilder<T, D, V>) -> (r: &'a Vec<InstanceBatch>)
        ensures
            r@ == self.spec_batches(*frame),
    {
        match self.mode {
            MeshPassMode::Opaque => &frame.opaque_batches,
            MeshPassMode::Transmission => &frame.transmission_batches,
        }
    }

    /// The draws of this pass over a frame, given which of its batches have
    /// their GPU mesh and material: its batches by material, the ready ones,
    /// binding a material only when it changes.
    pub fn draws<T, D, V>(&self, frame: &FrameBuilder<T, D, V>, ready: &[bool]) -> (r: Vec<DrawStep>)
        requires
            ready@.len() == self.spec_batches(*frame).len(),
        ensures
            exists|order: Seq<usize>|
                #[trigger] is_material_order(self.spec_batches(*frame), order) && r@ == draw_steps(
                    self.spec_batches(*frame),
                    order,
                    ready@,
                    order.len() as int,
                ).0,
    {
        let batches = self.batches(frame);
        mesh_pass_draws(batches.as_slice(), ready)
    }
}

impl RenderPass for MeshPass {
    open spec fn spec_name(&self) -> Seq<char> {
        match self.mode {
            MeshPassMode::Opaque => "MeshPass Opaque"@,
            MeshPassMode::Transmission => "MeshPass Transmission"@,
        }
    }

    open spec fn spec_reads(&self) -> Seq<ResourceId> {
        match self.mode {
            MeshPassMode::Opaque => seq![],
            MeshPassMode::Transmission => seq![ResourceId::OPAQUE],
        }
    }

    open spec fn spec_writes(&self) -> Seq<ResourceId> {
        seq![ResourceId::HDR, ResourceId::OPAQUE, ResourceId::ENTITY, ResourceId::DEPTH]
    }

    fn name(&self) -> (r: &'static str) {
        match self.mode {
            MeshPassMode::Opaque => "MeshPass Opaque",
            MeshPassMode::Transmission => "MeshPass Transmission",
        }
    }

    fn reads(&self) -> (r: &[ResourceId])
        ensures
            self.mode == MeshPassMode::Opaque ==> r@ == Seq::<ResourceId>::empty(),
            self.mode == MeshPassMode::Transmission ==> r@ == seq![ResourceId::OPAQUE],
    {
        match self.mode {
            MeshPassMode::Opaque => &[],
            MeshPassMode::Transmission => &[ResourceId::OPAQUE],
        }
    }

    fn writes(&self) -> (r: &[ResourceId])
        ensures
            r@ == seq![ResourceId::HDR, ResourceId::OPAQUE, ResourceId::ENTITY, ResourceId::DEPTH],
    {
        &[ResourceId::HDR, ResourceId::OPAQUE, ResourceId::ENTITY, ResourceId::DEPTH]
    }
}

/// Outlines the selected entity, reading the entity-id target.
pub struct OutlinePass {}

impl OutlinePass {
    pub fn new() -> Self {
        OutlinePass {}
    }
}

impl RenderPass for OutlinePass {
    open spec fn spec_name(&self) -> Seq<char> {
        "OutlinePass"@
    }

    open spec fn spec_reads(&self) -> Seq<ResourceId> {
        seq![ResourceId::ENTITY]
    }

    open spec fn spec_writes(&self) -> Seq<ResourceId> {
        seq![ResourceId::LDR]
    }

    fn name(&self) -> (r: &'static str) {
        "OutlinePass"
    }

    fn reads(&self) -> (r: &[ResourceId])
        ensures
            r@ == seq![ResourceId::ENTITY],
    {
        &[ResourceId::ENTITY]
    }

    fn writes(&self) -> (r: &[ResourceId])
        ensures
            r@ == seq![ResourceId::LDR],
    {
        &[ResourceId::LDR]
    }
}

/// Copies the entity id under the cursor into the pick buffer.
pub struct PickObjectPass {}

impl PickObjectPass {
    pub fn new() -> Self {
        PickObjectPass {}
    }
}

impl RenderPass for PickObjectPass {
    open spec fn spec_name(&self) -> Seq<char> {
        "PickObjectPass"@
    }

    open spec fn spec_reads(&self) -> Seq<ResourceId> {
        seq![ResourceId::ENTITY]
    }

    open spec fn spec_writes(&self) -> Seq<ResourceId> {
        seq![ResourceId::PICKBUFFER]
    }

    fn name(&self) -> (r: &'static str) {
        "PickObjectPass"
    }

    fn reads(&self) -> (r: &[ResourceId])
        ensures
            r@ == seq![ResourceId::ENTITY],
    {
        &[ResourceId::ENTITY]
    }

    fn writes(&self) -> (r: &[ResourceId])
        ensures
            r@ == seq![ResourceId::PICKBUFFER],
    {
        &[ResourceId::PICKBUFFER]
    }
}

/// Renders the shadow map of the lights.
pub struct ShadowPass {}

impl RenderPass for ShadowPass {
    open spec fn spec_name(&self) -> Seq<char> {
        "ShadowPass Opaque"@
    }

    open spec fn spec_reads(&self) -> Seq<ResourceId> {
        seq![]
    }

    open spec fn spec_writes(&self) -> Seq<ResourceId> {
        seq![ResourceId::SHADOWMAP]
    }

    fn name(&self) -> (r: &'static str) {
        "ShadowPass Opaque"
    }

    fn reads(&self) -> (r: &[ResourceId])
        ensures
            r@ == Seq::<ResourceId>::empty(),
    {
        &[]
    }

    fn writes(&self) -> (r: &[ResourceId])
        ensures
            r@ == seq![ResourceId::SHADOWMAP],
    {
        &[ResourceId::SHADOWMAP]
    }
}

/// Draws the environment cube behind the scene, when enabled.
pub struct SkyboxPass {
    pub enable: bool,
}

impl SkyboxPass {
    pub fn new() -> (p: Self)
        ensures
            !p.enable,
    {
        SkyboxPass { enable: false }
    }

    /// Takes the frame's skybox switch.
    pub fn prepare(&mut self, skybox_enable: bool)
        ensures
            final(self).enable == skybox_enable,
    {
        self.enable = skybox_enable;
    }
}

impl RenderPass for SkyboxPass {
    open spec fn spec_name(&self) -> Seq<char> {
        "SkyboxPass"@
    }

    open spec fn spec_reads(&self) -> Seq<ResourceId> {
        seq![]
    }

    open spec fn spec_writes(&self) -> Seq<ResourceId> {
        seq![ResourceId::HDR]
    }

    fn name(&self) -> (r: &'static str) {
        "SkyboxPass"
    }

    fn reads(&self) -> (r: &[ResourceId])
        ensures
            r@ == Seq::<ResourceId>::empty(),
    {
        &[]
    }

    fn writes(&self) -> (r: &[ResourceId])
        ensures
            r@ == seq![ResourceId::HDR],
    {
        &[ResourceId::HDR]
    }
}

/// Builds the mip chain of the HDR target with a compute or render pass.
pub struct HdrMipmapsPass {
    pub mips_enable: bool,
}

impl HdrMipmapsPass {
    pub fn new() -> (p: Self)
        ensures
            !p.mips_enable,
    {
        HdrMipmapsPass { mips_enable: false }
    }

    pub fn name(&self) -> (r: &'static str)
        ensures
            r@ == "HdrMipmapsPass"@,
    {
        "HdrMipmapsPass"
    }

    /// Takes the frame's compute-mipmaps switch.
    pub fn prepare(&mut self, mips_cs: bool)
        ensures
            final(self).mips_enable == mips_cs,
    {
        self.mips_enable = mips_cs;
    }
}

/// Draws the lights.
pub struct LightPass {}

impl LightPass {
    pub fn new() -> Self {
        LightPass {}
    }

    pub fn name(&self) -> (r: &'static str)
        ensures
            r@ == "LightPass"@,
    {
        "LightPass"
    }
}

/// Draws the transmissive meshes over the opaque copy of the scene.
pub struct TransmissionPass {}

impl TransmissionPass {
    pub fn new() -> Self {
        TransmissionPass {}
    }

    pub fn name(&self) -> (r: &'static str)
        ensures
            r@ == "TransmissionPass"@,
    {
        "TransmissionPass"
    }
}

/// Draws the user interface.
pub struct ImguiPass {}

impl ImguiPass {
    pub fn new() -> Self {
        ImguiPass {}
    }

    pub fn name(&self) -> (r: &'static str)
        ensures
            r@ == "ImguiPass"@,
    {
        "ImguiPass"
    }
}

/// A pass given by its name and the resources it declares.
pub struct DeclaredPass {
    pub name: &'static str,
    pub reads: &'static [ResourceId],
    pub writes: &'static [ResourceId],
}

impl RenderPass for DeclaredPass {
    open spec fn spec_name(&self) -> Seq<char> {
        self.name@
    }

    open spec fn spec_reads(&self) -> Seq<ResourceId> {
        self.reads@
    }

    open spec fn spec_writes(&self) -> Seq<ResourceId> {
        self.writes@
    }

    fn name(&self) -> (r: &'static str) {
        self.name
    }

    fn reads(&self) -> (r: &[ResourceId]) {
        self.reads
    }

    fn writes(&self) -> (r: &[ResourceId]) {
        self.writes
    }
}

} // verus!
