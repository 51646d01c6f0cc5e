//! The fixed sequence of passes that renders a scene, and its statistics.
use vstd::prelude::*;

use crate::framebuilder::{DrawStats, FrameBuilder};
use crate::rendergraph::{RenderPass, ResourceId};
use crate::renderpass::{
    AxisPass, LightsIconPass, LinearizePass, LinesPass, MeshPass, MeshPassMode, OutlinePass, PickObjectPass,
    ShadowPass, SkyboxPass,
};

verus! {

/// The draw statistics of the last rendered frame.
#[derive(Clone, Copy, Debug, PartialEq, Eq, Structural)]
pub struct FrameStats {
    pub opaque: DrawStats,
    pub transmission: DrawStats,
}

/// One of the passes a scene renderer runs.
pub enum RenderPassEnum {
    Shadow(ShadowPass),
    Mesh(MeshPass),
    Transmission(MeshPass),
    LightsIcon(LightsIconPass),
    Skybox(SkyboxPass),
    Axis(AxisPass),
    Lines(LinesPass),
    Linearize(LinearizePass),
    Outline(OutlinePass),
    PickObject(PickObjectPass),
}

impl RenderPass for RenderPassEnum {
    open spec fn spec_name(&self) -> Seq<char> {
        match self {
            RenderPassEnum::Shadow(p) => p.spec_name(),
            RenderPassEnum::Mesh(p) => p.spec_name(),
            RenderPassEnum::Transmission(p) => p.spec_name(),
            RenderPassEnum::LightsIcon(p) => p.spec_name(),
            RenderPassEnum::Skybox(p) => p.spec_name(),
            RenderPassEnum::Axis(p) => p.spec_name(),
            RenderPassEnum::Lines(p) => p.spec_name(),
            RenderPassEnum::Linearize(p) => p.spec_name(),
            RenderPassEnum::Outline(p) => p.spec_name(),
            RenderPassEnum::PickObject(p) => p.spec_name(),
        }
    }

    open spec fn spec_reads(&self) -> Seq<ResourceId> {
        match self {
            RenderPassEnum::Shadow(p) => p.spec_reads(),
            RenderPassEnum::Mesh(p) => p.spec_reads(),
            RenderPassEnum::Transmission(p) => p.spec_reads(),
            RenderPassEnum::LightsIcon(p) => p.spec_reads(),
            RenderPassEnum::Skybox(p) => p.spec_reads(),
            RenderPassEnum::Axis(p) => p.spec_reads(),
            RenderPassEnum::Lines(p) => p.spec_reads(),
            RenderPassEnum::Linearize(p) => p.spec_reads(),
            RenderPassEnum::Outline(p) => p.spec_reads(),
            RenderPassEnum::PickObject(p) => p.spec_reads(),
        }
    }

    open spec fn spec_writes(&self) -> Seq<ResourceId> {
        match self {
            RenderPassEnum::Shadow(p) => p.spec_writes(),
            RenderPassEnum::Mesh(p) => p.spec_writes(),
            RenderPassEnum::Transmission(p) => p.spec_writes(),
            RenderPassEnum::LightsIcon(p) => p.spec_writes(),
            RenderPassEnum::Skybox(p) => p.spec_writes(),
            RenderPassEnum::Axis(p) => p.spec_writes(),
            RenderPassEnum::Lines(p) => p.spec_writes(),
            RenderPassEnum::Linearize(p) => p.spec_writes(),
            RenderPassEnum::Outline(p) => p.spec_writes(),
            RenderPassEnum::PickObject(p) => p.spec_writes(),
        }
    }

    fn name(&self) -> (r: &'static str) {
        match self {
            RenderPassEnum::Shadow(p) => p.name(),
            RenderPassEnum::Mesh(p) => p.name(),
            RenderPassEnum::Transmission(p) => p.name(),
            RenderPassEnum::LightsIcon(p) => p.name(),
            RenderPassEnum::Skybox(p) => p.name(),
            RenderPassEnum::Axis(p) => p.name(),
            RenderPassEnum::Lines(p) => p.name(),
            RenderPassEnum::Linearize(p) => p.name(),
            RenderPassEnum::Outline(p) => p.name(),
            RenderPassEnum::PickObject(p) => p.name(),
        }
    }

    fn reads(&self) -> (r: &[ResourceId]) {
        match self {
            RenderPassEnum::Shadow(p) => p.reads(),
            RenderPassEnum::Mesh(p) => p.reads(),
            RenderPassEnum::Transmission(p) => p.reads(),
            RenderPassEnum::LightsIcon(p) => p.reads(),
            RenderPassEnum::Skybox(p) => p.reads(),
            RenderPassEnum::Axis(p) => p.reads(),
            RenderPassEnum::Lines(p) => p.reads(),
            RenderPassEnum::Linearize(p) => p.reads(),
            RenderPassEnum::Outline(p) => p.reads(),
            RenderPassEnum::PickObject(p) => p.reads(),
        }
    }

    fn writes(&self) -> (r: &[ResourceId]) {
        match self {
            RenderPassEnum::Shadow(p) => p.writes(),
            RenderPassEnum::Mesh(p) => p.writes(),
            RenderPassEnum::Transmission(p) => p.writes(),
            RenderPassEnum::LightsIcon(p) => p.writes(),
            RenderPassEnum::Skybox(p) => p.writes(),
            RenderPassEnum::Axis(p) => p.writes(),
            RenderPassEnum::Lines(p) => p.writes(),
            RenderPassEnum::Linearize(p) => p.writes(),
            RenderPassEnum::Outline(p) => p.writes(),
            RenderPassEnum::PickObject(p) => p.writes(),
        }
    }
}

/// The names of the default passes, in the order a scene renderer runs them.
pub open spec fn default_pass_names() -> Seq<Seq<char>> {
    seq![
        "ShadowPass Opaque"@,
        "MeshPass Opaque"@,
        "SkyboxPass"@,
        "MeshPass Transmission"@,
        "LightPass"@,
        "AxisPass"@,
        "BoundingboxPass"@,
        "LinearizePass"@,
        "OutlinePass"@,
    ]
}

/// The passes a new scene renderer runs, in order.
pub open spec fn default_passes() -> Seq<RenderPassEnum> {
    seq![
        RenderPassEnum::Shadow(ShadowPass {}),
        RenderPassEnum::Mesh(MeshPass { mode: MeshPassMode::Opaque }),
        RenderPassEnum::Skybox(SkyboxPass { enable: false }),
        RenderPassEnum::Transmission(MeshPass { mode: MeshPassMode::Transmission }),
        RenderPassEnum::LightsIcon(LightsIconPass {}),
        RenderPassEnum::Axis(AxisPass {}),
        RenderPassEnum::Lines(LinesPass {}),
        RenderPassEnum::Linearize(LinearizePass {}),
        RenderPassEnum::Outline(OutlinePass {}),
    ]
}

/// The default passes are listed in an order that respects what they
/// declare: whenever one of them reads a resource that another one writes,
/// the writer comes first. Run in list order, each pass finds its inputs
/// drawn: the transmission pass the opaque target, tone mapping the finished
/// HDR target, the outline the entity ids.
pub proof fn lemma_default_passes_in_dependency_order(a: int, b: int, r: ResourceId)
    requires
        0 <= a < default_passes().len(),
        0 <= b < default_passes().len(),
        a != b,
        default_passes()[a].spec_reads().contains(r),
        default_passes()[b].spec_writes().contains(r),
    ensures
        b < a,
{
    let ps = default_passes();
    let e = Seq::<ResourceId>::empty();
    assert(ps[0].spec_reads() == e && ps[0].spec_writes() == seq![ResourceId::SHADOWMAP]);
    assert(ps[1].spec_reads() == e && ps[1].spec_writes() == seq![
        ResourceId::HDR,
        ResourceId::OPAQUE,
        ResourceId::ENTITY,
        ResourceId::DEPTH,
    ]);
    assert(ps[2].spec_reads() == e && ps[2].spec_writes() == seq![ResourceId::HDR]);
    assert(ps[3].spec_reads() == seq![ResourceId::OPAQUE] && ps[3].spec_writes() == seq![
        ResourceId::HDR,
        ResourceId::OPAQUE,
        ResourceId::ENTITY,
        ResourceId::DEPTH,
    ]);
    assert(ps[4].spec_reads() == e && ps[4].spec_writes() == seq![ResourceId::HDR, ResourceId::DEPTH]);
    assert(ps[5].spec_reads() == e && ps[5].spec_writes() == seq![ResourceId::HDR]);
    assert(ps[6].spec_reads() == e && ps[6].spec_writes() == seq![ResourceId::HDR]);
    assert(ps[7].spec_reads() == seq![ResourceId::HDR] && ps[7].spec_writes() == seq![ResourceId::LDR]);
    assert(ps[8].spec_reads() == seq![ResourceId::ENTITY] && ps[8].spec_writes() == seq![ResourceId::LDR]);
    let rd = ps[a].spec_reads();
    let wr = ps[b].spec_writes();
    let i = choose|i: int| 0 <= i < rd.len() && rd[i] == r;
    let j = choose|j: int| 0 <= j < wr.len() && wr[j] == r;
}

/// Renders a scene with a fixed sequence of passes.
pub struct SceneRenderer {
    pub default_pass: Vec<RenderPassEnum>,
    pub stats: FrameStats,
}

impl SceneRenderer {
    /// The default passes: shadows, opaque meshes, skybox, transmissive
    /// meshes, light icons, axes, lines, tone mapping and outline; no
    /// statistics yet.
    pub fn new() -> (r: Self)
        ensures
            r.default_pass@ == default_passes(),
            r.default_pass@.len() == default_pass_names().len(),
            forall|k: int| 0 <= k < r.default_pass@.len() ==> #[trigger] r.default_pass@[k].spec_name()
                == default_pass_names()[k],
            r.stats == (FrameStats {
                opaque: DrawStats { draw_calls: 0, instances: 0 },
                transmission: DrawStats { draw_calls: 0, instances: 0 },
            }),
    {
        let mut default_pass = Vec::new();
        default_pass.push(RenderPassEnum::Shadow(ShadowPass {}));
        default_pass.push(RenderPassEnum::Mesh(MeshPass::opaque()));
        default_pass.push(RenderPassEnum::Skybox(SkyboxPass::new()));
        default_pass.push(RenderPassEnum::Transmission(MeshPass::transmission()));
        default_pass.push(RenderPassEnum::LightsIcon(LightsIconPass::new()));
        default_pass.push(RenderPassEnum::Axis(AxisPass::new()));
        default_pass.push(RenderPassEnum::Lines(LinesPass::new()));
        default_pass.push(RenderPassEnum::Linearize(LinearizePass::new()));
        default_pass.push(RenderPassEnum::Outline(OutlinePass::new()));
        assert(default_pass@ =~= default_passes());
        SceneRenderer {
            default_pass,
            stats: FrameStats {
                opaque: DrawStats { draw_calls: 0, instances: 0 },
                transmission: DrawStats { draw_calls: 0, instances: 0 },
            },
        }
    }

    /// The statistics of the last rendered frame.
    pub fn get_render_stats(&self) -> (r: FrameStats)
        ensures
            r == self.stats,
    {
        self.stats
    }

    /// Keeps the statistics of the frame just rendered.
    pub fn record_stats<T, D, V>(&mut self, frame: &FrameBuilder<T, D, V>)
        ensures
            final(self).stats == (FrameStats { opaque: frame.opaque_stats, transmission: frame.transmission_stats }),
            final(self).default_pass == old(self).default_pass,
    {
        self.stats = FrameStats { opaque: frame.opaque_stats, transmission: frame.transmission_stats };
    }
}

} // verus!
