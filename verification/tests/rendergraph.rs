use renderer::rendergraph::{RenderGraph, RenderPass, ResourceId};
use renderer::renderpass::{
    AxisPass, LightsIconPass, LinearizePass, LinesPass, MeshPass, OutlinePass, PickObjectPass,
    DeclaredPass, SkyboxPass,
};

#[test]
fn should_run_in_order() {
    let mut graph = RenderGraph::new();
    let meshpass = MeshPass::opaque();
    let skyboxpass = SkyboxPass::new();
    let transmission = MeshPass::transmission();
    let lightpass = LightsIconPass::new();
    let axispass = AxisPass::new();
    let bboxpass = LinesPass::new();
    let linearizepass = LinearizePass::new();
    let outlinepass = OutlinePass::new();
    let pickobjectpass = PickObjectPass::new();

    graph.add_pass(meshpass);
    graph.add_pass(skyboxpass);
    graph.add_pass(transmission);
    graph.add_pass(lightpass);
    graph.add_pass(axispass);
    graph.add_pass(bboxpass);
    graph.add_pass(linearizepass);
    graph.add_pass(outlinepass);
    graph.add_pass(pickobjectpass);

    match graph.compile_names() {
        Ok(order) => {
            println!("Order: {:?}", order);
            assert_eq!(
                order,
                vec![
                    "MeshPass Opaque",
                    "SkyboxPass",
                    "MeshPass Transmission",
                    "LightPass",
                    "AxisPass",
                    "BoundingboxPass",
                    "LinearizePass",
                    "OutlinePass",
                    "PickObjectPass"
                ]
            );
        }
        Err(e) => panic!("{}", e),
    }
}

const PASS_A: DeclaredPass = DeclaredPass { name: "Pass A", reads: &[ResourceId::LDR], writes: &[ResourceId::DEPTH] };
const PASS_B: DeclaredPass = DeclaredPass { name: "Pass B", reads: &[ResourceId::DEPTH], writes: &[ResourceId::LDR] };

#[test]
fn should_find_cycles() {
    let mut graph = RenderGraph::new();

    graph.add_pass(PASS_A);
    graph.add_pass(PASS_B);

    assert!(graph.compile().is_err());
    graph.execute();
}

#[test]
fn cycle_report_names_the_edges_followed() {
    let mut graph = RenderGraph::new();
    graph.add_pass(PASS_A);
    graph.add_pass(PASS_B);
    let msg = graph.compile().unwrap_err();
    assert_eq!(
        msg,
        "\u{274c} Cycle detected:\nPass B reads LDR -> depends on Pass B\nPass A reads Depth -> depends on Pass A"
    );
    let lines = graph.execute();
    assert_eq!(lines, vec![msg]);
}

#[test]
fn readers_run_after_writers_added_later() {
    let mut graph = RenderGraph::new();
    graph.add_pass(DeclaredPass { name: "tonemap", reads: &[ResourceId::HDR], writes: &[ResourceId::LDR] });
    graph.add_pass(DeclaredPass { name: "present", reads: &[ResourceId::LDR], writes: &[] });
    graph.add_pass(DeclaredPass { name: "scene", reads: &[], writes: &[ResourceId::HDR] });
    let order = graph.compile().unwrap();
    assert_eq!(order, vec![2, 0, 1]);
    assert_eq!(graph.compile_names().unwrap(), vec!["scene", "tonemap", "present"]);
    assert_eq!(graph.execute(), vec!["scene", "tonemap", "present"]);
}

#[test]
fn a_pass_reading_what_it_writes_is_no_cycle() {
    let mut graph = RenderGraph::new();
    graph.add_pass(DeclaredPass { name: "blur", reads: &[ResourceId::HDR], writes: &[ResourceId::HDR] });
    assert_eq!(graph.compile().unwrap(), vec![0]);
    graph.add_pass(MeshPass::transmission());
    assert_eq!(graph.compile().unwrap(), vec![1, 0]);
}

#[test]
fn reads_never_written_do_not_order() {
    let mut graph = RenderGraph::new();
    graph.add_pass(OutlinePass::new());
    graph.add_pass(PickObjectPass::new());
    assert_eq!(graph.compile().unwrap(), vec![0, 1]);
}

#[test]
fn empty_graph_compiles_to_nothing() {
    let graph = RenderGraph::new();
    assert_eq!(graph.compile().unwrap(), Vec::<usize>::new());
    assert!(graph.execute().is_empty());
}

#[test]
fn three_pass_cycle_is_found() {
    let mut graph = RenderGraph::new();
    graph.add_pass(DeclaredPass { name: "a", reads: &[ResourceId::HDR], writes: &[ResourceId::LDR] });
    graph.add_pass(DeclaredPass { name: "b", reads: &[ResourceId::LDR], writes: &[ResourceId::DEPTH] });
    graph.add_pass(DeclaredPass { name: "c", reads: &[ResourceId::DEPTH], writes: &[ResourceId::HDR] });
    let msg = graph.compile().unwrap_err();
    assert!(msg.starts_with("\u{274c} Cycle detected:\n"));
    assert_eq!(msg.lines().count(), 4);
}

#[test]
fn resource_labels() {
    assert_eq!(ResourceId::HDR.label(), "HDR");
    assert_eq!(ResourceId::OPAQUE.label(), "Opaque");
    assert_eq!(ResourceId::DEPTH.label(), "Depth");
    assert_eq!(ResourceId::ENTITY.label(), "EntityID");
    assert_eq!(ResourceId::LDR.label(), "LDR");
    assert_eq!(ResourceId::PICKBUFFER.label(), "PickBuffer");
    assert_eq!(ResourceId::SHADOWMAP.label(), "ShadowMap");
}

#[test]
fn pass_declarations() {
    let m = MeshPass::opaque();
    assert_eq!(m.name(), "MeshPass Opaque");
    assert!(m.reads().is_empty());
    assert!(m.clears_targets());
    let t = MeshPass::transmission();
    assert_eq!(t.reads(), &[ResourceId::OPAQUE]);
    assert_eq!(t.writes(), &[ResourceId::HDR, ResourceId::OPAQUE, ResourceId::ENTITY, ResourceId::DEPTH]);
    assert!(!t.clears_targets());
    let mut s = SkyboxPass::new();
    assert!(!s.enable);
    s.prepare(true);
    assert!(s.enable);
}

#[test]
fn unwritten_reads_are_reported_once() {
    let mut graph = RenderGraph::new();
    graph.add_pass(OutlinePass::new());
    graph.add_pass(DeclaredPass { name: "x", reads: &[ResourceId::ENTITY, ResourceId::DEPTH], writes: &[ResourceId::LDR] });
    graph.add_pass(DeclaredPass { name: "y", reads: &[ResourceId::LDR], writes: &[ResourceId::HDR] });
    let missing = graph.unwritten_reads();
    assert_eq!(missing.len(), 2);
    assert!(missing.contains(&ResourceId::ENTITY));
    assert!(missing.contains(&ResourceId::DEPTH));
    assert!(!missing.contains(&ResourceId::LDR));
}

#[test]
fn execute_warns_then_lists_passes() {
    let mut graph = RenderGraph::new();
    graph.add_pass(DeclaredPass { name: "y", reads: &[ResourceId::LDR], writes: &[ResourceId::HDR] });
    graph.add_pass(DeclaredPass { name: "x", reads: &[ResourceId::SHADOWMAP], writes: &[ResourceId::LDR] });
    let lines = graph.execute();
    assert_eq!(
        lines,
        vec![
            "\u{26a0}\u{fe0f} Resource ShadowMap read but never written".to_string(),
            "x".to_string(),
            "y".to_string(),
        ]
    );
}

#[test]
fn execute_shows_what_compile_gives() {
    let mut graph = RenderGraph::new();
    graph.add_pass(DeclaredPass { name: "late", reads: &[ResourceId::HDR, ResourceId::DEPTH], writes: &[ResourceId::LDR] });
    graph.add_pass(DeclaredPass { name: "depth", reads: &[], writes: &[ResourceId::DEPTH] });
    graph.add_pass(DeclaredPass { name: "hdr", reads: &[ResourceId::DEPTH], writes: &[ResourceId::HDR] });
    let names = graph.compile_names().unwrap();
    assert_eq!(names, vec!["depth".to_string(), "hdr".to_string(), "late".to_string()]);
    assert_eq!(graph.compile().unwrap(), vec![1, 2, 0]);
    assert_eq!(graph.execute(), names);
}

#[test]
fn the_first_cycle_found_is_reported() {
    let mut graph = RenderGraph::new();
    graph.add_pass(DeclaredPass { name: "a", reads: &[ResourceId::HDR], writes: &[ResourceId::LDR] });
    graph.add_pass(DeclaredPass { name: "b", reads: &[ResourceId::LDR], writes: &[ResourceId::HDR] });
    let msg = graph.compile().unwrap_err();
    assert_eq!(msg, "\u{274c} Cycle detected:\nb reads HDR -> depends on b\na reads LDR -> depends on a");
    assert_eq!(graph.execute(), vec![msg]);
}

#[test]
fn unwritten_reads_follow_the_resource_order() {
    let mut graph = RenderGraph::new();
    graph.add_pass(DeclaredPass { name: "p", reads: &[ResourceId::SHADOWMAP, ResourceId::ENTITY], writes: &[ResourceId::LDR] });
    graph.add_pass(DeclaredPass { name: "q", reads: &[ResourceId::DEPTH, ResourceId::LDR], writes: &[] });
    assert_eq!(graph.unwritten_reads(), vec![ResourceId::SHADOWMAP, ResourceId::ENTITY, ResourceId::DEPTH]);
    let lines = graph.execute();
    assert_eq!(lines.len(), 5);
    assert_eq!(lines[0], "\u{26a0}\u{fe0f} Resource ShadowMap read but never written");
    assert_eq!(lines[2], "\u{26a0}\u{fe0f} Resource Depth read but never written");
    assert_eq!(&lines[3..], &["p".to_string(), "q".to_string()]);
}
