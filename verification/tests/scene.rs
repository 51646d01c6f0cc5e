use renderer::assets::{AssetCatalog, MeshAssetInfo};
use renderer::scene::{collect_mesh_nodes, hierarchy_links, scene_title, spawn_plan, NodeInfo, SpawnedNode};

fn node(mesh: Option<usize>, children: Vec<usize>) -> NodeInfo {
    NodeInfo { mesh, children }
}

#[test]
fn mesh_nodes_are_listed_children_first() {
    let nodes = vec![
        node(None, vec![1, 2, 3]),
        node(Some(0), vec![]),
        node(None, vec![4]),
        node(None, vec![5]),
        node(None, vec![]),
        node(Some(1), vec![]),
    ];
    let mut out = Vec::new();
    assert!(collect_mesh_nodes(&nodes, 0, &mut out));
    assert_eq!(out, vec![1, 5, 3, 0]);

    let mut out = vec![9];
    assert!(!collect_mesh_nodes(&nodes, 2, &mut out));
    assert_eq!(out, vec![9]);
}

#[test]
fn links_join_spawned_parents_and_children() {
    let nodes = vec![
        node(None, vec![1, 2, 3]),
        node(Some(0), vec![]),
        node(None, vec![4]),
        node(None, vec![5]),
        node(None, vec![]),
        node(Some(1), vec![]),
    ];
    let spawned = vec![1, 5, 3, 0];
    assert_eq!(hierarchy_links(&nodes, &spawned), vec![(3, 5), (0, 1), (0, 3)]);
}

#[test]
fn untitled_scene() {
    assert_eq!(scene_title(&None), "Untitled scene *");
    assert_eq!(scene_title(&Some("a.json".to_string())), "a.json");
}

#[test]
fn spawn_plan_keeps_mesh_branches() {
    let nodes = vec![
        node(None, vec![1, 2]),
        node(Some(0), vec![]),
        node(None, vec![3]),
        node(None, vec![]),
    ];
    let loaded = AssetCatalog { meshes: vec![MeshAssetInfo { id: 42, submeshes: vec![] }], materials: vec![] };
    let (entities, links) = spawn_plan(&nodes, &[42], &loaded);
    assert_eq!(
        entities,
        vec![
            SpawnedNode { node: 1, is_root: false, mesh: Some(42), has_bbox: true },
            SpawnedNode { node: 0, is_root: true, mesh: None, has_bbox: false },
        ]
    );
    let empty = AssetCatalog { meshes: vec![], materials: vec![] };
    let (entities, _) = spawn_plan(&nodes, &[42], &empty);
    assert_eq!(entities[0], SpawnedNode { node: 1, is_root: false, mesh: Some(42), has_bbox: false });
    assert_eq!(links, vec![(0, 1)]);
}
