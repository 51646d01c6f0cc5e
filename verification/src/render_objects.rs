//! The drawable objects of a scene, extracted once per update.
use vstd::prelude::*;

use crate::render_queue::{LightRenderObject, MeshRenderObject};
use crate::world::{
    drawn_from, hierarchy_well_founded, lemma_scene_lights_are_switched_on, lemma_visible_meshes_skip_hidden_subtrees,
    reaches_root, scene_lights, visible_meshes, SceneWorld,
};

verus! {

/// A bounding box to draw, with the transform of its entity.
#[derive(Clone, Copy)]
pub struct BboxRenderObject<T, B> {
    pub entity_id: u64,
    pub bbox: B,
    pub transform: T,
}

/// The visible meshes, the switched-on lights and, when shown, the bounding boxes of a scene.
pub struct RenderObjects<T, D, B> {
    pub meshes: Vec<MeshRenderObject<T>>,
    pub lights: Vec<LightRenderObject<D>>,
    pub bboxes: Vec<BboxRenderObject<T, B>>,
}

/// The bounding boxes among the first `k` entities: those with a bounding box
/// and a world transform.
pub open spec fn scene_bboxes<T, D, B>(es: Seq<crate::world::EntityRecord<T, D, B>>, k: int) -> Seq<
    BboxRenderObject<T, B>,
>
    decreases k,
{
    if k <= 0 {
        Seq::empty()
    } else {
        let prev = scene_bboxes(es, k - 1);
        let r = es[k - 1];
        if r.bbox is Some && r.model is Some {
            prev.push(BboxRenderObject { entity_id: r.entity_id, bbox: r.bbox->0, transform: r.model->0 })
        } else {
            prev
        }
    }
}

impl<T: Copy, D: Copy, B: Copy> RenderObjects<T, D, B> {
    /// Extracts the drawable objects of the world, in entity order.
    pub fn build(world: &SceneWorld<T, D, B>, bbox_enable: bool) -> (r: Self)
        requires
            hierarchy_well_founded(world.entities@),
        ensures
            r.meshes@ == visible_meshes(world.entities@, world.entities@.len() as int),
            exists|idx: Seq<int>| #[trigger] drawn_from(world.entities@, r.meshes@, idx, world.entities@.len() as int),
            r.lights@ == scene_lights(world.entities@, world.entities@.len() as int),
            forall|i: int| 0 <= i < r.lights@.len() ==> (#[trigger] r.lights@[i]).light.enabled,
            r.bboxes@ == if bbox_enable {
                scene_bboxes(world.entities@, world.entities@.len() as int)
            } else {
                Seq::empty()
            },
    {
        let meshes = extract_meshes(world);
        proof {
            lemma_visible_meshes_skip_hidden_subtrees(world.entities@, world.entities@.len() as int);
            lemma_scene_lights_are_switched_on(world.entities@, world.entities@.len() as int);
        }
        let lights = extract_lights(world);
        let bboxes = extract_bbox(world, bbox_enable);
        RenderObjects { meshes, bboxes, lights }
    }
}

fn extract_meshes<T: Copy, D: Copy, B: Copy>(world: &SceneWorld<T, D, B>) -> (r: Vec<MeshRenderObject<T>>)
    requires
        hierarchy_well_founded(world.entities@),
    ensures
        r@ == visible_meshes(world.entities@, world.entities@.len() as int),
{
    let ghost es = world.entities@;
    let mut meshes: Vec<MeshRenderObject<T>> = Vec::new();
    for k in 0..world.entities.len()
        invariant
            es == world.entities@,
            hierarchy_well_founded(es),
            meshes@ == visible_meshes(es, k as int),
    {
        let record = &world.entities[k];
        match (record.mesh, record.model) {
            (Some(mesh), Some(transform)) => {
                assert(reaches_root(es, k as int, es.len()));
                if !world.is_hidden(k) {
                    meshes.push(MeshRenderObject { entity_id: record.entity_id, mesh, transform });
                }
            },
            _ => {},
        }
    }
    meshes
}

fn extract_lights<T: Copy, D: Copy, B: Copy>(world: &SceneWorld<T, D, B>) -> (r: Vec<LightRenderObject<D>>)
    ensures
        r@ == scene_lights(world.entities@, world.entities@.len() as int),
{
    let mut lights: Vec<LightRenderObject<D>> = Vec::new();
    for k in 0..world.entities.len()
        invariant
            lights@ == scene_lights(world.entities@, k as int),
    {
        match world.entities[k].light {
            Some(light) => {
                if light.enabled {
                    lights.push(LightRenderObject { entity_id: world.entities[k].entity_id, light });
                }
            },
            None => {},
        }
    }
    lights
}

fn extract_bbox<T: Copy, D: Copy, B: Copy>(world: &SceneWorld<T, D, B>, bbox_enable: bool) -> (r: Vec<
    BboxRenderObject<T, B>,
>)
    ensures
        r@ == if bbox_enable {
            scene_bboxes(world.entities@, world.entities@.len() as int)
        } else {
            Seq::empty()
        },
{
    let mut bboxes: Vec<BboxRenderObject<T, B>> = Vec::new();
    if !bbox_enable {
        return bboxes;
    }
    for k in 0..world.entities.len()
        invariant
            bboxes@ == scene_bboxes(world.entities@, k as int),
    {
        match (world.entities[k].bbox, world.entities[k].model) {
            (Some(bbox), Some(transform)) => {
                bboxes.push(BboxRenderObject { entity_id: world.entities[k].entity_id, bbox, transform });
            },
            _ => {},
        }
    }
    bboxes
}

} // verus!
