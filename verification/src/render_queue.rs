//! The objects of the scene that a frame draws.
use vstd::prelude::*;

use crate::assets::{LightComponent, MeshId};

verus! {

/// A mesh to draw, with the transform of its entity.
#[derive(Clone, Copy)]
pub struct MeshRenderObject<T> {
    pub entity_id: u64,
    pub mesh: MeshId,
    pub transform: T,
}

/// A light to use, with its entity.
#[derive(Clone, Copy)]
pub struct LightRenderObject<D> {
    pub entity_id: u64,
    pub light: LightComponent<D>,
}

/// What a frame draws: meshes, lights and line vertices.
pub struct RenderQueue<T, D, V> {
    pub mesh: Vec<MeshRenderObject<T>>,
    pub lights: Vec<LightRenderObject<D>>,
    pub lines: Vec<V>,
}

impl<T: Copy, D: Copy, V> RenderQueue<T, D, V> {
    pub fn new() -> (q: Self)
        ensures
            q.mesh@.len() == 0,
            q.lights@.len() == 0,
            q.lines@.len() == 0,
    {
        RenderQueue { mesh: Vec::new(), lights: Vec::new(), lines: Vec::new() }
    }

    /// Queues a mesh of an entity.
    pub fn mesh(&mut self, mesh: MeshId, transform: T, entity_id: u64)
        ensures
            final(self).mesh@ == old(self).mesh@.push(MeshRenderObject { entity_id, mesh, transform }),
            final(self).lights@ == old(self).lights@,
            final(self).lines@ == old(self).lines@,
    {
        self.mesh.push(MeshRenderObject { entity_id, mesh, transform });
    }

    /// Queues a light of an entity, if it is switched on.
    pub fn light(&mut self, entity_id: u64, light: &LightComponent<D>)
        ensures
            final(self).lights@ == if light.enabled {
                old(self).lights@.push(LightRenderObject { entity_id, light: *light })
            } else {
                old(self).lights@
            },
            final(self).mesh@ == old(self).mesh@,
            final(self).lines@ == old(self).lines@,
    {
        if !light.enabled {
            return;
        }
        self.lights.push(LightRenderObject { entity_id, light: *light });
    }
}

} // verus!
