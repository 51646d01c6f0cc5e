//! What the renderer reads of the assets and of the scene's components: plain
//! ids and flags, with the floating-point payloads left generic.
use vstd::prelude::*;

verus! {

/// The id of a mesh asset.
pub type MeshId = u64;

/// The id of a material asset.
pub type MaterialId = u64;

/// The id of a texture asset.
pub type TextureId = u64;

/// A part of a mesh drawn with one material: the range of the mesh's indices it covers.
#[derive(Clone, Copy, Debug, PartialEq, Eq, Structural)]
pub struct SubmeshDesc {
    pub material: MaterialId,
    pub index_start: u32,
    pub index_end: u32,
}

/// A loaded mesh: its id and its submeshes.
pub struct MeshAssetInfo {
    pub id: MeshId,
    pub submeshes: Vec<SubmeshDesc>,
}

/// A loaded material: its id and how it blends.
#[derive(Clone, Copy, Debug, PartialEq, Eq, Structural)]
pub struct MaterialInfo {
    pub id: MaterialId,
    pub transmissive: bool,
    pub transparent: bool,
}

/// The meshes and materials that are loaded.
pub struct AssetCatalog {
    pub meshes: Vec<MeshAssetInfo>,
    pub materials: Vec<MaterialInfo>,
}

/// The first loaded mesh with id `id`, if any.
pub open spec fn find_mesh(meshes: Seq<MeshAssetInfo>, id: MeshId) -> Option<MeshAssetInfo>
    decreases meshes.len(),
{
    if meshes.len() == 0 {
        None
    } else {
        match find_mesh(meshes.drop_last(), id) {
            Some(m) => Some(m),
            None => if meshes.last().id == id {
                Some(meshes.last())
            } else {
                None
            },
        }
    }
}

/// The first loaded material with id `id`, if any.
pub open spec fn find_material(materials: Seq<MaterialInfo>, id: MaterialId) -> Option<MaterialInfo>
    decreases materials.len(),
{
    if materials.len() == 0 {
        None
    } else {
        match find_material(materials.drop_last(), id) {
            Some(m) => Some(m),
            None => if materials.last().id == id {
                Some(materials.last())
            } else {
                None
            },
        }
    }
}

proof fn lemma_find_mesh_extends(meshes: Seq<MeshAssetInfo>, k: int, id: MeshId)
    requires
        0 <= k <= meshes.len(),
        find_mesh(meshes.take(k), id) is Some,
    ensures
        find_mesh(meshes, id) == find_mesh(meshes.take(k), id),
    decreases meshes.len() - k,
{
    if k < meshes.len() {
        assert(meshes.take(k + 1).drop_last() =~= meshes.take(k));
        lemma_find_mesh_extends(meshes, k + 1, id);
    } else {
        assert(meshes.take(k) =~= meshes);
    }
}

proof fn lemma_find_material_extends(materials: Seq<MaterialInfo>, k: int, id: MaterialId)
    requires
        0 <= k <= materials.len(),
        find_material(materials.take(k), id) is Some,
    ensures
        find_material(materials, id) == find_material(materials.take(k), id),
    decreases materials.len() - k,
{
    if k < materials.len() {
        assert(materials.take(k + 1).drop_last() =~= materials.take(k));
        lemma_find_material_extends(materials, k + 1, id);
    } else {
        assert(materials.take(k) =~= materials);
    }
}

/// A mesh looked up by id is the first loaded mesh with that id, and the
/// lookup fails exactly when no loaded mesh has it.
pub proof fn lemma_find_mesh_first(meshes: Seq<MeshAssetInfo>, id: MeshId)
    ensures
        match find_mesh(meshes, id) {
            Some(m) => exists|k: int|
                0 <= k < meshes.len() && #[trigger] meshes[k] == m && m.id == id && forall|j: int|
                    0 <= j < k ==> #[trigger] meshes[j].id != id,
            None => forall|j: int| 0 <= j < meshes.len() ==> #[trigger] meshes[j].id != id,
        },
    decreases meshes.len(),
{
    if meshes.len() > 0 {
        let rest = meshes.drop_last();
        lemma_find_mesh_first(rest, id);
        match find_mesh(rest, id) {
            Some(m) => {
                let k = choose|k: int|
                    0 <= k < rest.len() && #[trigger] rest[k] == m && m.id == id && forall|j: int|
                        0 <= j < k ==> #[trigger] rest[j].id != id;
                assert(meshes[k] == m);
                assert forall|j: int| 0 <= j < k implies #[trigger] meshes[j].id != id by {
                    assert(meshes[j] == rest[j]);
                }
            },
            None => {
                assert forall|j: int| 0 <= j < meshes.len() - 1 implies #[trigger] meshes[j].id != id by {
                    assert(meshes[j] == rest[j]);
                }
                if meshes.last().id == id {
                    assert(meshes[meshes.len() - 1] == meshes.last());
                }
            },
        }
    }
}

/// A material looked up by id is the first loaded material with that id, and
/// the lookup fails exactly when no loaded material has it.
pub proof fn lemma_find_material_first(materials: Seq<MaterialInfo>, id: MaterialId)
    ensures
        match find_material(materials, id) {
            Some(m) => exists|k: int|
                0 <= k < materials.len() && #[trigger] materials[k] == m && m.id == id && forall|j: int|
                    0 <= j < k ==> #[trigger] materials[j].id != id,
            None => forall|j: int| 0 <= j < materials.len() ==> #[trigger] materials[j].id != id,
        },
    decreases materials.len(),
{
    if materials.len() > 0 {
        let rest = materials.drop_last();
        lemma_find_material_first(rest, id);
        match find_material(rest, id) {
            Some(m) => {
                let k = choose|k: int|
                    0 <= k < rest.len() && #[trigger] rest[k] == m && m.id == id && forall|j: int|
                        0 <= j < k ==> #[trigger] rest[j].id != id;
                assert(materials[k] == m);
                assert forall|j: int| 0 <= j < k implies #[trigger] materials[j].id != id by {
                    assert(materials[j] == rest[j]);
                }
            },
            None => {
                assert forall|j: int| 0 <= j < materials.len() - 1 implies #[trigger] materials[j].id != id by {
                    assert(materials[j] == rest[j]);
                }
                if materials.last().id == id {
                    assert(materials[materials.len() - 1] == materials.last());
                }
            },
        }
    }
}

impl AssetCatalog {
    /// The index of the first loaded mesh with id `id`.
    pub fn get_mesh(&self, id: MeshId) -> (r: Option<usize>)
        ensures
            match r {
                Some(k) => k < self.meshes@.len() && find_mesh(self.meshes@, id) == Some(self.meshes@[k as int]),
                None => find_mesh(self.meshes@, id) is None,
            },
            match r {
                Some(k) => k < self.meshes@.len() && self.meshes@[k as int].id == id && forall|j: int|
                    0 <= j < k ==> #[trigger] self.meshes@[j].id != id,
                None => forall|j: int| 0 <= j < self.meshes@.len() ==> #[trigger] self.meshes@[j].id != id,
            },
    {
        let mut k: usize = 0;
        while k < self.meshes.len()
            invariant
                k <= self.meshes@.len(),
                find_mesh(self.meshes@.take(k as int), id) is None,
                forall|j: int| 0 <= j < k ==> #[trigger] self.meshes@[j].id != id,
            decreases self.meshes@.len() - k,
        {
            proof {
                assert(self.meshes@.take(k + 1).drop_last() =~= self.meshes@.take(k as int));
            }
            if self.meshes[k].id == id {
                proof {
                    lemma_find_mesh_extends(self.meshes@, k + 1, id);
                }
                return Some(k);
            }
            k = k + 1;
        }
        proof {
            assert(self.meshes@.take(k as int) =~= self.meshes@);
        }
        None
    }

    /// The first loaded material with id `id`.
    pub fn get_material(&self, id: MaterialId) -> (r: Option<MaterialInfo>)
        ensures
            r == find_material(self.materials@, id),
            match r {
                Some(m) => m.id == id && self.materials@.contains(m),
                None => forall|j: int| 0 <= j < self.materials@.len() ==> #[trigger] self.materials@[j].id != id,
            },
    {
        let mut k: usize = 0;
        while k < self.materials.len()
            invariant
                k <= self.materials@.len(),
                find_material(self.materials@.take(k as int), id) is None,
                forall|j: int| 0 <= j < k ==> #[trigger] self.materials@[j].id != id,
            decreases self.materials@.len() - k,
        {
            proof {
                assert(self.materials@.take(k + 1).drop_last() =~= self.materials@.take(k as int));
            }
            if self.materials[k].id == id {
                proof {
                    lemma_find_material_extends(self.materials@, k + 1, id);
                }
                return Some(self.materials[k]);
            }
            k = k + 1;
        }
        proof {
            assert(self.materials@.take(k as int) =~= self.materials@);
        }
        None
    }
}

/// A light of the scene: whether it shines, whether its frustum is drawn, and
/// its parameters.
#[derive(Clone, Copy)]
pub struct LightComponent<D> {
    pub enabled: bool,
    pub frustum: bool,
    pub data: D,
}

} // verus!
