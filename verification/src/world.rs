//! The entities of a scene as the renderer reads them: flags, parent links and
//! the components it draws, with the floating-point payloads left generic.
use vstd::prelude::*;

use crate::assets::{LightComponent, MeshId};
use crate::line_builder::{
    box_line_vertices, is_corner_list, light_line_vertices, BoundingBoxComponent, LightFrustum, LineColor,
    LineDrawable, LineVertex, BOX_COLOR,
};
use crate::framebuilder::MAX_LIGHTS;
use crate::render_queue::{LightRenderObject, MeshRenderObject, RenderQueue};

verus! {

/// An entity: its id, whether it carries the hidden marker, its parent in the
/// hierarchy (an index into the world), and its optional components.
pub struct EntityRecord<T, D, B> {
    pub entity_id: u64,
    pub hidden: bool,
    pub parent: Option<usize>,
    pub mesh: Option<MeshId>,
    pub model: Option<T>,
    pub light: Option<LightComponent<D>>,
    pub bbox: Option<B>,
}

/// The entities of a scene, in query order.
pub struct SceneWorld<T, D, B> {
    pub entities: Vec<EntityRecord<T, D, B>>,
}

/// Following parent links from `e`, a root (no parent, or a parent that is not
/// in the world) is reached within `steps` links.
pub open spec fn reaches_root<T, D, B>(es: Seq<EntityRecord<T, D, B>>, e: int, steps: nat) -> bool
    decreases steps,
{
    if !(0 <= e < es.len()) {
        true
    } else {
        match es[e].parent {
            None => true,
            Some(p) => steps > 0 && reaches_root(es, p as int, (steps - 1) as nat),
        }
    }
}

/// Every entity's parent chain ends in a root: the hierarchy has no cycle.
pub open spec fn hierarchy_well_founded<T, D, B>(es: Seq<EntityRecord<T, D, B>>) -> bool {
    forall|e: int| 0 <= e < es.len() ==> #[trigger] reaches_root(es, e, es.len())
}

/// The entity, or one of its ancestors within `steps` links, carries the hidden marker.
pub open spec fn spec_is_hidden<T, D, B>(es: Seq<EntityRecord<T, D, B>>, e: int, steps: nat) -> bool
    decreases steps,
{
    if !(0 <= e < es.len()) {
        false
    } else if es[e].hidden {
        true
    } else {
        match es[e].parent {
            None => false,
            Some(p) => steps > 0 && spec_is_hidden(es, p as int, (steps - 1) as nat),
        }
    }
}

/// The meshes to draw among the first `k` entities: those with a mesh and a
/// world transform that are not hidden.
pub open spec fn visible_meshes<T, D, B>(es: Seq<EntityRecord<T, D, B>>, k: int) -> Seq<MeshRenderObject<T>>
    decreases k,
{
    if k <= 0 {
        Seq::empty()
    } else {
        let prev = visible_meshes(es, k - 1);
        let r = es[k - 1];
        if r.mesh is Some && r.model is Some && !spec_is_hidden(es, k - 1, es.len()) {
            prev.push(MeshRenderObject { entity_id: r.entity_id, mesh: r.mesh->0, transform: r.model->0 })
        } else {
            prev
        }
    }
}

/// The switched-on lights among the first `k` entities.
pub open spec fn scene_lights<T, D, B>(es: Seq<EntityRecord<T, D, B>>, k: int) -> Seq<LightRenderObject<D>>
    decreases k,
{
    if k <= 0 {
        Seq::empty()
    } else {
        let prev = scene_lights(es, k - 1);
        let r = es[k - 1];
        if r.light is Some && r.light->0.enabled {
            prev.push(LightRenderObject { entity_id: r.entity_id, light: r.light->0 })
        } else {
            prev
        }
    }
}

/// The indices, among the first `k` entities, of those with a bounding box and a world transform.
pub open spec fn boxed_entities<T, D, B>(es: Seq<EntityRecord<T, D, B>>, k: int) -> Seq<usize>
    decreases k,
{
    if k <= 0 {
        Seq::empty()
    } else {
        let prev = boxed_entities(es, k - 1);
        if es[k - 1].bbox is Some && es[k - 1].model is Some {
            prev.push((k - 1) as usize)
        } else {
            prev
        }
    }
}

/// The indices, among the first `k` entities, of the lights whose frustum is shown.
pub open spec fn frustum_lights<T, D, B>(es: Seq<EntityRecord<T, D, B>>, k: int) -> Seq<usize>
    decreases k,
{
    if k <= 0 {
        Seq::empty()
    } else {
        let prev = frustum_lights(es, k - 1);
        if es[k - 1].light is Some && es[k - 1].light->0.frustum {
            prev.push((k - 1) as usize)
        } else {
            prev
        }
    }
}

proof fn lemma_hidden_fuel<T, D, B>(es: Seq<EntityRecord<T, D, B>>, x: int, s: nat, t: nat)
    requires
        reaches_root(es, x, s),
        s <= t,
    ensures
        spec_is_hidden(es, x, s) == spec_is_hidden(es, x, t),
    decreases s,
{
    if 0 <= x < es.len() && !es[x].hidden {
        match es[x].parent {
            Some(p) => {
                lemma_hidden_fuel(es, p as int, (s - 1) as nat, (t - 1) as nat);
            },
            None => {},
        }
    }
}

/// Hiding goes down the hierarchy: an entity in a well-founded hierarchy is
/// hidden exactly when it carries the hidden marker or its parent is hidden.
pub proof fn lemma_hidden_by_parent<T, D, B>(es: Seq<EntityRecord<T, D, B>>, e: int)
    requires
        hierarchy_well_founded(es),
        0 <= e < es.len(),
    ensures
        spec_is_hidden(es, e, es.len()) <==> (es[e].hidden || match es[e].parent {
            Some(p) => spec_is_hidden(es, p as int, es.len()),
            None => false,
        }),
{
    assert(reaches_root(es, e, es.len()));
    match es[e].parent {
        Some(p) => {
            lemma_hidden_fuel(es, p as int, (es.len() - 1) as nat, es.len());
        },
        None => {},
    }
}

/// The entity reached from `e` by following `d` parent links, or `None` where
/// the chain stops before that: at a root, or at an entity not in the world.
pub open spec fn ancestor_at<T, D, B>(es: Seq<EntityRecord<T, D, B>>, e: int, d: nat) -> Option<int>
    decreases d,
{
    if d == 0 {
        Some(e)
    } else if 0 <= e < es.len() && es[e].parent is Some {
        ancestor_at(es, es[e].parent->0 as int, (d - 1) as nat)
    } else {
        None
    }
}

/// The entity `d` parent links up from `e` is in the world and carries the hidden marker.
pub open spec fn marked_at<T, D, B>(es: Seq<EntityRecord<T, D, B>>, e: int, d: nat) -> bool {
    match ancestor_at(es, e, d) {
        Some(a) => 0 <= a < es.len() && es[a].hidden,
        None => false,
    }
}

/// `e` itself or one of its ancestors, at any distance, carries the hidden marker.
pub open spec fn under_hidden<T, D, B>(es: Seq<EntityRecord<T, D, B>>, e: int) -> bool {
    exists|d: nat| #[trigger] marked_at(es, e, d)
}

/// Entity `e` has a mesh and a world transform and lies in no hidden subtree.
pub open spec fn drawable<T, D, B>(es: Seq<EntityRecord<T, D, B>>, e: int) -> bool {
    es[e].mesh is Some && es[e].model is Some && !under_hidden(es, e)
}

/// The mesh object drawn for entity `e`.
pub open spec fn mesh_object<T, D, B>(es: Seq<EntityRecord<T, D, B>>, e: int) -> MeshRenderObject<T> {
    MeshRenderObject { entity_id: es[e].entity_id, mesh: es[e].mesh->0, transform: es[e].model->0 }
}

/// `objs` holds, once each and in entity order, the mesh objects of exactly
/// the drawable entities among the first `k`; `idx` names their entities.
pub open spec fn drawn_from<T, D, B>(
    es: Seq<EntityRecord<T, D, B>>,
    objs: Seq<MeshRenderObject<T>>,
    idx: Seq<int>,
    k: int,
) -> bool {
    &&& idx.len() == objs.len()
    &&& forall|a: int, b: int| 0 <= a < b < idx.len() ==> idx[a] < idx[b]
    &&& forall|a: int|
        0 <= a < idx.len() ==> 0 <= #[trigger] idx[a] < k && drawable(es, idx[a]) && objs[a] == mesh_object(es, idx[a])
    &&& forall|e: int| 0 <= e < k && #[trigger] drawable(es, e) ==> idx.contains(e)
}

proof fn lemma_hidden_is_marked_ancestor<T, D, B>(es: Seq<EntityRecord<T, D, B>>, e: int, s: nat)
    requires
        reaches_root(es, e, s),
    ensures
        spec_is_hidden(es, e, s) <==> under_hidden(es, e),
    decreases s,
{
    if !(0 <= e < es.len()) {
        assert forall|d: nat| !#[trigger] marked_at(es, e, d) by {}
    } else if es[e].hidden {
        assert(marked_at(es, e, 0));
    } else {
        match es[e].parent {
            None => {
                assert forall|d: nat| !#[trigger] marked_at(es, e, d) by {}
            },
            Some(p) => {
                lemma_hidden_is_marked_ancestor(es, p as int, (s - 1) as nat);
                if under_hidden(es, p as int) {
                    let d = choose|d: nat| #[trigger] marked_at(es, p as int, d);
                    assert(ancestor_at(es, e, d + 1) == ancestor_at(es, p as int, d));
                    assert(marked_at(es, e, d + 1));
                }
                if under_hidden(es, e) {
                    let d = choose|d: nat| #[trigger] marked_at(es, e, d);
                    assert(d > 0);
                    assert(ancestor_at(es, e, d) == ancestor_at(es, p as int, (d - 1) as nat));
                    assert(marked_at(es, p as int, (d - 1) as nat));
                }
            },
        }
    }
}

/// Hidden subtrees are not drawn: in a well-founded hierarchy, the meshes
/// extracted from the first `k` entities are, once each and in entity order,
/// those of the entities that have a mesh and a world transform and that
/// neither carry the hidden marker nor lie below an entity that does, at any
/// depth.
pub proof fn lemma_visible_meshes_skip_hidden_subtrees<T, D, B>(es: Seq<EntityRecord<T, D, B>>, k: int)
    requires
        hierarchy_well_founded(es),
        0 <= k <= es.len(),
    ensures
        exists|idx: Seq<int>| #[trigger] drawn_from(es, visible_meshes(es, k), idx, k),
    decreases k,
{
    if k == 0 {
        assert(drawn_from(es, visible_meshes(es, 0), Seq::<int>::empty(), 0));
    } else {
        lemma_visible_meshes_skip_hidden_subtrees(es, k - 1);
        let prev = visible_meshes(es, k - 1);
        let idx = choose|idx: Seq<int>| #[trigger] drawn_from(es, prev, idx, k - 1);
        let e = k - 1;
        assert(reaches_root(es, e, es.len()));
        lemma_hidden_is_marked_ancestor(es, e, es.len());
        if es[e].mesh is Some && es[e].model is Some && !spec_is_hidden(es, e, es.len()) {
            let idx2 = idx.push(e);
            let objs = prev.push(mesh_object(es, e));
            assert(visible_meshes(es, k) == objs);
            assert forall|a: int| 0 <= a < idx2.len() implies 0 <= #[trigger] idx2[a] < k && drawable(es, idx2[a])
                && objs[a] == mesh_object(es, idx2[a]) by {
                if a < idx.len() {
                    assert(idx2[a] == idx[a]);
                }
            }
            assert forall|x: int| 0 <= x < k && #[trigger] drawable(es, x) implies idx2.contains(x) by {
                if x < k - 1 {
                    let w = choose|w: int| 0 <= w < idx.len() && idx[w] == x;
                    assert(idx2[w] == x);
                } else {
                    assert(idx2[idx.len() as int] == x);
                }
            }
            assert(drawn_from(es, visible_meshes(es, k), idx2, k));
        } else {
            assert(!drawable(es, e));
            assert(visible_meshes(es, k) == prev);
            assert(drawn_from(es, visible_meshes(es, k), idx, k));
        }
    }
}

/// The light object queued for entity `e`.
pub open spec fn light_object<T, D, B>(es: Seq<EntityRecord<T, D, B>>, e: int) -> LightRenderObject<D> {
    LightRenderObject { entity_id: es[e].entity_id, light: es[e].light->0 }
}

/// The lights extracted from the first `k` entities are exactly those of the
/// entities whose light is switched on, in entity order: each comes from such
/// an entity, and each such entity's light is there.
pub proof fn lemma_scene_lights_are_switched_on<T, D, B>(es: Seq<EntityRecord<T, D, B>>, k: int)
    requires
        0 <= k <= es.len(),
    ensures
        forall|i: int|
            0 <= i < scene_lights(es, k).len() ==> exists|e: int|
                0 <= e < k && es[e].light is Some && es[e].light->0.enabled && #[trigger] scene_lights(es, k)[i]
                    == light_object(es, e),
        forall|e: int|
            0 <= e < k && (#[trigger] es[e]).light is Some && es[e].light->0.enabled ==> scene_lights(es, k).contains(
                light_object(es, e),
            ),
    decreases k,
{
    if k > 0 {
        lemma_scene_lights_are_switched_on(es, k - 1);
        let prev = scene_lights(es, k - 1);
        let cur = scene_lights(es, k);
        assert forall|i: int| 0 <= i < cur.len() implies exists|e: int|
            0 <= e < k && es[e].light is Some && es[e].light->0.enabled && #[trigger] cur[i] == light_object(es, e) by {
            if i < prev.len() {
                assert(cur[i] == prev[i]);
            } else {
                assert(cur[i] == light_object(es, k - 1));
            }
        }
        assert forall|e: int| 0 <= e < k && (#[trigger] es[e]).light is Some && es[e].light->0.enabled implies cur.contains(
            light_object(es, e),
        ) by {
            if e < k - 1 {
                let w = choose|w: int| 0 <= w < prev.len() && prev[w] == light_object(es, e);
                assert(cur[w] == light_object(es, e));
            } else {
                assert(cur[prev.len() as int] == light_object(es, e));
            }
        }
    }
}

impl<T: Copy, D: Copy, B: Copy> SceneWorld<T, D, B> {
    /// Whether the entity or one of its ancestors carries the hidden marker; an
    /// entity that is not in the world is not hidden.
    pub fn is_hidden(&self, entity: usize) -> (r: bool)
        requires
            reaches_root(self.entities@, entity as int, self.entities@.len()),
        ensures
            r == spec_is_hidden(self.entities@, entity as int, self.entities@.len()),
    {
        let ghost es = self.entities@;
        let mut cur = entity;
        let ghost mut steps: nat = es.len();
        loop
            invariant
                es == self.entities@,
                reaches_root(es, cur as int, steps),
                spec_is_hidden(es, entity as int, es.len()) == spec_is_hidden(es, cur as int, steps),
            decreases steps,
        {
            if cur >= self.entities.len() {
                return false;
            }
            let record = &self.entities[cur];
            if record.hidden {
                return true;
            }
            match record.parent {
                None => {
                    return false;
                },
                Some(p) => {
                    cur = p;
                    proof {
                        steps = (steps - 1) as nat;
                    }
                },
            }
        }
    }

    /// The entities whose bounding box is drawn: none when boxes are off, else
    /// every entity with a bounding box and a world transform.
    pub fn bbox_line_sources(&self, bbox_enable: bool) -> (r: Vec<usize>)
        ensures
            r@ == if bbox_enable {
                boxed_entities(self.entities@, self.entities@.len() as int)
            } else {
                Seq::empty()
            },
    {
        let mut out: Vec<usize> = Vec::new();
        if !bbox_enable {
            return out;
        }
        for k in 0..self.entities.len()
            invariant
                out@ == boxed_entities(self.entities@, k as int),
        {
            if self.entities[k].bbox.is_some() && self.entities[k].model.is_some() {
                out.push(k);
            }
        }
        out
    }

    /// The lights whose frustum is drawn: the first `MAX_LIGHTS` entities with
    /// a light whose frustum display is on.
    pub fn light_frustum_sources(&self) -> (r: Vec<usize>)
        ensures
            r@ == frustum_lights(self.entities@, self.entities@.len() as int).take(
                if frustum_lights(self.entities@, self.entities@.len() as int).len() < MAX_LIGHTS {
                    frustum_lights(self.entities@, self.entities@.len() as int).len() as int
                } else {
                    MAX_LIGHTS as int
                },
            ),
    {
        let mut out: Vec<usize> = Vec::new();
        let mut k: usize = 0;
        while k < self.entities.len() && out.len() < MAX_LIGHTS
            invariant
                k <= self.entities@.len(),
                out@ == frustum_lights(self.entities@, k as int),
                out@.len() <= MAX_LIGHTS,
            decreases self.entities@.len() - k,
        {
            match &self.entities[k].light {
                Some(l) => {
                    if l.frustum {
                        out.push(k);
                    }
                },
                None => {},
            }
            k = k + 1;
        }
        proof {
            lemma_frustum_prefix(self.entities@, k as int);
            lemma_frustum_mono(self.entities@, k as int, self.entities@.len() as int);
            let full = frustum_lights(self.entities@, self.entities@.len() as int);
            if out@.len() < MAX_LIGHTS {
                assert(k == self.entities@.len());
                assert(out@ == full);
                assert(full.len() < MAX_LIGHTS);
                assert(out@ =~= frustum_lights(self.entities@, self.entities@.len() as int).take(
                    frustum_lights(self.entities@, self.entities@.len() as int).len() as int,
                ));
            } else {
                assert(out@.len() == MAX_LIGHTS);
                assert(full.len() >= MAX_LIGHTS);
                assert(out@ =~= full.take(MAX_LIGHTS as int));
            }
        }
        out
    }
}

proof fn lemma_frustum_prefix<T, D, B>(es: Seq<EntityRecord<T, D, B>>, k: int)
    requires
        0 <= k <= es.len(),
        k < es.len() ==> frustum_lights(es, k).len() >= MAX_LIGHTS,
    ensures
        frustum_lights(es, k) == frustum_lights(es, es.len() as int).take(frustum_lights(es, k).len() as int),
    decreases es.len() - k,
{
    lemma_frustum_mono(es, k, es.len() as int);
}

proof fn lemma_frustum_mono<T, D, B>(es: Seq<EntityRecord<T, D, B>>, k: int, m: int)
    requires
        0 <= k <= m <= es.len(),
    ensures
        frustum_lights(es, k) == frustum_lights(es, m).take(frustum_lights(es, k).len() as int),
        frustum_lights(es, k).len() <= frustum_lights(es, m).len(),
    decreases m - k,
{
    if k < m {
        lemma_frustum_mono(es, k, m - 1);
        let a = frustum_lights(es, k);
        let b = frustum_lights(es, m - 1);
        let c = frustum_lights(es, m);
        assert(c.take(b.len() as int) =~= b);
        assert(c.take(a.len() as int) =~= b.take(a.len() as int));
    } else {
        assert(frustum_lights(es, m).take(frustum_lights(es, m).len() as int) =~= frustum_lights(es, m));
    }
}

/// The lines of the groups, one group after the other.
pub open spec fn concat_lines<V>(groups: Seq<Seq<V>>) -> Seq<V>
    decreases groups.len(),
{
    if groups.len() == 0 {
        Seq::empty()
    } else {
        concat_lines(groups.drop_last()) + groups.last()
    }
}

/// `vs` are the lines of the bounding box of entity `r`: the edges of its
/// world-space box when boxes are drawn axis-aligned, else the edges of its
/// local box, each corner mapped by `transform` with its world transform; all
/// in the box colour.
pub open spec fn box_lines_ok<T, D, S, F: Fn(&T, [S; 3]) -> [S; 3]>(
    r: EntityRecord<T, D, BoundingBoxComponent<S>>,
    axis_aligned: bool,
    transform: F,
    vs: Seq<LineVertex<[S; 3], LineColor>>,
) -> bool {
    let c = r.bbox->0;
    let m = r.model->0;
    if axis_aligned {
        exists|corners: Seq<[S; 3]>|
            #[trigger] is_corner_list(corners, c.global_bounding_box) && vs == box_line_vertices(corners, BOX_COLOR)
    } else {
        exists|local: Seq<[S; 3]>, corners: Seq<[S; 3]>|
            {
                &&& #[trigger] is_corner_list(local, c.bounding_box)
                &&& corners.len() == 8
                &&& forall|k: int| 0 <= k < 8 ==> call_ensures(transform, (&m, local[k]), #[trigger] corners[k])
                &&& vs == #[trigger] box_line_vertices(corners, BOX_COLOR)
            }
    }
}

/// `vs` are the lines of a light: those of the frustum and arrow that
/// `frustum` gives for it.
pub open spec fn light_lines_ok<D, S, G: Fn(&LightComponent<D>) -> LightFrustum<[S; 3]>>(
    light: LightComponent<D>,
    frustum: G,
    vs: Seq<LineVertex<[S; 3], LineColor>>,
) -> bool {
    exists|f: LightFrustum<[S; 3]>| call_ensures(frustum, (&light,), f) && vs == #[trigger] light_line_vertices(f)
}

/// The boxes drawn are those of exactly the entities with a bounding box and
/// a world transform: each listed entity has both, the list goes up in entity
/// order, and every such entity among the first `k` is listed.
pub proof fn lemma_boxed_entities_exact<T, D, B>(es: Seq<EntityRecord<T, D, B>>, k: int)
    requires
        0 <= k <= es.len(),
        es.len() <= usize::MAX,
    ensures
        forall|i: int|
            0 <= i < boxed_entities(es, k).len() ==> #[trigger] boxed_entities(es, k)[i] < k && es[boxed_entities(
                es,
                k,
            )[i] as int].bbox is Some && es[boxed_entities(es, k)[i] as int].model is Some,
        forall|a: int, b: int| 0 <= a < b < boxed_entities(es, k).len() ==> boxed_entities(es, k)[a] < boxed_entities(es, k)[b],
        forall|e: int|
            0 <= e < k && (#[trigger] es[e]).bbox is Some && es[e].model is Some ==> boxed_entities(es, k).contains(
                e as usize,
            ),
    decreases k,
{
    lemma_boxed_valid(es, k);
    if k > 0 {
        lemma_boxed_entities_exact(es, k - 1);
        let prev = boxed_entities(es, k - 1);
        if es[k - 1].bbox is Some && es[k - 1].model is Some {
            let cur = prev.push((k - 1) as usize);
            assert forall|a: int, b: int| 0 <= a < b < cur.len() implies cur[a] < cur[b] by {
                assert(cur[a] == prev[a]);
                if b < prev.len() {
                    assert(cur[b] == prev[b]);
                }
            }
            assert forall|e: int| 0 <= e < k && (#[trigger] es[e]).bbox is Some && es[e].model is Some implies cur.contains(
                e as usize,
            ) by {
                if e < k - 1 {
                    let w = choose|w: int| 0 <= w < prev.len() && prev[w] == e as usize;
                    assert(cur[w] == e as usize);
                } else {
                    assert(cur[prev.len() as int] == e as usize);
                }
            }
        }
    }
}

/// The lights whose frustum can be drawn are exactly those with a light whose
/// frustum is switched on: each listed entity has one, the list goes up in
/// entity order, and every such entity among the first `k` is listed.
pub proof fn lemma_frustum_lights_exact<T, D, B>(es: Seq<EntityRecord<T, D, B>>, k: int)
    requires
        0 <= k <= es.len(),
        es.len() <= usize::MAX,
    ensures
        forall|i: int|
            0 <= i < frustum_lights(es, k).len() ==> #[trigger] frustum_lights(es, k)[i] < k && es[frustum_lights(
                es,
                k,
            )[i] as int].light is Some && es[frustum_lights(es, k)[i] as int].light->0.frustum,
        forall|a: int, b: int| 0 <= a < b < frustum_lights(es, k).len() ==> frustum_lights(es, k)[a] < frustum_lights(es, k)[b],
        forall|e: int|
            0 <= e < k && (#[trigger] es[e]).light is Some && es[e].light->0.frustum ==> frustum_lights(es, k).contains(
                e as usize,
            ),
    decreases k,
{
    if k > 0 {
        lemma_frustum_lights_exact(es, k - 1);
        let prev = frustum_lights(es, k - 1);
        if es[k - 1].light is Some && es[k - 1].light->0.frustum {
            let cur = prev.push((k - 1) as usize);
            assert forall|i: int| 0 <= i < cur.len() implies #[trigger] cur[i] < k && es[cur[i] as int].light is Some
                && es[cur[i] as int].light->0.frustum by {
                if i < prev.len() {
                    assert(cur[i] == prev[i]);
                }
            }
            assert forall|a: int, b: int| 0 <= a < b < cur.len() implies cur[a] < cur[b] by {
                assert(cur[a] == prev[a]);
                if b < prev.len() {
                    assert(cur[b] == prev[b]);
                }
            }
            assert forall|e: int| 0 <= e < k && (#[trigger] es[e]).light is Some && es[e].light->0.frustum implies cur.contains(
                e as usize,
            ) by {
                if e < k - 1 {
                    let w = choose|w: int| 0 <= w < prev.len() && prev[w] == e as usize;
                    assert(cur[w] == e as usize);
                } else {
                    assert(cur[prev.len() as int] == e as usize);
                }
            }
        }
    }
}

proof fn lemma_boxed_valid<T, D, B>(es: Seq<EntityRecord<T, D, B>>, k: int)
    requires
        0 <= k <= es.len(),
        es.len() <= usize::MAX,
    ensures
        forall|i: int|
            0 <= i < boxed_entities(es, k).len() ==> {
                let e = #[trigger] boxed_entities(es, k)[i];
                &&& e < k
                &&& es[e as int].bbox is Some
                &&& es[e as int].model is Some
            },
    decreases k,
{
    if k > 0 {
        lemma_boxed_valid(es, k - 1);
        let prev = boxed_entities(es, k - 1);
        if es[k - 1].bbox is Some && es[k - 1].model is Some {
            assert forall|i: int| 0 <= i < prev.push((k - 1) as usize).len() implies {
                let e = #[trigger] prev.push((k - 1) as usize)[i];
                &&& e < k
                &&& es[e as int].bbox is Some
                &&& es[e as int].model is Some
            } by {
                if i < prev.len() {
                    assert(prev.push((k - 1) as usize)[i] == prev[i]);
                }
            }
        }
    }
}

proof fn lemma_frustum_valid<T, D, B>(es: Seq<EntityRecord<T, D, B>>, k: int)
    requires
        0 <= k <= es.len(),
        es.len() <= usize::MAX,
    ensures
        forall|i: int|
            0 <= i < frustum_lights(es, k).len() ==> {
                let e = #[trigger] frustum_lights(es, k)[i];
                &&& e < k
                &&& es[e as int].light is Some
            },
    decreases k,
{
    if k > 0 {
        lemma_frustum_valid(es, k - 1);
        let prev = frustum_lights(es, k - 1);
        if es[k - 1].light is Some && es[k - 1].light->0.frustum {
            assert forall|i: int| 0 <= i < prev.push((k - 1) as usize).len() implies {
                let e = #[trigger] prev.push((k - 1) as usize)[i];
                &&& e < k
                &&& es[e as int].light is Some
            } by {
                if i < prev.len() {
                    assert(prev.push((k - 1) as usize)[i] == prev[i]);
                }
            }
        }
    }
}

impl<T: Copy, D: Copy, S: Copy> RenderQueue<T, D, LineVertex<[S; 3], LineColor>> {
    /// Queues the visible meshes and the switched-on lights of the world, in
    /// entity order; then, when boxes are shown, the lines of each bounding
    /// box (axis-aligned in world space, or the local box through `transform`),
    /// and the lines of the first `MAX_LIGHTS` lights whose frustum is shown,
    /// as `frustum` gives them.
    pub fn build<F: Fn(&T, [S; 3]) -> [S; 3], G: Fn(&LightComponent<D>) -> LightFrustum<[S; 3]>>(
        &mut self,
        world: &SceneWorld<T, D, BoundingBoxComponent<S>>,
        bbox_enable: bool,
        axis_aligned: bool,
        transform: F,
        frustum: G,
    )
        requires
            hierarchy_well_founded(world.entities@),
            forall|m: &T, c: [S; 3]| #[trigger] call_requires(transform, (m, c)),
            forall|l: &LightComponent<D>| #[trigger] call_requires(frustum, (l,)),
        ensures
            final(self).mesh@ == old(self).mesh@ + visible_meshes(world.entities@, world.entities@.len() as int),
            exists|idx: Seq<int>|
                #[trigger] drawn_from(
                    world.entities@,
                    final(self).mesh@.skip(old(self).mesh@.len() as int),
                    idx,
                    world.entities@.len() as int,
                ),
            final(self).lights@ == old(self).lights@ + scene_lights(world.entities@, world.entities@.len() as int),
            exists|groups: Seq<Seq<LineVertex<[S; 3], LineColor>>>|
                {
                    let es = world.entities@;
                    let boxes = if bbox_enable {
                        boxed_entities(es, es.len() as int)
                    } else {
                        Seq::empty()
                    };
                    let all = frustum_lights(es, es.len() as int);
                    let shown = all.take(
                        if all.len() < MAX_LIGHTS {
                            all.len() as int
                        } else {
                            MAX_LIGHTS as int
                        },
                    );
                    &&& groups.len() == boxes.len() + shown.len()
                    &&& forall|i: int|
                        0 <= i < boxes.len() ==> box_lines_ok(es[boxes[i] as int], axis_aligned, transform, #[trigger] groups[i])
                    &&& forall|i: int|
                        0 <= i < shown.len() ==> light_lines_ok(
                            es[shown[i] as int].light->0,
                            frustum,
                            #[trigger] groups[boxes.len() + i],
                        )
                    &&& final(self).lines@ == old(self).lines@ + #[trigger] concat_lines(groups)
                },
    {
        let ghost es = world.entities@;
        let ghost mesh0 = self.mesh@;
        let ghost lights0 = self.lights@;
        for k in 0..world.entities.len()
            invariant
                es == world.entities@,
                hierarchy_well_founded(es),
                self.mesh@ == mesh0 + visible_meshes(es, k as int),
                self.lights@ == lights0 + scene_lights(es, k as int),
                self.lines@ == old(self).lines@,
        {
            let record = &world.entities[k];
            match (record.mesh, record.model) {
                (Some(mesh), Some(transform)) => {
                    assert(reaches_root(es, k as int, es.len()));
                    if !world.is_hidden(k) {
                        self.mesh(mesh, transform, record.entity_id);
                    }
                },
                _ => {},
            }
            match &record.light {
                Some(light) => {
                    self.light(record.entity_id, light);
                },
                None => {},
            }
            proof {
                assert(self.mesh@ =~= mesh0 + visible_meshes(es, k + 1));
                assert(self.lights@ =~= lights0 + scene_lights(es, k + 1));
            }
        }
        let boxes = world.bbox_line_sources(bbox_enable);
        let shown = world.light_frustum_sources();
        let ghost mesh1 = self.mesh@;
        let ghost lights1 = self.lights@;
        proof {
            assert(es.len() == world.entities.len());
            lemma_boxed_valid(es, es.len() as int);
            lemma_frustum_valid(es, es.len() as int);
        }
        let ghost lines0 = self.lines@;
        let ghost mut groups: Seq<Seq<LineVertex<[S; 3], LineColor>>> = Seq::empty();
        for i in 0..boxes.len()
            invariant
                es == world.entities@,
                boxes@ == if bbox_enable {
                    boxed_entities(es, es.len() as int)
                } else {
                    Seq::empty()
                },
                forall|j: int|
                    0 <= j < boxed_entities(es, es.len() as int).len() ==> {
                        let e = #[trigger] boxed_entities(es, es.len() as int)[j];
                        &&& e < es.len()
                        &&& es[e as int].bbox is Some
                        &&& es[e as int].model is Some
                    },
                forall|m: &T, c: [S; 3]| #[trigger] call_requires(transform, (m, c)),
                self.mesh@ == mesh1,
                self.lights@ == lights1,
                groups.len() == i,
                forall|j: int| 0 <= j < i ==> box_lines_ok(es[boxes@[j] as int], axis_aligned, transform, #[trigger] groups[j]),
                self.lines@ == lines0 + concat_lines(groups),
        {
            let e = boxes[i];
            proof {
                assert(boxed_entities(es, es.len() as int)[i as int] == e);
            }
            let record = &world.entities[e];
            let ghost vs: Seq<LineVertex<[S; 3], LineColor>>;
            match (&record.bbox, &record.model) {
                (Some(c), Some(m)) => {
                    let mut v = if axis_aligned {
                        c.gen_aabb_vertices()
                    } else {
                        c.gen_obb_vertices(m, &transform)
                    };
                    proof {
                        vs = v@;
                    }
                    self.lines.append(&mut v);
                },
                _ => {
                    proof {
                        vs = Seq::empty();
                    }
                },
            }
            proof {
                let ng = groups.push(vs);
                assert(ng.drop_last() =~= groups);
                assert(concat_lines(ng) == concat_lines(groups) + vs);
                groups = ng;
                assert(self.lines@ =~= lines0 + concat_lines(groups));
            }
        }
        let ghost nb = groups.len();
        for i in 0..shown.len()
            invariant
                es == world.entities@,
                shown@.len() <= frustum_lights(es, es.len() as int).len(),
                shown@ == frustum_lights(es, es.len() as int).take(shown@.len() as int),
                forall|j: int|
                    0 <= j < frustum_lights(es, es.len() as int).len() ==> {
                        let e = #[trigger] frustum_lights(es, es.len() as int)[j];
                        &&& e < es.len()
                        &&& es[e as int].light is Some
                    },
                forall|l: &LightComponent<D>| #[trigger] call_requires(frustum, (l,)),
                self.mesh@ == mesh1,
                self.lights@ == lights1,
                groups.len() == nb + i,
                forall|j: int| 0 <= j < nb ==> box_lines_ok(es[boxes@[j] as int], axis_aligned, transform, #[trigger] groups[j]),
                nb == boxes@.len(),
                forall|j: int|
                    0 <= j < i ==> light_lines_ok(es[shown@[j] as int].light->0, frustum, #[trigger] groups[nb + j]),
                self.lines@ == lines0 + concat_lines(groups),
        {
            let e = shown[i];
            proof {
                assert(frustum_lights(es, es.len() as int)[i as int] == e);
            }
            let record = &world.entities[e];
            let ghost vs: Seq<LineVertex<[S; 3], LineColor>>;
            match &record.light {
                Some(l) => {
                    let f = frustum(l);
                    f.emit(&mut self.lines);
                    proof {
                        vs = light_line_vertices(f);
                        assert(light_lines_ok(*l, frustum, vs));
                    }
                },
                None => {
                    proof {
                        vs = Seq::empty();
                    }
                },
            }
            proof {
                let ng = groups.push(vs);
                assert(ng.drop_last() =~= groups);
                assert(concat_lines(ng) == concat_lines(groups) + vs);
                assert(forall|j: int| 0 <= j < groups.len() ==> ng[j] == groups[j]);
                groups = ng;
                assert(self.lines@ =~= lines0 + concat_lines(groups));
            }
        }
        proof {
            assert(self.mesh@.skip(mesh0.len() as int) =~= visible_meshes(es, es.len() as int));
            lemma_visible_meshes_skip_hidden_subtrees(es, es.len() as int);
        }
    }
}

} // verus!
