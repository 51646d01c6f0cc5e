//! Turns the render queue of a frame into instanced draw batches and the
//! selection of lights, with the draw statistics.
use vstd::prelude::*;

use crate::assets::{
    find_material, find_mesh, AssetCatalog, LightComponent, MaterialId, MaterialInfo, MeshId,
    SubmeshDesc,
};
use crate::render_queue::{LightRenderObject, MeshRenderObject, RenderQueue};

verus! {

/// The most lights a frame sends to the shaders.
pub const MAX_LIGHTS: usize = 64;

/// One instanced draw: a submesh with its material, for a run of consecutive
/// instances.
#[derive(Clone, Debug, PartialEq, Eq)]
pub struct InstanceBatch {
    pub mesh: MeshId,
    pub material: MaterialId,
    pub index_start: u32,
    pub index_end: u32,
    pub instance_start: u32,
    pub instance_count: u32,
}

/// What makes draws batchable together: the same submesh of the same mesh.
#[derive(Clone, Copy, Debug, PartialEq, Eq, Structural)]
pub struct BatchKey {
    pub mesh: MeshId,
    pub material: MaterialId,
    pub index_start: u32,
    pub index_end: u32,
}

/// One drawn copy of a mesh: its transform and the entity it belongs to.
#[derive(Clone, Copy)]
pub struct Instance<T> {
    pub transform: T,
    pub entity_id: u64,
}

/// Draw calls and instances of a list of batches.
#[derive(Clone, Copy, Debug, PartialEq, Eq, Structural)]
pub struct DrawStats {
    pub draw_calls: u32,
    pub instances: u32,
}

/// The lights sent to the shaders for a frame.
pub struct LightsPlan<D> {
    pub enabled: u32,
    pub count: u32,
    pub lights: Vec<LightRenderObject<D>>,
}

/// The batches, instances, lines and lights of a frame, ready for the GPU.
pub struct FrameBuilder<T, D, V> {
    pub opaque_batches: Vec<InstanceBatch>,
    pub transmission_batches: Vec<InstanceBatch>,
    pub instances: Vec<Instance<T>>,
    pub lines: Vec<V>,
    pub lights: LightsPlan<D>,
    pub opaque_stats: DrawStats,
    pub transmission_stats: DrawStats,
}

/// A material of the transmission batches (`transmission`) or of the opaque
/// ones: transmissive materials go to the first, materials neither
/// transmissive nor transparent to the second, transparent ones to neither.
pub open spec fn in_batch_class(m: MaterialInfo, transmission: bool) -> bool {
    if transmission {
        m.transmissive
    } else {
        !m.transmissive && !m.transparent
    }
}

pub open spec fn batch_key(mesh: MeshId, sm: SubmeshDesc) -> BatchKey {
    BatchKey { mesh, material: sm.material, index_start: sm.index_start, index_end: sm.index_end }
}

/// The instances that the submeshes `subs` of the object `obj` contribute to
/// one class of batches, each with its batch key; submeshes whose material is
/// not loaded are skipped.
pub open spec fn submesh_entries<T>(
    obj: MeshRenderObject<T>,
    subs: Seq<SubmeshDesc>,
    materials: Seq<MaterialInfo>,
    transmission: bool,
) -> Seq<(BatchKey, Instance<T>)>
    decreases subs.len(),
{
    if subs.len() == 0 {
        Seq::empty()
    } else {
        let prev = submesh_entries(obj, subs.drop_last(), materials, transmission);
        let sm = subs.last();
        match find_material(materials, sm.material) {
            Some(m) => if in_batch_class(m, transmission) {
                prev.push(
                    (batch_key(obj.mesh, sm), Instance { transform: obj.transform, entity_id: obj.entity_id }),
                )
            } else {
                prev
            },
            None => prev,
        }
    }
}

/// What one queued object contributes; nothing when its mesh is not loaded.
pub open spec fn object_entries<T>(
    obj: MeshRenderObject<T>,
    catalog: AssetCatalog,
    transmission: bool,
) -> Seq<(BatchKey, Instance<T>)> {
    match find_mesh(catalog.meshes@, obj.mesh) {
        Some(mesh) => submesh_entries(obj, mesh.submeshes@, catalog.materials@, transmission),
        None => Seq::empty(),
    }
}

/// What the queued objects contribute, in queue order.
pub open spec fn queue_entries<T>(
    objs: Seq<MeshRenderObject<T>>,
    catalog: AssetCatalog,
    transmission: bool,
) -> Seq<(BatchKey, Instance<T>)>
    decreases objs.len(),
{
    if objs.len() == 0 {
        Seq::empty()
    } else {
        queue_entries(objs.drop_last(), catalog, transmission) + object_entries(
            objs.last(),
            catalog,
            transmission,
        )
    }
}

/// The batch keys of `es`, each once, in the order they first appear.
pub open spec fn distinct_keys<I>(es: Seq<(BatchKey, I)>) -> Seq<BatchKey>
    decreases es.len(),
{
    if es.len() == 0 {
        Seq::empty()
    } else {
        let d = distinct_keys(es.drop_last());
        if d.contains(es.last().0) {
            d
        } else {
            d.push(es.last().0)
        }
    }
}

/// The instances of `es` with key `key`, in order.
pub open spec fn members<I>(es: Seq<(BatchKey, I)>, key: BatchKey) -> Seq<I>
    decreases es.len(),
{
    if es.len() == 0 {
        Seq::empty()
    } else {
        let m = members(es.drop_last(), key);
        if es.last().0 == key {
            m.push(es.last().1)
        } else {
            m
        }
    }
}

/// The instances of the groups of `keys`, group after group.
pub open spec fn grouped<I>(es: Seq<(BatchKey, I)>, keys: Seq<BatchKey>) -> Seq<I>
    decreases keys.len(),
{
    if keys.len() == 0 {
        Seq::empty()
    } else {
        grouped(es, keys.drop_last()) + members(es, keys.last())
    }
}

/// The batch of group `j` when the groups' instances are laid out from `base` on.
pub open spec fn batch_of<I>(es: Seq<(BatchKey, I)>, keys: Seq<BatchKey>, j: int, base: int) -> InstanceBatch {
    InstanceBatch {
        mesh: keys[j].mesh,
        material: keys[j].material,
        index_start: keys[j].index_start,
        index_end: keys[j].index_end,
        instance_start: (base + grouped(es, keys.take(j)).len()) as u32,
        instance_count: members(es, keys[j]).len() as u32,
    }
}

/// The sum of the instance counts of `batches`.
pub open spec fn total_instances(batches: Seq<InstanceBatch>) -> nat
    decreases batches.len(),
{
    if batches.len() == 0 {
        0
    } else {
        total_instances(batches.drop_last()) + batches.last().instance_count as nat
    }
}

/// The lights that are switched on, in order.
pub open spec fn enabled_lights<D>(lights: Seq<LightRenderObject<D>>) -> Seq<LightRenderObject<D>>
    decreases lights.len(),
{
    if lights.len() == 0 {
        Seq::empty()
    } else {
        let prev = enabled_lights(lights.drop_last());
        if lights.last().light.enabled {
            prev.push(lights.last())
        } else {
            prev
        }
    }
}

/// The switched-on lights are exactly the queued lights that are on, in order.
pub proof fn lemma_enabled_lights<D>(lights: Seq<LightRenderObject<D>>)
    ensures
        forall|i: int|
            0 <= i < enabled_lights(lights).len() ==> (#[trigger] enabled_lights(lights)[i]).light.enabled
                && lights.contains(enabled_lights(lights)[i]),
        forall|j: int| 0 <= j < lights.len() && (#[trigger] lights[j]).light.enabled ==> enabled_lights(lights).contains(
            lights[j],
        ),
    decreases lights.len(),
{
    if lights.len() > 0 {
        let rest = lights.drop_last();
        lemma_enabled_lights(rest);
        let prev = enabled_lights(rest);
        let cur = enabled_lights(lights);
        assert forall|i: int| 0 <= i < cur.len() implies (#[trigger] cur[i]).light.enabled && lights.contains(cur[i]) by {
            if i < prev.len() {
                assert(cur[i] == prev[i]);
                let w = choose|w: int| 0 <= w < rest.len() && rest[w] == prev[i];
                assert(lights[w] == cur[i]);
            } else {
                assert(cur[i] == lights.last());
                assert(lights[lights.len() - 1] == cur[i]);
            }
        }
        assert forall|j: int| 0 <= j < lights.len() && (#[trigger] lights[j]).light.enabled implies cur.contains(
            lights[j],
        ) by {
            if j < lights.len() - 1 {
                assert(rest[j] == lights[j]);
                let w = choose|w: int| 0 <= w < prev.len() && prev[w] == lights[j];
                assert(cur[w] == lights[j]);
            } else {
                assert(cur[prev.len() as int] == lights[j]);
            }
        }
    }
}

proof fn lemma_members_absent<I>(es: Seq<(BatchKey, I)>, key: BatchKey)
    requires
        !distinct_keys(es).contains(key),
    ensures
        members(es, key) == Seq::<I>::empty(),
    decreases es.len(),
{
    if es.len() > 0 {
        let d = distinct_keys(es.drop_last());
        if d.contains(es.last().0) {
            lemma_members_absent(es.drop_last(), key);
        } else {
            assert(distinct_keys(es)[d.len() as int] == es.last().0);
            if d.contains(key) {
                let k = choose|k: int| 0 <= k < d.len() && d[k] == key;
                assert(distinct_keys(es)[k] == key);
            }
            lemma_members_absent(es.drop_last(), key);
        }
    }
}

proof fn lemma_distinct_keys_distinct<I>(es: Seq<(BatchKey, I)>)
    ensures
        forall|a: int, b: int|
            0 <= a < b < distinct_keys(es).len() ==> distinct_keys(es)[a] != distinct_keys(es)[b],
    decreases es.len(),
{
    if es.len() > 0 {
        lemma_distinct_keys_distinct(es.drop_last());
        let d = distinct_keys(es.drop_last());
        if !d.contains(es.last().0) {
            assert forall|a: int, b: int|
                0 <= a < b < distinct_keys(es).len() implies distinct_keys(es)[a] != distinct_keys(es)[b] by {
                if b == d.len() {
                    assert(d[a] == distinct_keys(es)[a]);
                }
            }
        }
    }
}

/// The position of `key` in `keys`.
fn find_key(keys: &Vec<BatchKey>, key: BatchKey) -> (r: Option<usize>)
    ensures
        match r {
            Some(j) => j < keys@.len() && keys@[j as int] == key,
            None => !keys@.contains(key),
        },
{
    let mut j: usize = 0;
    while j < keys.len()
        invariant
            j <= keys@.len(),
            forall|jj: int| 0 <= jj < j ==> keys@[jj] != key,
        decreases keys@.len() - j,
    {
        if keys[j] == key {
            return Some(j);
        }
        j = j + 1;
    }
    None
}

/// Groups the entries by batch key: the keys in order of first appearance,
/// and for each the instances that carry it, in order.
fn collect_batches<T: Copy>(es: &Vec<(BatchKey, Instance<T>)>) -> (r: (Vec<BatchKey>, Vec<Vec<Instance<T>>>))
    ensures
        r.0@ == distinct_keys(es@),
        r.1@.len() == r.0@.len(),
        forall|j: int| 0 <= j < r.1@.len() ==> (#[trigger] r.1@[j])@ == members(es@, r.0@[j]),
{
    let mut keys: Vec<BatchKey> = Vec::new();
    let mut groups: Vec<Vec<Instance<T>>> = Vec::new();
    for e in 0..es.len()
        invariant
            keys@ == distinct_keys(es@.take(e as int)),
            groups@.len() == keys@.len(),
            forall|j: int| 0 <= j < groups@.len() ==> (#[trigger] groups@[j])@ == members(es@.take(e as int), keys@[j]),
    {
        let (key, inst) = es[e];
        let ghost prev = es@.take(e as int);
        let ghost next = es@.take(e + 1);
        proof {
            assert(next.drop_last() =~= prev);
            assert(next.last() == (key, inst));
            lemma_distinct_keys_distinct(prev);
        }
        match find_key(&keys, key) {
            Some(j) => {
                let ghost before = groups@;
                groups[j].push(inst);
                proof {
                    assert(keys@.contains(key));
                    assert forall|jj: int| 0 <= jj < groups@.len() implies (#[trigger] groups@[jj])@ == members(
                        next,
                        keys@[jj],
                    ) by {
                        if jj != j as int {
                            assert(groups@[jj] == before[jj]);
                        }
                    }
                }
            },
            None => {
                proof {
                    assert(!keys@.contains(key));
                    lemma_members_absent(prev, key);
                }
                keys.push(key);
                let mut g: Vec<Instance<T>> = Vec::new();
                g.push(inst);
                let ghost before = groups@;
                groups.push(g);
                proof {
                    assert(g@ =~= Seq::<Instance<T>>::empty().push(inst));
                    assert forall|jj: int| 0 <= jj < groups@.len() implies (#[trigger] groups@[jj])@ == members(
                        next,
                        keys@[jj],
                    ) by {
                        if jj < before.len() {
                            assert(groups@[jj] == before[jj]);
                            assert(keys@[jj] != key);
                        }
                    }
                }
            },
        }
    }
    proof {
        assert(es@.take(es@.len() as int) =~= es@);
    }
    (keys, groups)
}

/// Lays the groups out one after another at the end of `instances`, and adds
/// one batch per group covering exactly its run of instances.
pub fn flush_batches<T: Copy>(
    keys: &Vec<BatchKey>,
    groups: &Vec<Vec<Instance<T>>>,
    batches: &mut Vec<InstanceBatch>,
    instances: &mut Vec<Instance<T>>,
    Ghost(es): Ghost<Seq<(BatchKey, Instance<T>)>>,
)
    requires
        groups@.len() == keys@.len(),
        forall|j: int| 0 <= j < groups@.len() ==> (#[trigger] groups@[j])@ == members(es, keys@[j]),
    ensures
        final(instances)@ == old(instances)@ + grouped(es, keys@),
        final(batches)@ == old(batches)@ + Seq::new(
            keys@.len(),
            |j: int| batch_of(es, keys@, j, old(instances)@.len() as int),
        ),
{
    let ghost base = instances@.len() as int;
    let ghost inst0 = instances@;
    let ghost batch0 = batches@;
    for j in 0..keys.len()
        invariant
            groups@.len() == keys@.len(),
            forall|jj: int| 0 <= jj < groups@.len() ==> (#[trigger] groups@[jj])@ == members(es, keys@[jj]),
            base == inst0.len(),
            instances@ == inst0 + grouped(es, keys@.take(j as int)),
            batches@ == batch0 + Seq::new(j as nat, |jj: int| batch_of(es, keys@, jj, base)),
    {
        let start = instances.len() as u32;
        let group = &groups[j];
        let count = group.len() as u32;
        let ghost inst_before = instances@;
        for m in 0..group.len()
            invariant
                instances@ == inst_before + group@.take(m as int),
        {
            instances.push(group[m]);
            proof {
                assert(group@.take(m + 1) =~= group@.take(m as int).push(group@[m as int]));
            }
        }
        let key = keys[j];
        batches.push(
            InstanceBatch {
                mesh: key.mesh,
                material: key.material,
                index_start: key.index_start,
                index_end: key.index_end,
                instance_start: start,
                instance_count: count,
            },
        );
        proof {
            assert(keys@.take(j + 1).drop_last() =~= keys@.take(j as int));
            assert(group@.take(group@.len() as int) =~= group@);
            assert(instances@ =~= inst0 + grouped(es, keys@.take(j + 1)));
            assert(batches@ =~= batch0 + Seq::new((j + 1) as nat, |jj: int| batch_of(es, keys@, jj, base)));
        }
    }
    proof {
        assert(keys@.take(keys@.len() as int) =~= keys@);
    }
}


/// The batches of the groups of `es`, laid out from `base` on.
pub open spec fn batches_for<I>(es: Seq<(BatchKey, I)>, base: int) -> Seq<InstanceBatch> {
    Seq::new(distinct_keys(es).len(), |j: int| batch_of(es, distinct_keys(es), j, base))
}

proof fn lemma_grouped_push<I>(es: Seq<(BatchKey, I)>, e: (BatchKey, I), keys: Seq<BatchKey>)
    requires
        forall|a: int, b: int| 0 <= a < b < keys.len() ==> keys[a] != keys[b],
    ensures
        grouped(es.push(e), keys).len() == grouped(es, keys).len() + if keys.contains(e.0) {
            1int
        } else {
            0int
        },
    decreases keys.len(),
{
    if keys.len() > 0 {
        let k = keys.last();
        lemma_grouped_push(es, e, keys.drop_last());
        assert(es.push(e).drop_last() =~= es);
        if keys.contains(e.0) {
            if k != e.0 {
                let idx = choose|idx: int| 0 <= idx < keys.len() && keys[idx] == e.0;
                assert(keys.drop_last()[idx] == e.0);
            } else {
                if keys.drop_last().contains(e.0) {
                    let idx = choose|idx: int| 0 <= idx < keys.len() - 1 && keys.drop_last()[idx] == e.0;
                    assert(keys[idx] == keys[keys.len() - 1]);
                }
            }
        } else {
            if keys.drop_last().contains(e.0) {
                let idx = choose|idx: int| 0 <= idx < keys.len() - 1 && keys.drop_last()[idx] == e.0;
                assert(keys[idx] == e.0);
            }
            assert(k != e.0);
        }
    }
}

proof fn lemma_grouped_len<I>(es: Seq<(BatchKey, I)>)
    ensures
        grouped(es, distinct_keys(es)).len() == es.len(),
    decreases es.len(),
{
    if es.len() > 0 {
        let prev = es.drop_last();
        let e = es.last();
        assert(prev.push(e) =~= es);
        lemma_grouped_len(prev);
        lemma_distinct_keys_distinct(prev);
        let d = distinct_keys(prev);
        lemma_grouped_push(prev, e, d);
        if !d.contains(e.0) {
            lemma_members_absent(prev, e.0);
            assert(distinct_keys(es).drop_last() =~= d);
        }
    }
}

proof fn lemma_grouped_prefix<I>(es: Seq<(BatchKey, I)>, keys: Seq<BatchKey>, j: int)
    requires
        0 <= j <= keys.len(),
    ensures
        grouped(es, keys.take(j)).len() <= grouped(es, keys).len(),
    decreases keys.len() - j,
{
    if j < keys.len() {
        assert(keys.take(j + 1).drop_last() =~= keys.take(j));
        lemma_grouped_prefix(es, keys, j + 1);
    } else {
        assert(keys.take(j) =~= keys);
    }
}

/// The batches of a class hold each of its instances once: when there are at
/// most `u32::MAX` of them, the batches' instance counts add up to their number.
pub proof fn lemma_batches_cover_entries<I>(es: Seq<(BatchKey, I)>, base: int)
    requires
        es.len() <= u32::MAX,
    ensures
        total_instances(batches_for(es, base)) == es.len(),
{
    let keys = distinct_keys(es);
    lemma_grouped_len(es);
    lemma_batches_prefix_total(es, base, keys.len() as int);
    assert(batches_for(es, base).take(keys.len() as int) =~= batches_for(es, base));
    assert(keys.take(keys.len() as int) =~= keys);
}

proof fn lemma_batches_prefix_total<I>(es: Seq<(BatchKey, I)>, base: int, j: int)
    requires
        0 <= j <= distinct_keys(es).len(),
        grouped(es, distinct_keys(es)).len() == es.len(),
        es.len() <= u32::MAX,
    ensures
        total_instances(batches_for(es, base).take(j)) == grouped(es, distinct_keys(es).take(j)).len(),
    decreases j,
{
    let keys = distinct_keys(es);
    if j > 0 {
        lemma_batches_prefix_total(es, base, j - 1);
        assert(batches_for(es, base).take(j).drop_last() =~= batches_for(es, base).take(j - 1));
        assert(keys.take(j).drop_last() =~= keys.take(j - 1));
        lemma_grouped_prefix(es, keys, j);
    } else {
        assert(batches_for(es, base).take(0) =~= Seq::<InstanceBatch>::empty());
    }
}

/// The material of batch key `key` is loaded and belongs to the class
/// `transmission` (see `in_batch_class`).
pub open spec fn key_in_class(materials: Seq<MaterialInfo>, key: BatchKey, transmission: bool) -> bool {
    match find_material(materials, key.material) {
        Some(m) => in_batch_class(m, transmission),
        None => false,
    }
}

proof fn lemma_submesh_entries_class<T>(
    obj: MeshRenderObject<T>,
    subs: Seq<SubmeshDesc>,
    materials: Seq<MaterialInfo>,
    transmission: bool,
)
    ensures
        forall|i: int|
            0 <= i < submesh_entries(obj, subs, materials, transmission).len() ==> key_in_class(
                materials,
                #[trigger] submesh_entries(obj, subs, materials, transmission)[i].0,
                transmission,
            ),
    decreases subs.len(),
{
    if subs.len() > 0 {
        lemma_submesh_entries_class(obj, subs.drop_last(), materials, transmission);
        let prev = submesh_entries(obj, subs.drop_last(), materials, transmission);
        let cur = submesh_entries(obj, subs, materials, transmission);
        assert forall|i: int| 0 <= i < cur.len() implies key_in_class(materials, #[trigger] cur[i].0, transmission) by {
            if i < prev.len() {
                assert(cur[i] == prev[i]);
            }
        }
    }
}

proof fn lemma_queue_entries_class<T>(objs: Seq<MeshRenderObject<T>>, catalog: AssetCatalog, transmission: bool)
    ensures
        forall|i: int|
            0 <= i < queue_entries(objs, catalog, transmission).len() ==> key_in_class(
                catalog.materials@,
                #[trigger] queue_entries(objs, catalog, transmission)[i].0,
                transmission,
            ),
    decreases objs.len(),
{
    if objs.len() > 0 {
        lemma_queue_entries_class(objs.drop_last(), catalog, transmission);
        let a = queue_entries(objs.drop_last(), catalog, transmission);
        let b = object_entries(objs.last(), catalog, transmission);
        match find_mesh(catalog.meshes@, objs.last().mesh) {
            Some(mesh) => lemma_submesh_entries_class(objs.last(), mesh.submeshes@, catalog.materials@, transmission),
            None => {},
        }
        assert forall|i: int| 0 <= i < (a + b).len() implies key_in_class(
            catalog.materials@,
            #[trigger] (a + b)[i].0,
            transmission,
        ) by {
            if i < a.len() {
                assert((a + b)[i] == a[i]);
            } else {
                assert((a + b)[i] == b[i - a.len()]);
            }
        }
    }
}

/// Which pass draws a material: every instance queued for the transmission
/// batches has a loaded transmissive material, and every instance queued for
/// the opaque batches a loaded material that is neither transmissive nor
/// transparent; transparent materials are drawn by neither.
pub proof fn lemma_batch_materials<T>(objs: Seq<MeshRenderObject<T>>, catalog: AssetCatalog, transmission: bool)
    ensures
        forall|i: int|
            0 <= i < queue_entries(objs, catalog, transmission).len() ==> match find_material(
                catalog.materials@,
                (#[trigger] queue_entries(objs, catalog, transmission)[i]).0.material,
            ) {
                Some(m) => if transmission {
                    m.transmissive
                } else {
                    !m.transmissive && !m.transparent
                },
                None => false,
            },
{
    lemma_queue_entries_class(objs, catalog, transmission);
}

proof fn lemma_distinct_key_source<I>(es: Seq<(BatchKey, I)>, key: BatchKey)
    requires
        distinct_keys(es).contains(key),
    ensures
        exists|i: int| 0 <= i < es.len() && (#[trigger] es[i]).0 == key,
    decreases es.len(),
{
    let d = distinct_keys(es.drop_last());
    if d.contains(key) {
        lemma_distinct_key_source(es.drop_last(), key);
        let i = choose|i: int| 0 <= i < es.drop_last().len() && (#[trigger] es.drop_last()[i]).0 == key;
        assert(es[i] == es.drop_last()[i]);
    } else {
        assert(es[es.len() - 1] == es.last());
    }
}

/// A submesh is drawn by one mesh pass at most: no batch key of the opaque
/// batches is also a key of the transmission batches.
pub proof fn lemma_batch_classes_disjoint<T>(objs: Seq<MeshRenderObject<T>>, catalog: AssetCatalog, key: BatchKey)
    ensures
        !(distinct_keys(queue_entries(objs, catalog, false)).contains(key) && distinct_keys(
            queue_entries(objs, catalog, true),
        ).contains(key)),
{
    let op = queue_entries(objs, catalog, false);
    let tr = queue_entries(objs, catalog, true);
    if distinct_keys(op).contains(key) && distinct_keys(tr).contains(key) {
        lemma_distinct_key_source(op, key);
        lemma_distinct_key_source(tr, key);
        lemma_queue_entries_class(objs, catalog, false);
        lemma_queue_entries_class(objs, catalog, true);
        let i = choose|i: int| 0 <= i < op.len() && (#[trigger] op[i]).0 == key;
        let j = choose|j: int| 0 <= j < tr.len() && (#[trigger] tr[j]).0 == key;
        assert(key_in_class(catalog.materials@, op[i].0, false));
        assert(key_in_class(catalog.materials@, tr[j].0, true));
    }
}

proof fn lemma_grouped_take_prefix<I>(es: Seq<(BatchKey, I)>, keys: Seq<BatchKey>, j: int)
    requires
        0 <= j <= keys.len(),
    ensures
        grouped(es, keys).take(grouped(es, keys.take(j)).len() as int) == grouped(es, keys.take(j)),
        grouped(es, keys.take(j)).len() <= grouped(es, keys).len(),
    decreases keys.len() - j,
{
    if j < keys.len() {
        lemma_grouped_take_prefix(es, keys, j + 1);
        assert(keys.take(j + 1).drop_last() =~= keys.take(j));
        let a = grouped(es, keys.take(j));
        let b = grouped(es, keys.take(j + 1));
        let g = grouped(es, keys);
        assert(b.take(a.len() as int) =~= a);
        assert(g.take(a.len() as int) =~= b.take(a.len() as int));
    } else {
        assert(keys.take(j) =~= keys);
        assert(grouped(es, keys).take(grouped(es, keys).len() as int) =~= grouped(es, keys));
    }
}

/// Each batch covers exactly its group: when the groups of `keys` are laid
/// out from `base` on and all fit in `u32` indices, the run of batch `j`
/// (from its instance start, of its instance count) holds exactly the
/// instances of its key, in order.
pub proof fn lemma_batch_runs<I>(es: Seq<(BatchKey, I)>, keys: Seq<BatchKey>, j: int, base: int)
    requires
        0 <= j < keys.len(),
        0 <= base,
        base + grouped(es, keys).len() <= u32::MAX,
    ensures
        ({
            let b = batch_of(es, keys, j, base);
            &&& b.instance_start + b.instance_count <= base + grouped(es, keys).len()
            &&& grouped(es, keys).subrange(
                b.instance_start - base,
                b.instance_start - base + b.instance_count,
            ) == members(es, keys[j])
        }),
{
    lemma_grouped_take_prefix(es, keys, j);
    lemma_grouped_take_prefix(es, keys, j + 1);
    assert(keys.take(j + 1).drop_last() =~= keys.take(j));
    assert(keys.take(j + 1).last() == keys[j]);
    let a = grouped(es, keys.take(j));
    let m = members(es, keys[j]);
    let g = grouped(es, keys);
    assert(grouped(es, keys.take(j + 1)) == a + m);
    assert(g.subrange(a.len() as int, (a.len() + m.len()) as int) =~= m) by {
        assert(g.take((a.len() + m.len()) as int) == a + m);
        assert forall|i: int| 0 <= i < m.len() implies g.subrange(a.len() as int, (a.len() + m.len()) as int)[i] == m[i] by {
            assert(g.take((a.len() + m.len()) as int)[a.len() + i] == (a + m)[a.len() + i]);
        }
    }
}

/// The draw calls and instances of `batches`.
pub fn compute_stats(batches: &[InstanceBatch]) -> (s: DrawStats)
    requires
        total_instances(batches@) <= u32::MAX,
    ensures
        s.draw_calls == batches@.len() as u32,
        s.instances == total_instances(batches@),
{
    let draw_calls = batches.len() as u32;
    let mut instances: u32 = 0;
    for k in 0..batches.len()
        invariant
            total_instances(batches@) <= u32::MAX,
            instances == total_instances(batches@.take(k as int)),
    {
        proof {
            assert(batches@.take(k + 1).drop_last() =~= batches@.take(k as int));
            lemma_total_prefix(batches@, k + 1);
        }
        instances = instances + batches[k].instance_count;
    }
    proof {
        assert(batches@.take(batches@.len() as int) =~= batches@);
    }
    DrawStats { draw_calls, instances }
}

proof fn lemma_total_prefix(batches: Seq<InstanceBatch>, k: int)
    requires
        0 <= k <= batches.len(),
    ensures
        total_instances(batches.take(k)) <= total_instances(batches),
    decreases batches.len() - k,
{
    if k < batches.len() {
        assert(batches.take(k + 1).drop_last() =~= batches.take(k));
        lemma_total_prefix(batches, k + 1);
    } else {
        assert(batches.take(k) =~= batches);
    }
}

/// The opaque and the transmission entries of the queued objects, in queue
/// order and, within an object, in submesh order.
fn gather_entries<T: Copy>(objs: &Vec<MeshRenderObject<T>>, catalog: &AssetCatalog) -> (r: (
    Vec<(BatchKey, Instance<T>)>,
    Vec<(BatchKey, Instance<T>)>,
))
    ensures
        r.0@ == queue_entries(objs@, *catalog, false),
        r.1@ == queue_entries(objs@, *catalog, true),
{
    let mut opaque: Vec<(BatchKey, Instance<T>)> = Vec::new();
    let mut transmission: Vec<(BatchKey, Instance<T>)> = Vec::new();
    for k in 0..objs.len()
        invariant
            opaque@ == queue_entries(objs@.take(k as int), *catalog, false),
            transmission@ == queue_entries(objs@.take(k as int), *catalog, true),
    {
        let object = objs[k];
        proof {
            assert(objs@.take(k + 1).drop_last() =~= objs@.take(k as int));
        }
        let ghost op0 = opaque@;
        let ghost tr0 = transmission@;
        match catalog.get_mesh(object.mesh) {
            None => {
                proof {
                    assert(object_entries(object, *catalog, false) =~= Seq::<(BatchKey, Instance<T>)>::empty());
                    assert(object_entries(object, *catalog, true) =~= Seq::<(BatchKey, Instance<T>)>::empty());
                    assert(opaque@ =~= queue_entries(objs@.take(k + 1), *catalog, false));
                    assert(transmission@ =~= queue_entries(objs@.take(k + 1), *catalog, true));
                }
            },
            Some(mi) => {
                let submeshes = &catalog.meshes[mi].submeshes;
                for s in 0..submeshes.len()
                    invariant
                        opaque@ == op0 + submesh_entries(object, submeshes@.take(s as int), catalog.materials@, false),
                        transmission@ == tr0 + submesh_entries(
                            object,
                            submeshes@.take(s as int),
                            catalog.materials@,
                            true,
                        ),
                {
                    let sm = submeshes[s];
                    proof {
                        assert(submeshes@.take(s + 1).drop_last() =~= submeshes@.take(s as int));
                    }
                    let key = BatchKey {
                        mesh: object.mesh,
                        material: sm.material,
                        index_start: sm.index_start,
                        index_end: sm.index_end,
                    };
                    let instance = Instance { transform: object.transform, entity_id: object.entity_id };
                    match catalog.get_material(sm.material) {
                        None => {},
                        Some(material) => {
                            if material.transmissive {
                                transmission.push((key, instance));
                            } else if !material.transparent {
                                opaque.push((key, instance));
                            }
                        },
                    }
                    proof {
                        assert(opaque@ =~= op0 + submesh_entries(
                            object,
                            submeshes@.take(s + 1),
                            catalog.materials@,
                            false,
                        ));
                        assert(transmission@ =~= tr0 + submesh_entries(
                            object,
                            submeshes@.take(s + 1),
                            catalog.materials@,
                            true,
                        ));
                    }
                }
                proof {
                    assert(submeshes@.take(submeshes@.len() as int) =~= submeshes@);
                    assert(opaque@ =~= queue_entries(objs@.take(k + 1), *catalog, false));
                    assert(transmission@ =~= queue_entries(objs@.take(k + 1), *catalog, true));
                }
            },
        }
    }
    proof {
        assert(objs@.take(objs@.len() as int) =~= objs@);
    }
    (opaque, transmission)
}

impl<T: Copy, D: Copy, V> FrameBuilder<T, D, V> {
    /// An empty frame.
    pub fn new() -> (f: Self)
        ensures
            f.opaque_batches@.len() == 0,
            f.transmission_batches@.len() == 0,
            f.instances@.len() == 0,
            f.lines@.len() == 0,
            f.lights.enabled == 0,
            f.lights.count == 0,
            f.lights.lights@.len() == 0,
            f.opaque_stats == (DrawStats { draw_calls: 0, instances: 0 }),
            f.transmission_stats == (DrawStats { draw_calls: 0, instances: 0 }),
    {
        FrameBuilder {
            opaque_batches: Vec::new(),
            transmission_batches: Vec::new(),
            instances: Vec::new(),
            lines: Vec::new(),
            lights: LightsPlan { enabled: 0, count: 0, lights: Vec::new() },
            opaque_stats: DrawStats { draw_calls: 0, instances: 0 },
            transmission_stats: DrawStats { draw_calls: 0, instances: 0 },
        }
    }

    /// Batches the queued meshes: instances of the same submesh with the same
    /// material are drawn together, opaque and transmissive ones apart; the
    /// opaque instances come first in the instance buffer.
    pub fn prepare_meshes(queue: &RenderQueue<T, D, V>, catalog: &AssetCatalog, frame: &mut Self)
        ensures
            ({
                let op = queue_entries(queue.mesh@, *catalog, false);
                let tr = queue_entries(queue.mesh@, *catalog, true);
                let base = old(frame).instances@.len() as int;
                &&& final(frame).instances@ == old(frame).instances@ + grouped(op, distinct_keys(op)) + grouped(
                    tr,
                    distinct_keys(tr),
                )
                &&& final(frame).opaque_batches@ == old(frame).opaque_batches@ + batches_for(op, base)
                &&& final(frame).transmission_batches@ == old(frame).transmission_batches@ + batches_for(
                    tr,
                    base + op.len(),
                )
            }),
            final(frame).lines@ == old(frame).lines@,
            final(frame).lights == old(frame).lights,
            final(frame).opaque_stats == old(frame).opaque_stats,
            final(frame).transmission_stats == old(frame).transmission_stats,
    {
        let (opaque, transmission) = gather_entries(&queue.mesh, catalog);
        let (op_keys, op_groups) = collect_batches(&opaque);
        let (tr_keys, tr_groups) = collect_batches(&transmission);
        let ghost inst0 = frame.instances@;
        flush_batches(&op_keys, &op_groups, &mut frame.opaque_batches, &mut frame.instances, Ghost(opaque@));
        proof {
            lemma_grouped_len(opaque@);
        }
        flush_batches(
            &tr_keys,
            &tr_groups,
            &mut frame.transmission_batches,
            &mut frame.instances,
            Ghost(transmission@),
        );
        proof {
            assert(Seq::new(op_keys@.len(), |j: int| batch_of(opaque@, op_keys@, j, inst0.len() as int))
                =~= batches_for(opaque@, inst0.len() as int));
            assert(Seq::new(
                tr_keys@.len(),
                |j: int| batch_of(transmission@, tr_keys@, j, (inst0.len() + opaque@.len()) as int),
            ) =~= batches_for(transmission@, (inst0.len() + opaque@.len()) as int));
        }
    }

    /// The lights of the frame: the first `MAX_LIGHTS` queued lights that are
    /// switched on, and whether lighting is on at all.
    pub fn prepare_lights(queue: &RenderQueue<T, D, V>, light_enable: bool, frame: &mut Self)
        ensures
            final(frame).lights.enabled == if light_enable {
                1u32
            } else {
                0u32
            },
            final(frame).lights.lights@ == enabled_lights(queue.lights@).take(
                if enabled_lights(queue.lights@).len() < MAX_LIGHTS {
                    enabled_lights(queue.lights@).len() as int
                } else {
                    MAX_LIGHTS as int
                },
            ),
            final(frame).lights.count == final(frame).lights.lights@.len(),
            final(frame).lights.lights@.len() <= MAX_LIGHTS,
            forall|i: int|
                0 <= i < final(frame).lights.lights@.len() ==> (#[trigger] final(frame).lights.lights@[i]).light.enabled
                    && queue.lights@.contains(final(frame).lights.lights@[i]),
            final(frame).opaque_batches == old(frame).opaque_batches,
            final(frame).transmission_batches == old(frame).transmission_batches,
            final(frame).instances == old(frame).instances,
            final(frame).lines == old(frame).lines,
            final(frame).opaque_stats == old(frame).opaque_stats,
            final(frame).transmission_stats == old(frame).transmission_stats,
    {
        let mut selected: Vec<LightRenderObject<D>> = Vec::new();
        let mut k: usize = 0;
        while k < queue.lights.len() && selected.len() < MAX_LIGHTS
            invariant
                k <= queue.lights@.len(),
                selected@ == enabled_lights(queue.lights@.take(k as int)),
                selected@.len() <= MAX_LIGHTS,
            decreases queue.lights@.len() - k,
        {
            let light = queue.lights[k];
            proof {
                assert(queue.lights@.take(k + 1).drop_last() =~= queue.lights@.take(k as int));
            }
            if light.light.enabled {
                selected.push(light);
            }
            k = k + 1;
        }
        proof {
            lemma_enabled_lights(queue.lights@);
            lemma_enabled_prefix(queue.lights@, k as int);
            if selected@.len() < MAX_LIGHTS {
                assert(queue.lights@.take(k as int) =~= queue.lights@);
                assert(selected@ =~= enabled_lights(queue.lights@).take(enabled_lights(queue.lights@).len() as int));
            } else {
                assert(selected@ =~= enabled_lights(queue.lights@).take(MAX_LIGHTS as int));
            }
        }
        let count = selected.len() as u32;
        frame.lights = LightsPlan { enabled: if light_enable { 1 } else { 0 }, count, lights: selected };
    }

    /// Builds the frame of a render queue: the draw batches, the lights, the
    /// queue's line vertices, and the draw statistics.
    pub fn prepare(queue: RenderQueue<T, D, V>, catalog: &AssetCatalog, light_enable: bool) -> (frame: Self)
        requires
            queue_entries(queue.mesh@, *catalog, false).len() <= u32::MAX,
            queue_entries(queue.mesh@, *catalog, true).len() <= u32::MAX,
        ensures
            ({
                let op = queue_entries(queue.mesh@, *catalog, false);
                let tr = queue_entries(queue.mesh@, *catalog, true);
                &&& frame.instances@ == grouped(op, distinct_keys(op)) + grouped(tr, distinct_keys(tr))
                &&& frame.opaque_batches@ == batches_for(op, 0)
                &&& frame.transmission_batches@ == batches_for(tr, op.len() as int)
                &&& frame.opaque_stats == (DrawStats {
                    draw_calls: distinct_keys(op).len() as u32,
                    instances: op.len() as u32,
                })
                &&& frame.transmission_stats == (DrawStats {
                    draw_calls: distinct_keys(tr).len() as u32,
                    instances: tr.len() as u32,
                })
            }),
            frame.lines@ == queue.lines@,
            frame.lights.enabled == if light_enable {
                1u32
            } else {
                0u32
            },
            frame.lights.lights@ == enabled_lights(queue.lights@).take(
                if enabled_lights(queue.lights@).len() < MAX_LIGHTS {
                    enabled_lights(queue.lights@).len() as int
                } else {
                    MAX_LIGHTS as int
                },
            ),
            frame.lights.count == frame.lights.lights@.len(),
    {
        let mut frame = Self::new();
        Self::prepare_meshes(&queue, catalog, &mut frame);
        Self::prepare_lights(&queue, light_enable, &mut frame);
        frame.lines = queue.lines;
        proof {
            let op = queue_entries(queue.mesh@, *catalog, false);
            let tr = queue_entries(queue.mesh@, *catalog, true);
            lemma_batches_cover_entries(op, 0);
            lemma_batches_cover_entries(tr, op.len() as int);
            assert(frame.opaque_batches@ =~= batches_for(op, 0));
            assert(frame.transmission_batches@ =~= batches_for(tr, op.len() as int));
        }
        frame.opaque_stats = compute_stats(frame.opaque_batches.as_slice());
        frame.transmission_stats = compute_stats(frame.transmission_batches.as_slice());
        frame
    }
}

proof fn lemma_enabled_prefix<D>(lights: Seq<LightRenderObject<D>>, k: int)
    requires
        0 <= k <= lights.len(),
    ensures
        enabled_lights(lights.take(k)) == enabled_lights(lights).take(enabled_lights(lights.take(k)).len() as int),
        enabled_lights(lights.take(k)).len() <= enabled_lights(lights).len(),
    decreases lights.len() - k,
{
    if k < lights.len() {
        lemma_enabled_prefix(lights, k + 1);
        assert(lights.take(k + 1).drop_last() =~= lights.take(k));
        let a = enabled_lights(lights.take(k));
        let b = enabled_lights(lights.take(k + 1));
        let full = enabled_lights(lights);
        assert(b.take(a.len() as int) =~= a);
        assert(full.take(a.len() as int) =~= full.take(b.len() as int).take(a.len() as int));
    } else {
        assert(lights.take(k) =~= lights);
        assert(enabled_lights(lights).take(enabled_lights(lights).len() as int) =~= enabled_lights(lights));
    }
}

} // verus!
