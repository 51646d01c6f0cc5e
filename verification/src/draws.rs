//! What the mesh and shadow passes draw, in which order, and what they bind
//! between draws.
use vstd::prelude::*;

use crate::assets::MaterialId;
use crate::framebuilder::InstanceBatch;

verus! {

/// Batch `a` is drawn before batch `b`: its material comes first, or both
/// have the same material and `a` comes first in the frame.
pub open spec fn material_before(batches: Seq<InstanceBatch>, a: usize, b: usize) -> bool {
    batches[a as int].material < batches[b as int].material || (batches[a as int].material
        == batches[b as int].material && a < b)
}

/// `order` lists the batches of the frame by material, the batches of one
/// material in frame order: each index of `batches` exactly once, each before
/// the next.
pub open spec fn is_material_order(batches: Seq<InstanceBatch>, order: Seq<usize>) -> bool {
    &&& order.len() == batches.len()
    &&& forall|k: int| 0 <= k < order.len() ==> #[trigger] order[k] < batches.len()
    &&& forall|b: usize| b < batches.len() ==> #[trigger] order.contains(b)
    &&& forall|j: int, k: int|
        0 <= j < k < order.len() ==> material_before(batches, #[trigger] order[j], #[trigger] order[k])
}

/// The indices of `batches` by material, the batches of one material in frame order.
pub fn sort_by_material(batches: &[InstanceBatch]) -> (order: Vec<usize>)
    ensures
        is_material_order(batches@, order@),
{
    let ghost bs = batches@;
    let mut order: Vec<usize> = Vec::new();
    for b in 0..batches.len()
        invariant
            bs == batches@,
            order@.len() == b,
            forall|k: int| 0 <= k < order@.len() ==> #[trigger] order@[k] < b,
            forall|x: usize| x < b ==> #[trigger] order@.contains(x),
            forall|j: int, k: int|
                0 <= j < k < order@.len() ==> material_before(bs, #[trigger] order@[j], #[trigger] order@[k]),
    {
        let m = batches[b].material;
        let mut p: usize = 0;
        while p < order.len() && batches[order[p]].material <= m
            invariant
                bs == batches@,
                b < bs.len(),
                p <= order@.len(),
                order@.len() == b,
                forall|k: int| 0 <= k < order@.len() ==> #[trigger] order@[k] < b,
                forall|j: int, k: int|
                    0 <= j < k < order@.len() ==> material_before(bs, #[trigger] order@[j], #[trigger] order@[k]),
                forall|j: int| 0 <= j < p ==> bs[#[trigger] order@[j] as int].material <= m,
            decreases order@.len() - p,
        {
            p = p + 1;
        }
        let ghost old_order = order@;
        proof {
            assert forall|j: int| p <= j < old_order.len() implies bs[#[trigger] old_order[j] as int].material > m by {
                assert(bs[old_order[p as int] as int].material > m);
                if j > p {
                    assert(material_before(bs, old_order[p as int], old_order[j]));
                }
            }
        }
        order.insert(p, b);
        proof {
            assert(order@ =~= old_order.subrange(0, p as int).push(b) + old_order.subrange(p as int, old_order.len() as int));
            assert forall|k: int| 0 <= k < order@.len() implies #[trigger] order@[k] < b + 1 by {
                if k < p {
                    assert(order@[k] == old_order[k]);
                } else if k > p {
                    assert(order@[k] == old_order[k - 1]);
                }
            }
            assert forall|x: usize| x < b + 1 implies #[trigger] order@.contains(x) by {
                if x < b {
                    assert(old_order.contains(x));
                    let i = choose|i: int| 0 <= i < old_order.len() && old_order[i] == x;
                    if i < p {
                        assert(order@[i] == x);
                    } else {
                        assert(order@[i + 1] == x);
                    }
                } else {
                    assert(order@[p as int] == x);
                }
            }
            assert forall|j: int, k: int| 0 <= j < k < order@.len() implies material_before(
                bs,
                #[trigger] order@[j],
                #[trigger] order@[k],
            ) by {
                if k < p {
                    assert(order@[j] == old_order[j] && order@[k] == old_order[k]);
                } else if k == p {
                    assert(order@[j] == old_order[j]);
                    assert(bs[old_order[j] as int].material <= m);
                    assert(old_order[j] < b);
                } else if j < p {
                    assert(order@[j] == old_order[j] && order@[k] == old_order[k - 1]);
                    assert(material_before(bs, old_order[j], old_order[k - 1]));
                } else if j == p {
                    assert(order@[k] == old_order[k - 1]);
                    assert(bs[old_order[k - 1] as int].material > m);
                } else {
                    assert(order@[j] == old_order[j - 1] && order@[k] == old_order[k - 1]);
                    assert(material_before(bs, old_order[j - 1], old_order[k - 1]));
                }
            }
        }
    }
    order
}

/// One draw of a mesh pass: the batch drawn, and whether its material is bound
/// before it (because the last batch drawn had another material, or none was).
#[derive(Clone, Copy, Debug, PartialEq, Eq, Structural)]
pub struct DrawStep {
    pub batch: usize,
    pub bind_material: bool,
}

/// The draws for the first `k` batches of `order`, skipping the batches whose
/// GPU mesh or material is not `ready`, and the material bound after them.
pub open spec fn draw_steps(
    batches: Seq<InstanceBatch>,
    order: Seq<usize>,
    ready: Seq<bool>,
    k: int,
) -> (Seq<DrawStep>, Option<MaterialId>)
    decreases k,
{
    if k <= 0 {
        (Seq::empty(), None)
    } else {
        let prev = draw_steps(batches, order, ready, k - 1);
        let b = order[k - 1];
        if ready[b as int] {
            let m = batches[b as int].material;
            (prev.0.push(DrawStep { batch: b, bind_material: prev.1 != Some(m) }), Some(m))
        } else {
            prev
        }
    }
}

/// The draws of a mesh pass over `batches`: the batches by material, those
/// whose GPU resources are `ready`, binding a material only when it changes.
pub fn mesh_pass_draws(batches: &[InstanceBatch], ready: &[bool]) -> (r: Vec<DrawStep>)
    requires
        ready@.len() == batches@.len(),
    ensures
        exists|order: Seq<usize>|
            #[trigger] is_material_order(batches@, order) && r@ == draw_steps(
                batches@,
                order,
                ready@,
                order.len() as int,
            ).0,
        forall|i: int| 0 <= i < r@.len() ==> (#[trigger] r@[i]).batch < batches@.len() && ready@[r@[i].batch as int],
        forall|b: int|
            0 <= b < batches@.len() && #[trigger] ready@[b] ==> exists|i: int|
                0 <= i < r@.len() && (#[trigger] r@[i]).batch == b,
{
    let order = sort_by_material(batches);
    let mut steps: Vec<DrawStep> = Vec::new();
    let mut current: Option<MaterialId> = None;
    for k in 0..order.len()
        invariant
            is_material_order(batches@, order@),
            ready@.len() == batches@.len(),
            steps@ == draw_steps(batches@, order@, ready@, k as int).0,
            current == draw_steps(batches@, order@, ready@, k as int).1,
    {
        let b = order[k];
        if ready[b] {
            let m = batches[b].material;
            let bind = match current {
                Some(c) => c != m,
                None => true,
            };
            steps.push(DrawStep { batch: b, bind_material: bind });
            current = Some(m);
        }
    }
    proof {
        let n = order@.len() as int;
        lemma_draws_are_ready_batches(batches@, order@, ready@, n);
        assert(order@.take(n) =~= order@);
        assert forall|i: int| 0 <= i < steps@.len() implies (#[trigger] steps@[i]).batch < batches@.len() && ready@[
            steps@[i].batch as int] by {
            let w = choose|w: int| 0 <= w < order@.len() && order@[w] == steps@[i].batch;
        }
        assert forall|b: int| 0 <= b < batches@.len() && #[trigger] ready@[b] implies exists|i: int|
            0 <= i < steps@.len() && (#[trigger] steps@[i]).batch == b by {
            assert(order@.contains(b as usize));
            let k = choose|k: int| 0 <= k < order@.len() && order@[k] == b as usize;
            assert(ready@[order@[k] as int]);
        }
    }
    steps
}

/// A mesh pass binds a material exactly when it changes: its first draw binds
/// one, and each later draw binds one exactly when its material differs from
/// that of the draw before it.
pub proof fn lemma_bind_on_change(batches: Seq<InstanceBatch>, order: Seq<usize>, ready: Seq<bool>, n: int)
    requires
        0 <= n <= order.len(),
    ensures
        ({
            let s = draw_steps(batches, order, ready, n).0;
            &&& s.len() > 0 ==> s[0].bind_material
            &&& forall|k: int|
                0 < k < s.len() ==> (#[trigger] s[k]).bind_material == (batches[s[k - 1].batch as int].material
                    != batches[s[k].batch as int].material)
        }),
        draw_steps(batches, order, ready, n).1 == if draw_steps(batches, order, ready, n).0.len() > 0 {
            Some(batches[draw_steps(batches, order, ready, n).0.last().batch as int].material)
        } else {
            None::<MaterialId>
        },
    decreases n,
{
    if n > 0 {
        lemma_bind_on_change(batches, order, ready, n - 1);
        let prev = draw_steps(batches, order, ready, n - 1);
        let b = order[n - 1];
        if ready[b as int] {
            let s = draw_steps(batches, order, ready, n).0;
            assert(s == prev.0.push(DrawStep { batch: b, bind_material: prev.1 != Some(batches[b as int].material) }));
            assert forall|k: int| 0 < k < s.len() implies (#[trigger] s[k]).bind_material == (batches[s[k
                - 1].batch as int].material != batches[s[k].batch as int].material) by {
                if k < s.len() - 1 {
                    assert(s[k] == prev.0[k] && s[k - 1] == prev.0[k - 1]);
                }
            }
        }
    }
}

/// A mesh pass draws exactly the batches that are ready, in the order given:
/// every draw is of a ready batch of the order, each ready batch of the order
/// is drawn, and the draws keep the order's sequence.
pub proof fn lemma_draws_are_ready_batches(batches: Seq<InstanceBatch>, order: Seq<usize>, ready: Seq<bool>, n: int)
    requires
        0 <= n <= order.len(),
    ensures
        ({
            let s = draw_steps(batches, order, ready, n).0;
            &&& forall|i: int|
                0 <= i < s.len() ==> ready[(#[trigger] s[i]).batch as int] && order.take(n).contains(s[i].batch)
            &&& forall|k: int| 0 <= k < n && ready[#[trigger] order[k] as int] ==> exists|i: int|
                0 <= i < s.len() && (#[trigger] s[i]).batch == order[k]
        }),
    decreases n,
{
    if n > 0 {
        lemma_draws_are_ready_batches(batches, order, ready, n - 1);
        let prev = draw_steps(batches, order, ready, n - 1).0;
        let s = draw_steps(batches, order, ready, n).0;
        assert forall|i: int| 0 <= i < s.len() implies ready[(#[trigger] s[i]).batch as int] && order.take(n).contains(
            s[i].batch,
        ) by {
            if i < prev.len() {
                assert(s[i] == prev[i]);
                let before = order.take(n - 1);
                let w = choose|w: int| 0 <= w < before.len() && #[trigger] before[w] == prev[i].batch;
                assert(order.take(n)[w] == s[i].batch);
            } else {
                assert(order.take(n)[n - 1] == order[n - 1]);
            }
        }
        assert forall|k: int| 0 <= k < n && ready[#[trigger] order[k] as int] implies exists|i: int|
            0 <= i < s.len() && (#[trigger] s[i]).batch == order[k] by {
            if k < n - 1 {
                let i = choose|i: int| 0 <= i < prev.len() && (#[trigger] prev[i]).batch == order[k];
                assert(s[i] == prev[i]);
            } else {
                assert(s[prev.len() as int].batch == order[k]);
            }
        }
    }
}

/// The light slots, among the first `k`, whose light casts a shadow.
pub open spec fn shadow_casters(casts: Seq<bool>, k: int) -> Seq<usize>
    decreases k,
{
    if k <= 0 {
        Seq::empty()
    } else if casts[k - 1] {
        shadow_casters(casts, k - 1).push((k - 1) as usize)
    } else {
        shadow_casters(casts, k - 1)
    }
}

/// The first `count` shadow-casting slots, or all of them when there are fewer.
pub open spec fn shadow_slots(casts: Seq<bool>, count: u32) -> Seq<usize> {
    let all = shadow_casters(casts, casts.len() as int);
    all.take(if all.len() < count { all.len() as int } else { count as int })
}

/// One shadow map to render: for the light in `slot`, whose parameters sit at
/// `offset` in the light buffer; `show` when that light's entity is selected
/// and its shadow map is shown.
#[derive(Clone, Copy, Debug, PartialEq, Eq, Structural)]
pub struct ShadowJob {
    pub slot: usize,
    pub offset: u64,
    pub show: bool,
}

/// The jobs for the first `k` of `slots`: those with a shadow map.
pub open spec fn shadow_jobs_of(
    slots: Seq<usize>,
    has_map: Seq<bool>,
    entity_ids: Seq<u64>,
    light_size: u64,
    selected: Option<u64>,
    k: int,
) -> Seq<ShadowJob>
    decreases k,
{
    if k <= 0 {
        Seq::empty()
    } else {
        let prev = shadow_jobs_of(slots, has_map, entity_ids, light_size, selected, k - 1);
        let s = slots[k - 1];
        if has_map[s as int] {
            prev.push(
                ShadowJob {
                    slot: s,
                    offset: (s * light_size) as u64,
                    show: selected == Some(entity_ids[s as int]),
                },
            )
        } else {
            prev
        }
    }
}

/// The shadow-casting slots are, in increasing order, exactly the slots among
/// the first `k` whose light casts a shadow.
pub proof fn lemma_shadow_casters(casts: Seq<bool>, k: int)
    requires
        0 <= k <= casts.len(),
        casts.len() <= usize::MAX,
    ensures
        forall|i: int|
            0 <= i < shadow_casters(casts, k).len() ==> #[trigger] shadow_casters(casts, k)[i] < k && casts[shadow_casters(
                casts,
                k,
            )[i] as int],
        forall|a: int, b: int|
            0 <= a < b < shadow_casters(casts, k).len() ==> shadow_casters(casts, k)[a] < shadow_casters(casts, k)[b],
        forall|j: int| 0 <= j < k && #[trigger] casts[j] ==> shadow_casters(casts, k).contains(j as usize),
    decreases k,
{
    if k > 0 {
        lemma_shadow_casters(casts, k - 1);
        let prev = shadow_casters(casts, k - 1);
        if casts[k - 1] {
            let cur = prev.push((k - 1) as usize);
            assert forall|i: int| 0 <= i < cur.len() implies #[trigger] cur[i] < k && casts[cur[i] as int] by {
                if i < prev.len() {
                    assert(cur[i] == prev[i]);
                }
            }
            assert forall|a: int, b: int| 0 <= a < b < cur.len() implies cur[a] < cur[b] by {
                assert(cur[a] == prev[a]);
                if b < prev.len() {
                    assert(cur[b] == prev[b]);
                }
            }
            assert forall|j: int| 0 <= j < k && #[trigger] casts[j] implies cur.contains(j as usize) by {
                if j < k - 1 {
                    let w = choose|w: int| 0 <= w < prev.len() && prev[w] == j as usize;
                    assert(cur[w] == j as usize);
                } else {
                    assert(cur[prev.len() as int] == j as usize);
                }
            }
        }
    }
}

/// Each shadow job is for one of the given slots whose light has a shadow
/// map, with its parameters at `slot * light_size` in the light buffer and
/// shown exactly when its light's entity is the selection; and every given
/// slot with a shadow map gets a job.
pub proof fn lemma_shadow_job_fields(
    slots: Seq<usize>,
    has_map: Seq<bool>,
    entity_ids: Seq<u64>,
    light_size: u64,
    selected: Option<u64>,
    k: int,
)
    requires
        0 <= k <= slots.len(),
    ensures
        ({
            let jobs = shadow_jobs_of(slots, has_map, entity_ids, light_size, selected, k);
            &&& jobs.len() <= k
            &&& forall|i: int|
                0 <= i < jobs.len() ==> slots.take(k).contains((#[trigger] jobs[i]).slot) && has_map[jobs[i].slot as int]
                    && jobs[i].offset == (jobs[i].slot * light_size) as u64 && jobs[i].show == (selected == Some(
                    entity_ids[jobs[i].slot as int],
                ))
            &&& forall|j: int| 0 <= j < k && has_map[#[trigger] slots[j] as int] ==> exists|i: int|
                0 <= i < jobs.len() && (#[trigger] jobs[i]).slot == slots[j]
        }),
    decreases k,
{
    if k > 0 {
        lemma_shadow_job_fields(slots, has_map, entity_ids, light_size, selected, k - 1);
        let prev = shadow_jobs_of(slots, has_map, entity_ids, light_size, selected, k - 1);
        let jobs = shadow_jobs_of(slots, has_map, entity_ids, light_size, selected, k);
        assert forall|i: int| 0 <= i < jobs.len() implies slots.take(k).contains((#[trigger] jobs[i]).slot)
            && has_map[jobs[i].slot as int] && jobs[i].offset == (jobs[i].slot * light_size) as u64 && jobs[i].show == (
        selected == Some(entity_ids[jobs[i].slot as int])) by {
            if i < prev.len() {
                assert(jobs[i] == prev[i]);
                let before = slots.take(k - 1);
                let w = choose|w: int| 0 <= w < before.len() && #[trigger] before[w] == prev[i].slot;
                assert(slots.take(k)[w] == jobs[i].slot);
            } else {
                assert(slots.take(k)[k - 1] == slots[k - 1]);
            }
        }
        assert forall|j: int| 0 <= j < k && has_map[#[trigger] slots[j] as int] implies exists|i: int|
            0 <= i < jobs.len() && (#[trigger] jobs[i]).slot == slots[j] by {
            if j < k - 1 {
                let i = choose|i: int| 0 <= i < prev.len() && (#[trigger] prev[i]).slot == slots[j];
                assert(jobs[i] == prev[i]);
            } else {
                assert(jobs[prev.len() as int].slot == slots[j]);
            }
        }
    }
}

/// The shadow maps a frame renders: for the first `count` lights that cast a
/// shadow (by slot), those that have a shadow map, each with the offset of its
/// parameters in the light buffer and whether it is shown as the selection's.
pub fn shadow_jobs(
    casts: &[bool],
    has_map: &[bool],
    entity_ids: &[u64],
    count: u32,
    light_size: u64,
    selected: Option<u64>,
) -> (r: Vec<ShadowJob>)
    requires
        has_map@.len() == casts@.len(),
        entity_ids@.len() == casts@.len(),
        casts@.len() * light_size <= u64::MAX,
    ensures
        r@ == shadow_jobs_of(
            shadow_slots(casts@, count),
            has_map@,
            entity_ids@,
            light_size,
            selected,
            shadow_slots(casts@, count).len() as int,
        ),
        r@.len() <= count,
        forall|i: int|
            0 <= i < r@.len() ==> casts@[(#[trigger] r@[i]).slot as int] && has_map@[r@[i].slot as int] && r@[i].offset
                == r@[i].slot * light_size && r@[i].show == (selected == Some(entity_ids@[r@[i].slot as int])),
{
    let ghost all = shadow_casters(casts@, casts@.len() as int);
    let ghost slots = shadow_slots(casts@, count);
    let mut jobs: Vec<ShadowJob> = Vec::new();
    let mut taken: u32 = 0;
    let mut slot: usize = 0;
    while slot < casts.len() && taken < count
        invariant
            has_map@.len() == casts@.len(),
            entity_ids@.len() == casts@.len(),
            casts@.len() * light_size <= u64::MAX,
            slot <= casts@.len(),
            all == shadow_casters(casts@, casts@.len() as int),
            slots == shadow_slots(casts@, count),
            taken == shadow_casters(casts@, slot as int).len(),
            taken <= count,
            shadow_casters(casts@, slot as int) == all.take(taken as int),
            jobs@ == shadow_jobs_of(all, has_map@, entity_ids@, light_size, selected, taken as int),
        decreases casts@.len() - slot,
    {
        proof {
            lemma_casters_prefix(casts@, slot as int + 1, casts@.len() as int);
        }
        if casts[slot] {
            proof {
                assert(shadow_casters(casts@, slot + 1) == shadow_casters(casts@, slot as int).push(slot));
                assert(all.take(taken + 1)[taken as int] == slot);
            }
            if has_map[slot] {
                assert(slot * light_size <= casts@.len() * light_size) by (nonlinear_arith)
                    requires
                        slot < casts@.len(),
                ;
                let show = match selected {
                    Some(e) => e == entity_ids[slot],
                    None => false,
                };
                jobs.push(ShadowJob { slot, offset: slot as u64 * light_size, show });
            }
            taken = taken + 1;
        }
        slot = slot + 1;
    }
    proof {
        lemma_casters_prefix(casts@, slot as int, casts@.len() as int);
        assert(slots =~= all.take(taken as int));
        lemma_jobs_prefix(all, has_map@, entity_ids@, light_size, selected, taken as int);
        lemma_shadow_casters(casts@, casts@.len() as int);
        lemma_shadow_job_fields(slots, has_map@, entity_ids@, light_size, selected, slots.len() as int);
        assert(slots.take(slots.len() as int) =~= slots);
        assert forall|i: int| 0 <= i < jobs@.len() implies casts@[(#[trigger] jobs@[i]).slot as int] && has_map@[
            jobs@[i].slot as int] && jobs@[i].offset == jobs@[i].slot * light_size && jobs@[i].show == (selected == Some(
            entity_ids@[jobs@[i].slot as int],
        )) by {
            let w = choose|w: int| 0 <= w < slots.len() && slots[w] == jobs@[i].slot;
            assert(slots[w] == all[w]);
            let sl = jobs@[i].slot;
            assert(sl < casts@.len());
            assert(sl * light_size <= casts@.len() * light_size) by (nonlinear_arith)
                requires
                    sl < casts@.len(),
            ;
        }
    }
    jobs
}

proof fn lemma_casters_prefix(casts: Seq<bool>, k: int, n: int)
    requires
        0 <= k <= n <= casts.len(),
    ensures
        shadow_casters(casts, k) == shadow_casters(casts, n).take(shadow_casters(casts, k).len() as int),
        shadow_casters(casts, k).len() <= shadow_casters(casts, n).len(),
        forall|j: int| 0 <= j < shadow_casters(casts, k).len() ==> #[trigger] shadow_casters(casts, k)[j] < k,
    decreases n - k,
{
    if k < n {
        lemma_casters_prefix(casts, k, n - 1);
        let a = shadow_casters(casts, k);
        let b = shadow_casters(casts, n - 1);
        let c = shadow_casters(casts, n);
        assert(c.take(b.len() as int) =~= b);
        assert(c.take(a.len() as int) =~= b.take(a.len() as int));
    } else {
        assert(shadow_casters(casts, n).take(shadow_casters(casts, n).len() as int) =~= shadow_casters(casts, n));
    }
    lemma_casters_below(casts, k);
}

proof fn lemma_casters_below(casts: Seq<bool>, k: int)
    requires
        0 <= k <= casts.len(),
    ensures
        forall|j: int| 0 <= j < shadow_casters(casts, k).len() ==> #[trigger] shadow_casters(casts, k)[j] < k,
    decreases k,
{
    if k > 0 {
        lemma_casters_below(casts, k - 1);
        let prev = shadow_casters(casts, k - 1);
        if casts[k - 1] {
            assert forall|j: int| 0 <= j < prev.push((k - 1) as usize).len() implies #[trigger] prev.push(
                (k - 1) as usize,
            )[j] < k by {
                if j < prev.len() {
                    assert(prev.push((k - 1) as usize)[j] == prev[j]);
                }
            }
        }
    }
}

proof fn lemma_jobs_prefix(
    slots: Seq<usize>,
    has_map: Seq<bool>,
    entity_ids: Seq<u64>,
    light_size: u64,
    selected: Option<u64>,
    k: int,
)
    requires
        0 <= k <= slots.len(),
    ensures
        shadow_jobs_of(slots, has_map, entity_ids, light_size, selected, k) == shadow_jobs_of(
            slots.take(k),
            has_map,
            entity_ids,
            light_size,
            selected,
            k,
        ),
    decreases k,
{
    if k > 0 {
        lemma_jobs_prefix(slots, has_map, entity_ids, light_size, selected, k - 1);
        lemma_jobs_prefix(slots.take(k), has_map, entity_ids, light_size, selected, k - 1);
        assert(slots.take(k).take(k - 1) =~= slots.take(k - 1));
    }
}

} // verus!
