//! Keeping a GPU-side cache, or the UI's texture registry, in step with the
//! set of ids it mirrors: which entries to drop and which to create.
use vstd::prelude::*;

verus! {

/// What to do to a cache holding `current` ids so that it holds the `target` ids.
pub struct SyncPlan {
    /// Cached ids that are no longer wanted, in cache order.
    pub remove: Vec<u64>,
    /// Wanted ids that are not cached yet, each once, in target order.
    pub create: Vec<u64>,
}

/// The ids among the first `k` of `current` that `target` lacks.
pub open spec fn stale_ids(current: Seq<u64>, target: Seq<u64>, k: int) -> Seq<u64>
    decreases k,
{
    if k <= 0 {
        Seq::empty()
    } else {
        let prev = stale_ids(current, target, k - 1);
        if target.contains(current[k - 1]) {
            prev
        } else {
            prev.push(current[k - 1])
        }
    }
}

/// The ids among the first `k` of `target` that `current` lacks, each once.
pub open spec fn missing_ids(current: Seq<u64>, target: Seq<u64>, k: int) -> Seq<u64>
    decreases k,
{
    if k <= 0 {
        Seq::empty()
    } else {
        let prev = missing_ids(current, target, k - 1);
        let t = target[k - 1];
        if current.contains(t) || prev.contains(t) {
            prev
        } else {
            prev.push(t)
        }
    }
}

proof fn lemma_stale_contains(current: Seq<u64>, target: Seq<u64>, k: int, x: u64)
    requires
        0 <= k <= current.len(),
    ensures
        stale_ids(current, target, k).contains(x) <==> (current.take(k).contains(x) && !target.contains(x)),
    decreases k,
{
    if k > 0 {
        lemma_stale_contains(current, target, k - 1, x);
        let prev = stale_ids(current, target, k - 1);
        assert(current.take(k) =~= current.take(k - 1).push(current[k - 1]));
        if !target.contains(current[k - 1]) {
            assert(prev.push(current[k - 1]).last() == current[k - 1]);
            if prev.contains(x) {
                let i = choose|i: int| #![trigger prev[i]] 0 <= i < prev.len() && prev[i] == x;
                assert(prev.push(current[k - 1])[i] == x);
            }
            let q = prev.push(current[k - 1]);
            if q.contains(x) && x != current[k - 1] {
                let i = choose|i: int| #![trigger q[i]] 0 <= i < q.len() && q[i] == x;
                assert(prev[i] == x);
            }
        }
        if current.take(k).contains(x) && x != current[k - 1] {
            let c = current.take(k);
            let i = choose|i: int| #![trigger c[i]] 0 <= i < c.len() && c[i] == x;
            assert(current.take(k - 1)[i] == x);
        }
        if current.take(k - 1).contains(x) {
            let c = current.take(k - 1);
            let i = choose|i: int| #![trigger c[i]] 0 <= i < c.len() && c[i] == x;
            assert(current.take(k)[i] == x);
        }
        assert(current.take(k)[k - 1] == current[k - 1]);
    } else {
        assert(current.take(0) =~= Seq::<u64>::empty());
    }
}

proof fn lemma_missing_contains(current: Seq<u64>, target: Seq<u64>, k: int, x: u64)
    requires
        0 <= k <= target.len(),
    ensures
        missing_ids(current, target, k).contains(x) <==> (target.take(k).contains(x) && !current.contains(x)),
    decreases k,
{
    if k > 0 {
        lemma_missing_contains(current, target, k - 1, x);
        let prev = missing_ids(current, target, k - 1);
        let t = target[k - 1];
        assert(target.take(k) =~= target.take(k - 1).push(t));
        if !(current.contains(t) || prev.contains(t)) {
            assert(prev.push(t).last() == t);
            if prev.contains(x) {
                let i = choose|i: int| #![trigger prev[i]] 0 <= i < prev.len() && prev[i] == x;
                assert(prev.push(t)[i] == x);
            }
            let q = prev.push(t);
            if q.contains(x) && x != t {
                let i = choose|i: int| #![trigger q[i]] 0 <= i < q.len() && q[i] == x;
                assert(prev[i] == x);
            }
        }
        if target.take(k).contains(x) && x != t {
            let c = target.take(k);
            let i = choose|i: int| #![trigger c[i]] 0 <= i < c.len() && c[i] == x;
            assert(target.take(k - 1)[i] == x);
        }
        if target.take(k - 1).contains(x) {
            let c = target.take(k - 1);
            let i = choose|i: int| #![trigger c[i]] 0 <= i < c.len() && c[i] == x;
            assert(target.take(k)[i] == x);
        }
        assert(target.take(k)[k - 1] == t);
    } else {
        assert(target.take(0) =~= Seq::<u64>::empty());
    }
}

proof fn lemma_missing_distinct(current: Seq<u64>, target: Seq<u64>, k: int)
    requires
        0 <= k <= target.len(),
    ensures
        forall|a: int, b: int|
            0 <= a < b < missing_ids(current, target, k).len() ==> missing_ids(current, target, k)[a]
                != missing_ids(current, target, k)[b],
    decreases k,
{
    if k > 0 {
        lemma_missing_distinct(current, target, k - 1);
        let prev = missing_ids(current, target, k - 1);
        let t = target[k - 1];
        if !(current.contains(t) || prev.contains(t)) {
            assert forall|a: int, b: int| 0 <= a < b < prev.len() + 1 implies prev.push(t)[a] != prev.push(t)[b] by {
                if b == prev.len() {
                    assert(prev[a] != t);
                }
            }
        }
    }
}

/// Plans the synchronisation of a cache holding `current` ids with the
/// wanted `target` ids: drop the cached ids that are not wanted, create the
/// wanted ids that are not cached.
pub fn plan_sync(current: &[u64], target: &[u64]) -> (p: SyncPlan)
    ensures
        p.remove@ == stale_ids(current@, target@, current@.len() as int),
        p.create@ == missing_ids(current@, target@, target@.len() as int),
        forall|x: u64| #[trigger] p.remove@.contains(x) <==> (current@.contains(x) && !target@.contains(x)),
        forall|x: u64| #[trigger] p.create@.contains(x) <==> (target@.contains(x) && !current@.contains(x)),
        forall|a: int, b: int| 0 <= a < b < p.create@.len() ==> p.create@[a] != p.create@[b],
{
    let mut remove: Vec<u64> = Vec::new();
    for k in 0..current.len()
        invariant
            remove@ == stale_ids(current@, target@, k as int),
    {
        let id = current[k];
        if !contains_id(target, id) {
            remove.push(id);
        }
    }
    let mut create: Vec<u64> = Vec::new();
    for k in 0..target.len()
        invariant
            create@ == missing_ids(current@, target@, k as int),
    {
        let id = target[k];
        if !contains_id(current, id) && !contains_id(create.as_slice(), id) {
            create.push(id);
        }
    }
    proof {
        assert(current@.take(current@.len() as int) =~= current@);
        assert(target@.take(target@.len() as int) =~= target@);
        assert forall|x: u64| #[trigger] remove@.contains(x) <==> (current@.contains(x) && !target@.contains(x)) by {
            lemma_stale_contains(current@, target@, current@.len() as int, x);
        }
        assert forall|x: u64| #[trigger] create@.contains(x) <==> (target@.contains(x) && !current@.contains(x)) by {
            lemma_missing_contains(current@, target@, target@.len() as int, x);
        }
        lemma_missing_distinct(current@, target@, target@.len() as int);
    }
    SyncPlan { remove, create }
}

/// Whether `ids` contains `id`.
pub fn contains_id(ids: &[u64], id: u64) -> (r: bool)
    ensures
        r == ids@.contains(id),
{
    let mut k: usize = 0;
    while k < ids.len()
        invariant
            k <= ids@.len(),
            forall|j: int| 0 <= j < k ==> ids@[j] != id,
        decreases ids@.len() - k,
    {
        if ids[k] == id {
            return true;
        }
        k = k + 1;
    }
    false
}

/// Carrying out a synchronisation plan leaves the cache holding exactly the
/// wanted ids: an id is cached afterwards if and only if it is wanted.
pub proof fn lemma_sync_reaches_target(current: Seq<u64>, target: Seq<u64>, x: u64)
    ensures
        ((current.contains(x) && !stale_ids(current, target, current.len() as int).contains(x))
            || missing_ids(current, target, target.len() as int).contains(x)) <==> target.contains(x),
{
    lemma_stale_contains(current, target, current.len() as int, x);
    lemma_missing_contains(current, target, target.len() as int, x);
    assert(current.take(current.len() as int) =~= current);
    assert(target.take(target.len() as int) =~= target);
}

/// Whether the skybox must be rebuilt: the wanted environment texture is not
/// the one the skybox was built from.
pub fn skybox_needs_update(wanted: u64, current: u64) -> (r: bool)
    ensures
        r == (wanted != current),
{
    wanted != current
}

} // verus!
