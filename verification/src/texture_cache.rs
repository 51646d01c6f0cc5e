//! The GPU copies of texture assets: one per asset id, created on first use,
//! dropped when the asset goes, with the count and bytes they take.
use vstd::prelude::*;

use crate::assets::TextureId;

verus! {

/// A texture on the GPU, for one asset, with its size in bytes.
pub struct CachedTexture<T> {
    pub id: TextureId,
    pub texture: T,
    pub size: usize,
}

/// How many GPU resources a cache holds and how many bytes they take.
#[derive(Clone, Copy, Debug, PartialEq, Eq, Structural)]
pub struct GpuResourceStats {
    pub count: usize,
    pub bytes: u128,
}

/// The GPU textures of the texture assets.
pub struct GpuTextureCache<T> {
    pub entries: Vec<CachedTexture<T>>,
    pub stats: GpuResourceStats,
}

/// The ids of the entries, in order.
pub open spec fn entry_ids<T>(entries: Seq<CachedTexture<T>>) -> Seq<TextureId> {
    entries.map_values(|e: CachedTexture<T>| e.id)
}

/// The bytes the entries take together.
pub open spec fn total_size<T>(entries: Seq<CachedTexture<T>>) -> nat
    decreases entries.len(),
{
    if entries.len() == 0 {
        0
    } else {
        total_size(entries.drop_last()) + entries.last().size as nat
    }
}

proof fn lemma_total_size_bound<T>(entries: Seq<CachedTexture<T>>)
    ensures
        total_size(entries) <= entries.len() * (usize::MAX as nat),
    decreases entries.len(),
{
    if entries.len() > 0 {
        lemma_total_size_bound(entries.drop_last());
        assert((entries.len() - 1) * (usize::MAX as nat) + usize::MAX as nat == entries.len() * (usize::MAX as nat))
            by (nonlinear_arith);
    }
}

proof fn lemma_total_size_push<T>(entries: Seq<CachedTexture<T>>, e: CachedTexture<T>)
    ensures
        total_size(entries.push(e)) == total_size(entries) + e.size,
{
    assert(entries.push(e).drop_last() =~= entries);
}

impl<T> GpuTextureCache<T> {
    /// The cache holds one entry per id, and its statistics count its entries
    /// and add up their sizes.
    pub open spec fn wf(&self) -> bool {
        &&& forall|a: int, b: int|
            0 <= a < b < self.entries@.len() ==> self.entries@[a].id != self.entries@[b].id
        &&& self.stats.count == self.entries@.len()
        &&& self.stats.bytes == total_size(self.entries@)
    }

    /// An empty cache.
    pub fn new() -> (c: Self)
        ensures
            c.wf(),
            c.entries@.len() == 0,
            c.stats == (GpuResourceStats { count: 0, bytes: 0 }),
    {
        GpuTextureCache { entries: Vec::new(), stats: GpuResourceStats { count: 0, bytes: 0 } }
    }

    /// The statistics of the cache.
    pub fn get_stats(&self) -> (s: GpuResourceStats)
        ensures
            s == self.stats,
    {
        self.stats
    }

    /// The position of the texture of `id`, if the cache holds one.
    pub fn position(&self, id: TextureId) -> (r: Option<usize>)
        ensures
            match r {
                Some(k) => k < self.entries@.len() && self.entries@[k as int].id == id,
                None => !entry_ids(self.entries@).contains(id),
            },
    {
        let mut k: usize = 0;
        while k < self.entries.len()
            invariant
                k <= self.entries@.len(),
                forall|j: int| 0 <= j < k ==> self.entries@[j].id != id,
            decreases self.entries@.len() - k,
        {
            if self.entries[k].id == id {
                return Some(k);
            }
            k = k + 1;
        }
        proof {
            assert forall|j: int| 0 <= j < entry_ids(self.entries@).len() implies entry_ids(self.entries@)[j] != id by {
                assert(entry_ids(self.entries@)[j] == self.entries@[j].id);
            }
        }
        None
    }

    /// The texture of `id`, if the cache holds one.
    pub fn get(&self, id: TextureId) -> (r: Option<&T>)
        ensures
            match r {
                Some(t) => exists|k: int|
                    0 <= k < self.entries@.len() && self.entries@[k].id == id && *t == #[trigger] self.entries@[k].texture,
                None => !entry_ids(self.entries@).contains(id),
            },
    {
        match self.position(id) {
            Some(k) => Some(&self.entries[k].texture),
            None => None,
        }
    }

    /// Whether the cache holds a texture for `id`.
    pub fn contains_key(&self, id: TextureId) -> (r: bool)
        ensures
            r == entry_ids(self.entries@).contains(id),
    {
        proof {
            if entry_ids(self.entries@).contains(id) {
                let j = choose|j: int| 0 <= j < entry_ids(self.entries@).len() && entry_ids(self.entries@)[j] == id;
                assert(self.entries@[j].id == id);
            }
        }
        let r = self.position(id);
        proof {
            match r {
                Some(k) => {
                    assert(entry_ids(self.entries@)[k as int] == id);
                },
                None => {},
            }
        }
        r.is_some()
    }

    /// The texture of `id`, made by `create` (with its size) when the cache
    /// holds none; a texture already held is kept. Returns its position.
    fn insert_with<F: FnOnce() -> (T, usize)>(&mut self, id: TextureId, create: F) -> (k: usize)
        requires
            old(self).wf(),
            call_requires(create, ()),
        ensures
            final(self).wf(),
            k < final(self).entries@.len(),
            final(self).entries@[k as int].id == id,
            entry_ids(old(self).entries@).contains(id) ==> final(self).entries@ == old(self).entries@
                && final(self).stats == old(self).stats,
            !entry_ids(old(self).entries@).contains(id) ==> exists|t: T, size: usize|
                {
                    &&& call_ensures(create, (), (t, size))
                    &&& final(self).entries@ == old(self).entries@.push(CachedTexture { id, texture: t, size })
                    &&& final(self).stats == (GpuResourceStats {
                        count: (old(self).stats.count + 1) as usize,
                        bytes: (old(self).stats.bytes + size) as u128,
                    })
                },
    {
        match self.position(id) {
            Some(k) => {
                proof {
                    assert(entry_ids(self.entries@)[k as int] == id);
                }
                k
            },
            None => {
                let made = create();
                let ghost made_spec = made;
                let (texture, size) = made;
                self.push_new(id, texture, size);
                proof {
                    assert(call_ensures(create, (), (made_spec.0, made_spec.1)));
                }
                self.entries.len() - 1
            },
        }
    }

    /// Adds the texture of `id`, which the cache does not hold yet.
    fn push_new(&mut self, id: TextureId, texture: T, size: usize)
        requires
            old(self).wf(),
            !entry_ids(old(self).entries@).contains(id),
        ensures
            final(self).wf(),
            final(self).entries@ == old(self).entries@.push(CachedTexture { id, texture, size }),
            final(self).stats == (GpuResourceStats {
                count: (old(self).stats.count + 1) as usize,
                bytes: (old(self).stats.bytes + size) as u128,
            }),
    {
        proof {
            lemma_total_size_bound(self.entries@);
            assert(self.entries@.len() == self.entries.len());
            let n = self.entries@.len();
            assert(n * (usize::MAX as nat) + usize::MAX as nat <= u128::MAX) by (nonlinear_arith)
                requires
                    n <= usize::MAX,
                    usize::MAX <= u64::MAX,
            ;
            lemma_total_size_push(self.entries@, CachedTexture { id, texture, size });
        }
        let ghost old_entries = self.entries@;
        self.entries.push(CachedTexture { id, texture, size });
        self.stats = GpuResourceStats { count: self.entries.len(), bytes: self.stats.bytes + size as u128 };
        proof {
            assert forall|a: int, b: int|
                0 <= a < b < self.entries@.len() implies self.entries@[a].id != self.entries@[b].id by {
                if b == old_entries.len() {
                    assert(entry_ids(old_entries)[a] == old_entries[a].id);
                }
            }
        }
    }

    /// The texture of `id`, the white fallback made by `fallback` when the
    /// cache holds none for it yet.
    pub fn get_or_fallback<F: FnOnce() -> (T, usize)>(&mut self, id: TextureId, fallback: F) -> (k: usize)
        requires
            old(self).wf(),
            call_requires(fallback, ()),
        ensures
            final(self).wf(),
            k < final(self).entries@.len(),
            final(self).entries@[k as int].id == id,
            entry_ids(old(self).entries@).contains(id) ==> final(self).entries@ == old(self).entries@
                && final(self).stats == old(self).stats,
            !entry_ids(old(self).entries@).contains(id) ==> exists|t: T, size: usize|
                {
                    &&& call_ensures(fallback, (), (t, size))
                    &&& final(self).entries@ == old(self).entries@.push(CachedTexture { id, texture: t, size })
                    &&& final(self).stats == (GpuResourceStats {
                        count: (old(self).stats.count + 1) as usize,
                        bytes: (old(self).stats.bytes + size) as u128,
                    })
                },
    {
        self.insert_with(id, fallback)
    }

    /// The texture of `id`, uploaded by `upload` when the cache holds none for
    /// it yet; a texture already held is kept.
    pub fn create_from_cpu<F: FnOnce() -> (T, usize)>(&mut self, id: TextureId, upload: F) -> (k: usize)
        requires
            old(self).wf(),
            call_requires(upload, ()),
        ensures
            final(self).wf(),
            k < final(self).entries@.len(),
            final(self).entries@[k as int].id == id,
            entry_ids(old(self).entries@).contains(id) ==> final(self).entries@ == old(self).entries@
                && final(self).stats == old(self).stats,
            !entry_ids(old(self).entries@).contains(id) ==> exists|t: T, size: usize|
                {
                    &&& call_ensures(upload, (), (t, size))
                    &&& final(self).entries@ == old(self).entries@.push(CachedTexture { id, texture: t, size })
                    &&& final(self).stats == (GpuResourceStats {
                        count: (old(self).stats.count + 1) as usize,
                        bytes: (old(self).stats.bytes + size) as u128,
                    })
                },
    {
        self.insert_with(id, upload)
    }
}

/// The ids a cache holding `ids` holds after uploading the drained textures
/// `dirty` in turn: each whose asset is `loaded` and which it does not hold yet
/// is added.
pub open spec fn uploaded_ids(ids: Seq<TextureId>, dirty: Seq<TextureId>, loaded: Seq<TextureId>) -> Seq<TextureId>
    decreases dirty.len(),
{
    if dirty.len() == 0 {
        ids
    } else {
        let prev = uploaded_ids(ids, dirty.drop_last(), loaded);
        let x = dirty.last();
        if loaded.contains(x) && !prev.contains(x) {
            prev.push(x)
        } else {
            prev
        }
    }
}

/// Uploading adds exactly the drained textures whose asset is loaded: an id is
/// held afterwards exactly when it was held before, or it was drained and its
/// asset is loaded; the ids held before keep their places, and no id is held
/// twice.
pub proof fn lemma_uploaded_ids(ids: Seq<TextureId>, dirty: Seq<TextureId>, loaded: Seq<TextureId>)
    requires
        forall|a: int, b: int| 0 <= a < b < ids.len() ==> ids[a] != ids[b],
    ensures
        forall|x: TextureId|
            #[trigger] uploaded_ids(ids, dirty, loaded).contains(x) <==> ids.contains(x) || (dirty.contains(x)
                && loaded.contains(x)),
        uploaded_ids(ids, dirty, loaded).len() >= ids.len(),
        uploaded_ids(ids, dirty, loaded).take(ids.len() as int) == ids,
        forall|a: int, b: int|
            0 <= a < b < uploaded_ids(ids, dirty, loaded).len() ==> uploaded_ids(ids, dirty, loaded)[a]
                != uploaded_ids(ids, dirty, loaded)[b],
    decreases dirty.len(),
{
    if dirty.len() == 0 {
        assert(ids.take(ids.len() as int) =~= ids);
    } else {
        let rest = dirty.drop_last();
        let x = dirty.last();
        lemma_uploaded_ids(ids, rest, loaded);
        let prev = uploaded_ids(ids, rest, loaded);
        assert forall|y: TextureId| dirty.contains(y) <==> rest.contains(y) || y == x by {
            if dirty.contains(y) {
                let w = choose|w: int| 0 <= w < dirty.len() && dirty[w] == y;
                if w < dirty.len() - 1 {
                    assert(rest[w] == y);
                }
            }
            if rest.contains(y) {
                let w = choose|w: int| 0 <= w < rest.len() && rest[w] == y;
                assert(dirty[w] == y);
            }
            if y == x {
                assert(dirty[dirty.len() - 1] == y);
            }
        }
        if loaded.contains(x) && !prev.contains(x) {
            let cur = prev.push(x);
            assert forall|y: TextureId| cur.contains(y) <==> prev.contains(y) || y == x by {
                if cur.contains(y) {
                    let w = choose|w: int| 0 <= w < cur.len() && cur[w] == y;
                    if w < prev.len() {
                        assert(prev[w] == y);
                    }
                }
                if prev.contains(y) {
                    let w = choose|w: int| 0 <= w < prev.len() && prev[w] == y;
                    assert(cur[w] == y);
                }
                if y == x {
                    assert(cur[prev.len() as int] == y);
                }
            }
            assert(cur.take(ids.len() as int) =~= prev.take(ids.len() as int));
            assert forall|a: int, b: int| 0 <= a < b < cur.len() implies cur[a] != cur[b] by {
                if b == prev.len() {
                    assert(cur[a] == prev[a]);
                    assert(prev.contains(prev[a]));
                }
            }
        }
    }
}

impl<T> GpuTextureCache<T> {
    /// Uploads the drained textures: for each, in turn, whose asset is still
    /// `loaded`, the texture `upload` makes of its texels, unless the cache
    /// already holds one for that id. The textures already held stay as they
    /// are.
    pub fn upload_textures<U, F: Fn(U) -> (T, usize)>(
        &mut self,
        dirty: Vec<(TextureId, U)>,
        loaded: &[TextureId],
        upload: F,
    )
        requires
            old(self).wf(),
            forall|u: U| #[trigger] call_requires(upload, (u,)),
        ensures
            final(self).wf(),
            entry_ids(final(self).entries@) == uploaded_ids(
                entry_ids(old(self).entries@),
                dirty@.map_values(|d: (TextureId, U)| d.0),
                loaded@,
            ),
            forall|x: TextureId|
                #[trigger] entry_ids(final(self).entries@).contains(x) <==> entry_ids(old(self).entries@).contains(x) || (
                dirty@.map_values(|d: (TextureId, U)| d.0).contains(x) && loaded@.contains(x)),
            forall|k: int| 0 <= k < old(self).entries@.len() ==> #[trigger] final(self).entries@[k] == old(self).entries@[k],
            forall|k: int|
                old(self).entries@.len() <= k < final(self).entries@.len() ==> exists|j: int|
                    0 <= j < dirty@.len() && dirty@[j].0 == (#[trigger] final(self).entries@[k]).id && call_ensures(
                        upload,
                        (dirty@[j].1,),
                        (final(self).entries@[k].texture, final(self).entries@[k].size),
                    ),
    {
        let ghost all = dirty@;
        let ghost old_entries = self.entries@;
        let ghost ids = all.map_values(|d: (TextureId, U)| d.0);
        proof {
            let held = entry_ids(old_entries);
            assert forall|a: int, b: int| 0 <= a < b < held.len() implies held[a] != held[b] by {
                assert(held[a] == old_entries[a].id && held[b] == old_entries[b].id);
            }
            lemma_uploaded_ids(held, ids, loaded@);
        }
        let mut rest = dirty;
        let ghost n = all.len();
        let mut j: usize = 0;
        proof {
            assert(rest@.len() == rest.len());
            assert(ids.take(0) =~= Seq::<TextureId>::empty());
        }
        while rest.len() > 0
            invariant
                self.wf(),
                n == all.len(),
                n <= usize::MAX,
                ids == all.map_values(|d: (TextureId, U)| d.0),
                j + rest@.len() == n,
                rest@ == all.subrange(j as int, n as int),
                forall|u: U| #[trigger] call_requires(upload, (u,)),
                entry_ids(self.entries@) == uploaded_ids(entry_ids(old_entries), ids.take(j as int), loaded@),
                old_entries.len() <= self.entries@.len(),
                forall|k: int| 0 <= k < old_entries.len() ==> #[trigger] self.entries@[k] == old_entries[k],
                forall|k: int|
                    old_entries.len() <= k < self.entries@.len() ==> exists|jj: int|
                        0 <= jj < n && all[jj].0 == (#[trigger] self.entries@[k]).id && call_ensures(
                            upload,
                            (all[jj].1,),
                            (self.entries@[k].texture, self.entries@[k].size),
                        ),
            decreases rest@.len(),
        {
            let (id, texels) = rest.remove(0);
            let ghost before = self.entries@;
            proof {
                assert(all[j as int] == (id, texels));
                assert(rest@ =~= all.subrange(j + 1, n as int));
                assert(ids.take(j + 1).drop_last() =~= ids.take(j as int));
                assert(ids.take(j + 1).last() == id);
            }
            if contains_texture(loaded, id) && !self.contains_key(id) {
                let made = upload(texels);
                let ghost made_spec = made;
                let (texture, size) = made;
                self.push_new(id, texture, size);
                proof {
                    assert(entry_ids(self.entries@) =~= entry_ids(before).push(id));
                    let k = self.entries@.len() - 1;
                    assert(all[j as int].0 == self.entries@[k].id);
                    assert(call_ensures(upload, (all[j as int].1,), (self.entries@[k].texture, self.entries@[k].size)));
                    assert forall|kk: int|
                        old_entries.len() <= kk < self.entries@.len() implies exists|jj: int|
                            0 <= jj < n && all[jj].0 == (#[trigger] self.entries@[kk]).id && call_ensures(
                                upload,
                                (all[jj].1,),
                                (self.entries@[kk].texture, self.entries@[kk].size),
                            ) by {
                        if kk < k {
                            assert(self.entries@[kk] == before[kk]);
                        }
                    }
                }
            }
            j = j + 1;
        }
        proof {
            assert(ids.take(n as int) =~= ids);
        }
    }
}

/// The entries among the first `k` whose asset is still loaded.
pub open spec fn kept_entries<T>(entries: Seq<CachedTexture<T>>, assets: Seq<TextureId>, k: int) -> Seq<CachedTexture<T>>
    decreases k,
{
    if k <= 0 {
        Seq::empty()
    } else if assets.contains(entries[k - 1].id) {
        kept_entries(entries, assets, k - 1).push(entries[k - 1])
    } else {
        kept_entries(entries, assets, k - 1)
    }
}

proof fn lemma_kept_distinct<T>(entries: Seq<CachedTexture<T>>, assets: Seq<TextureId>, k: int)
    requires
        0 <= k <= entries.len(),
        forall|a: int, b: int| 0 <= a < b < entries.len() ==> entries[a].id != entries[b].id,
    ensures
        forall|i: int|
            0 <= i < kept_entries(entries, assets, k).len() ==> exists|j: int|
                0 <= j < k && #[trigger] kept_entries(entries, assets, k)[i] == entries[j],
        forall|a: int, b: int|
            0 <= a < b < kept_entries(entries, assets, k).len() ==> kept_entries(entries, assets, k)[a].id
                != kept_entries(entries, assets, k)[b].id,
    decreases k,
{
    if k > 0 {
        lemma_kept_distinct(entries, assets, k - 1);
        let prev = kept_entries(entries, assets, k - 1);
        if assets.contains(entries[k - 1].id) {
            let cur = prev.push(entries[k - 1]);
            assert forall|i: int| 0 <= i < cur.len() implies exists|j: int| 0 <= j < k && #[trigger] cur[i] == entries[j] by {
                if i < prev.len() {
                    assert(cur[i] == prev[i]);
                } else {
                    assert(cur[i] == entries[k - 1]);
                }
            }
            assert forall|a: int, b: int| 0 <= a < b < cur.len() implies cur[a].id != cur[b].id by {
                if b == prev.len() {
                    assert(cur[a] == prev[a]);
                    let j = choose|j: int| 0 <= j < k - 1 && #[trigger] prev[a] == entries[j];
                } else {
                    assert(cur[a] == prev[a] && cur[b] == prev[b]);
                }
            }
        }
    }
}

/// Retaining keeps exactly the entries whose asset is still loaded: each kept
/// entry is one of the entries before, with a loaded asset, and each entry
/// with a loaded asset is kept.
pub proof fn lemma_kept_entries<T>(entries: Seq<CachedTexture<T>>, assets: Seq<TextureId>, k: int)
    requires
        0 <= k <= entries.len(),
    ensures
        forall|i: int|
            0 <= i < kept_entries(entries, assets, k).len() ==> assets.contains(
                (#[trigger] kept_entries(entries, assets, k)[i]).id,
            ) && entries.take(k).contains(kept_entries(entries, assets, k)[i]),
        forall|j: int|
            0 <= j < k && assets.contains(#[trigger] entries[j].id) ==> kept_entries(entries, assets, k).contains(
                entries[j],
            ),
    decreases k,
{
    if k > 0 {
        lemma_kept_entries(entries, assets, k - 1);
        let prev = kept_entries(entries, assets, k - 1);
        let cur = kept_entries(entries, assets, k);
        assert forall|i: int| 0 <= i < cur.len() implies assets.contains((#[trigger] cur[i]).id) && entries.take(
            k,
        ).contains(cur[i]) by {
            if i < prev.len() {
                assert(cur[i] == prev[i]);
                let before = entries.take(k - 1);
                let w = choose|w: int| 0 <= w < before.len() && #[trigger] before[w] == prev[i];
                assert(entries.take(k)[w] == cur[i]);
            } else {
                assert(cur[i] == entries[k - 1]);
                assert(entries.take(k)[k - 1] == cur[i]);
            }
        }
        assert forall|j: int| 0 <= j < k && assets.contains(#[trigger] entries[j].id) implies cur.contains(entries[j]) by {
            if j < k - 1 {
                let w = choose|w: int| 0 <= w < prev.len() && prev[w] == entries[j];
                assert(cur[w] == entries[j]);
            } else {
                assert(cur[prev.len() as int] == entries[j]);
            }
        }
    }
}

impl<T> GpuTextureCache<T> {
    /// Drops the textures whose asset is no longer loaded, with their bytes;
    /// the others stay, in order.
    pub fn retain(&mut self, assets: &[TextureId])
        requires
            old(self).wf(),
        ensures
            final(self).wf(),
            final(self).entries@ == kept_entries(old(self).entries@, assets@, old(self).entries@.len() as int),
            forall|i: int|
                0 <= i < final(self).entries@.len() ==> assets@.contains((#[trigger] final(self).entries@[i]).id)
                    && old(self).entries@.contains(final(self).entries@[i]),
            forall|j: int|
                0 <= j < old(self).entries@.len() && assets@.contains(#[trigger] old(self).entries@[j].id)
                    ==> final(self).entries@.contains(old(self).entries@[j]),
    {
        proof {
            lemma_kept_entries(self.entries@, assets@, self.entries@.len() as int);
            assert(self.entries@.take(self.entries@.len() as int) =~= self.entries@);
        }
        let ghost old_entries = self.entries@;
        let mut kept: Vec<CachedTexture<T>> = Vec::new();
        let mut bytes: u128 = 0;
        let mut rest: Vec<CachedTexture<T>> = Vec::new();
        std::mem::swap(&mut rest, &mut self.entries);
        let ghost n = rest@.len();
        proof {
            assert(rest@.len() == rest.len());
        }
        let mut k: usize = 0;
        while rest.len() > 0
            invariant
                old_entries == old(self).entries@,
                n == old_entries.len(),
                n <= usize::MAX,
                k + rest@.len() == n,
                rest@ == old_entries.subrange(k as int, n as int),
                kept@ == kept_entries(old_entries, assets@, k as int),
                bytes == total_size(kept@),
                kept@.len() <= k,
            decreases rest@.len(),
        {
            let e = rest.remove(0);
            proof {
                assert(e == old_entries[k as int]);
                assert(rest@ =~= old_entries.subrange(k + 1, n as int));
                lemma_total_size_bound(kept@);
                assert(kept@.len() <= usize::MAX) by {
                    assert(kept@.len() == kept.len());
                }
                assert(kept@.len() * (usize::MAX as nat) + usize::MAX as nat <= u128::MAX) by (nonlinear_arith)
                    requires
                        kept@.len() <= usize::MAX,
                        usize::MAX <= u64::MAX,
                ;
            }
            let keep = contains_texture(assets, e.id);
            if keep {
                proof {
                    lemma_total_size_push(kept@, e);
                }
                bytes = bytes + e.size as u128;
                kept.push(e);
            }
            k = k + 1;
        }
        proof {
            lemma_kept_distinct(old_entries, assets@, n as int);
            assert(kept@.len() == kept.len());
        }
        self.stats = GpuResourceStats { count: kept.len(), bytes };
        self.entries = kept;
    }
}

/// Whether `ids` contains `id`.
fn contains_texture(ids: &[TextureId], id: TextureId) -> (r: bool)
    ensures
        r == ids@.contains(id),
{
    let mut k: usize = 0;
    while k < ids.len()
        invariant
            k <= ids@.len(),
            forall|j: int| 0 <= j < k ==> ids@[j] != id,
        decreases ids@.len() - k,
    {
        if ids[k] == id {
            return true;
        }
        k = k + 1;
    }
    false
}

} // verus!
