//! Region-keyed caches of summaries, held in an LRU cache of the `lru_cache` crate.
use crate::folder::Folder;
use crate::morton::{is_valid_key, pow8, prefix, Morton};
use crate::region::MortonRegion;
use lru_cache::LruCache;
use std::hash::{BuildHasher, Hash};
use vstd::prelude::*;

verus! {

/// lru_cache's least-recently-used cache, opaque here.
#[verifier::external_type_specification]
#[verifier::external_body]
#[verifier::reject_recursive_types(K)]
#[verifier::reject_recursive_types(V)]
#[verifier::reject_recursive_types(S)]
pub struct ExLruCache<K: Eq + Hash, V, S: BuildHasher>(LruCache<K, V, S>);

/// A bounded cache of region summaries, an `LruCache` of the `lru_cache` crate keyed by region.
/// Its contents are modelled as a map from regions, as plain values, to summaries; a key's
/// derived `Hash` and `Eq` follow its fields, so the cache agrees with the model.
#[verifier::reject_recursive_types(M)]
#[verifier::reject_recursive_types(S)]
pub struct RegionCache<M: Morton, S> {
    cache: LruCache<MortonRegion<M>, S>,
    model: Ghost<Map<(nat, nat), S>>,
    cap: Ghost<nat>,
}

impl<M: Morton, S> RegionCache<M, S> {
    /// The cached summaries, by region.
    pub closed spec fn view(&self) -> Map<(nat, nat), S> {
        self.model@
    }

    /// The most entries the cache keeps.
    pub closed spec fn capacity(&self) -> nat {
        self.cap@
    }

    /// Relies on lru_cache's `LruCache::new`: an empty cache that keeps at most `capacity`
    /// entries.
    #[verifier::external_body]
    pub fn new(capacity: usize) -> (r: RegionCache<M, S>)
        ensures
            r.view() == empty_model::<S>(),
            r.capacity() == capacity,
    {
        RegionCache { cache: LruCache::new(capacity), model: Ghost(Map::empty()), cap: Ghost(capacity as nat) }
    }

    /// Relies on lru_cache's `LruCache::get_mut`, which finds the entry of a key (and marks it
    /// as recently used); the summary found is copied by `folder`.
    #[verifier::external_body]
    pub fn get<T, F: Folder<T, M, Sum = S>>(&mut self, region: &MortonRegion<M>, folder: &F) -> (r:
        Option<S>)
        ensures
            final(self)@ == old(self)@,
            final(self).capacity() == old(self).capacity(),
            match r {
                Option::Some(v) => old(self)@.contains_key(region@) && v == old(self)@[region@],
                Option::None => !old(self)@.contains_key(region@),
            },
    {
        self.cache.get_mut(region).map(|v| folder.copy_sum(v))
    }

    /// Relies on lru_cache's `LruCache::contains_key`, which says whether a key has an entry.
    #[verifier::external_body]
    pub fn contains(&mut self, region: &MortonRegion<M>) -> (r: bool)
        ensures
            final(self)@ == old(self)@,
            final(self).capacity() == old(self).capacity(),
            r == old(self)@.contains_key(region@),
    {
        self.cache.contains_key(region)
    }

    /// Relies on lru_cache's `LruCache::insert`, which stores the entry and then, over capacity,
    /// evicts the least recently used one: no entry is added but `region`'s, and `region`'s stays
    /// unless the capacity is zero.
    #[verifier::external_body]
    pub fn insert(&mut self, region: MortonRegion<M>, value: S)
        ensures
            final(self).capacity() == old(self).capacity(),
            final(self)@.submap_of(old(self)@.insert(region@, value)),
            old(self).capacity() >= 1 ==> final(self)@.contains_key(region@) && final(self)@[region@]
                == value,
    {
        self.cache.insert(region, value);
    }

    /// Relies on lru_cache's `LruCache::remove`, which drops the entry of a key if there is one.
    #[verifier::external_body]
    pub fn remove(&mut self, region: &MortonRegion<M>)
        ensures
            final(self).capacity() == old(self).capacity(),
            final(self)@ == old(self)@.remove(region@),
    {
        self.cache.remove(region);
    }
}

/// A model with no entry.
pub open spec fn empty_model<S>() -> Map<(nat, nat), S> {
    Map::empty()
}

/// Whether the region (key value, level) `q` holds `morton`.
pub open spec fn holds<M: Morton>(q: (nat, nat), morton: M) -> bool {
    &&& q.1 <= M::spec_dim_bits()
    &&& q.0 == prefix(morton.value(), M::spec_dim_bits(), q.1) * pow8(
        (M::spec_dim_bits() - q.1) as nat,
    )
}

/// The regions that hold `morton`, one per level, from the root down to its own cell.
pub fn morton_levels<M: Morton>(morton: M) -> (r: Vec<MortonRegion<M>>)
    requires
        is_valid_key(morton),
    ensures
        r.len() == M::spec_dim_bits() + 1,
        forall|l: int|
            0 <= l < r.len() ==> (#[trigger] r@[l]).wf() && r@[l].level == l && r@[l].path()
                == prefix(morton.value(), M::spec_dim_bits(), l as nat),
{
    let dim = M::dim_bits();
    let mut out: Vec<MortonRegion<M>> = Vec::new();
    let mut region = MortonRegion::base();
    proof {
        M::lemma_model(morton, morton);
        vstd::arithmetic::power2::lemma_pow2_pos(3 * M::spec_dim_bits());
        assert(morton.value() / crate::morton::pow8(M::spec_dim_bits()) == 0) by (nonlinear_arith)
            requires
                morton.value() < crate::morton::pow8(M::spec_dim_bits()),
        ;
        assert(M::spec_dim_bits() - 0 == M::spec_dim_bits());
    }
    loop
        invariant
            dim == M::spec_dim_bits(),
            dim < 128,
            region.wf(),
            region.level == out.len(),
            out.len() <= dim,
            region.path() == prefix(morton.value(), dim as nat, region.level as nat),
            forall|l: int|
                0 <= l < out.len() ==> (#[trigger] out@[l]).wf() && out@[l].level == l
                    && out@[l].path() == prefix(morton.value(), dim as nat, l as nat),
        decreases dim - out.len(),
    {
        out.push(region);
        if region.level == dim {
            return out;
        }
        proof {
            crate::morton::lemma_prefix_step(morton.value(), dim as nat, region.level as nat);
        }
        let d = morton.get_level(region.level);
        region = region.enter(d);
    }
}

/// Drops from `cache` the root region and every region that holds `morton`: the summaries that a
/// change at `morton` makes stale. Every other entry stays.
pub fn invalidate_region_cache<S, M: Morton>(morton: M, cache: &mut RegionCache<M, S>)
    requires
        is_valid_key(morton),
    ensures
        forall|q: (nat, nat)| #[trigger]
            final(cache)@.contains_key(q) == (old(cache)@.contains_key(q) && !holds(q, morton)),
        forall|q: (nat, nat)| #[trigger] final(cache)@.contains_key(q) ==> final(cache)@[q] == old(
            cache,
        )@[q],
        final(cache).capacity() == old(cache).capacity(),
{
    let ghost start = cache@;
    let base = MortonRegion::base();
    cache.remove(&base);
    let levels = morton_levels(morton);
    let mut i: usize = 0;
    while i < levels.len()
        invariant
            i <= levels.len(),
            levels.len() == M::spec_dim_bits() + 1,
            forall|l: int|
                0 <= l < levels.len() ==> (#[trigger] levels@[l]).wf() && levels@[l].level == l
                    && levels@[l].path() == prefix(morton.value(), M::spec_dim_bits(), l as nat),
            cache.capacity() == old(cache).capacity(),
            forall|q: (nat, nat)| #[trigger]
                cache@.contains_key(q) == (start.contains_key(q) && q != (0nat, 0nat) && !(q.1 < i
                    && holds(q, morton))),
            forall|q: (nat, nat)| #[trigger] cache@.contains_key(q) ==> cache@[q] == start[q],
        decreases levels.len() - i,
    {
        proof {
            levels@[i as int].lemma_value();
        }
        cache.remove(&levels[i]);
        proof {
            assert forall|q: (nat, nat)| #[trigger]
                cache@.contains_key(q) == (start.contains_key(q) && q != (0nat, 0nat) && !(q.1 < i + 1
                    && holds(q, morton))) by {
                if q.1 == i && holds(q, morton) {
                    assert(q == levels@[i as int]@);
                }
            }
        }
        i = i + 1;
    }
    proof {
        assert(holds((0nat, 0nat), morton)) by {
            M::lemma_model(morton, morton);
            vstd::arithmetic::power2::lemma_pow2_pos(3 * M::spec_dim_bits());
            assert(morton.value() / pow8(M::spec_dim_bits()) == 0) by (nonlinear_arith)
                requires
                    morton.value() < pow8(M::spec_dim_bits()),
            ;
            assert(M::spec_dim_bits() - 0 == M::spec_dim_bits());
            assert(prefix(morton.value(), M::spec_dim_bits(), 0) == 0);
            assert(0 * pow8(M::spec_dim_bits()) == 0);
        }
    }
}

} // verus!
