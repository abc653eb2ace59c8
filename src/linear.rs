//! A linear (hashed) octree: a map from keys to leaves, and per level a map from regions to
//! markers.
use crate::morton::{digit, is_valid_key, lemma_prefix_step, pow8, prefix, Morton};
use crate::folder::Folder;
use crate::pointer::{insert_all, lemma_digit_of_child_path, region_pairs};
use vstd::std_specs::iter::IteratorSpec;
use crate::region::{child_region, MortonRegion};
use std::collections::HashMap;
use vstd::arithmetic::power2::{lemma2_to64, lemma_pow2_adds, lemma_pow2_pos, pow2};
use vstd::prelude::*;

verus! {

broadcast use vstd::std_specs::hash::group_hash_axioms;

/// std's mutable iterator over a hash map, opaque here.
#[verifier::external_type_specification]
#[verifier::external_body]
#[verifier::reject_recursive_types(K)]
#[verifier::reject_recursive_types(V)]
pub struct ExIterMut<'a, K: 'a, V: 'a>(std::collections::hash_map::IterMut<'a, K, V>);

/// Relies on std's `HashMap::get_mut`: the value of `k`, if present, to change in place; the
/// keys stay, and the value of `k` becomes what is written through the reference. Stated for
/// keys whose `Hash` and `Eq` agree with their value, as vstd's own map contracts are.
#[verifier::external_body]
fn map_get_mut<'a, K: std::hash::Hash + Eq, V>(m: &'a mut HashMap<K, V>, k: &K) -> (r: Option<
    &'a mut V,
>)
    requires
        vstd::std_specs::hash::obeys_key_model::<K>(),
    ensures
        r is Some <==> old(m)@.contains_key(*k),
        r matches Option::Some(v) ==> *v == old(m)@[*k] && final(m)@ == old(m)@.insert(*k, *final(v)),
        r is None ==> final(m)@ == old(m)@,
        final(m)@.dom() == old(m)@.dom(),
{
    m.get_mut(k)
}

/// Relies on std's `HashMap::iter_mut`: it visits each entry once and can change values only,
/// so the keys stay.
#[verifier::external_body]
fn map_iter_mut<'a, K, V>(m: &'a mut HashMap<K, V>) -> (r: std::collections::hash_map::IterMut<'a, K, V>)
    ensures
        final(m)@.dom() == old(m)@.dom(),
{
    m.iter_mut()
}

/// Whether `m` is the sentinel of `Morton::null`.
pub open spec fn is_null_key<M: Morton>(m: M) -> bool {
    m.value() == pow2(M::spec_bits()) - 1
}

/// The key of the region of `level` whose path is `p`.
pub open spec fn region_key<M: Morton>(p: nat, level: nat) -> M {
    M::spec_from(p * pow8((M::spec_dim_bits() - level) as nat))
}

proof fn lemma_pow8_split(a: nat, b: nat)
    ensures
        pow8(a + b) == pow8(a) * pow8(b),
        pow8(a) > 0,
{
    lemma_pow2_adds(3 * a, 3 * b);
    lemma_pow2_pos(3 * a);
}

/// The path of a valid key at `level` has `level` digits.
proof fn lemma_prefix_bound<M: Morton>(k: M, level: nat)
    requires
        is_valid_key(k),
        level <= M::spec_dim_bits(),
    ensures
        prefix(k.value(), M::spec_dim_bits(), level) < pow8(level),
{
    let d = M::spec_dim_bits();
    let q = pow8((d - level) as nat);
    lemma_pow8_split(level, (d - level) as nat);
    lemma_pow2_pos(3 * (d - level) as nat);
    assert(k.value() / q < pow8(level)) by (nonlinear_arith)
        requires
            k.value() < pow8(level) * q,
            q > 0,
    ;
}

/// The key of a region: its value, and the path read back from it.
proof fn lemma_region_key<M: Morton>(p: nat, level: nat)
    requires
        p < pow8(level),
        level <= M::spec_dim_bits(),
    ensures
        region_key::<M>(p, level).value() == p * pow8((M::spec_dim_bits() - level) as nat),
        is_valid_key(region_key::<M>(p, level)),
        prefix(region_key::<M>(p, level).value(), M::spec_dim_bits(), level) == p,
{
    let d = M::spec_dim_bits();
    let q = pow8((d - level) as nat);
    lemma_pow8_split(level, (d - level) as nat);
    lemma_pow2_pos(3 * (d - level) as nat);
    M::lemma_model(M::spec_from(0), M::spec_from(0));
    assert(p * q < pow8(level) * q) by (nonlinear_arith)
        requires
            p < pow8(level),
            q > 0,
    ;
    M::lemma_from(p * q);
    assert((p * q) / q == p) by (nonlinear_arith)
        requires
            q > 0,
    ;
}

/// Distinct paths of one level have distinct keys.
proof fn lemma_region_key_inj<M: Morton>(p1: nat, p2: nat, level: nat)
    requires
        p1 < pow8(level),
        p2 < pow8(level),
        level <= M::spec_dim_bits(),
        region_key::<M>(p1, level) == region_key::<M>(p2, level),
    ensures
        p1 == p2,
{
    lemma_region_key::<M>(p1, level);
    lemma_region_key::<M>(p2, level);
}

/// A region's key is the key of its path.
proof fn lemma_region_morton<M: Morton>(r: MortonRegion<M>)
    requires
        r.wf(),
    ensures
        r.morton == region_key::<M>(r.path(), r.level as nat),
        r.path() < pow8(r.level as nat),
{
    r.lemma_value();
    lemma_prefix_bound(r.morton, r.level as nat);
    lemma_region_key::<M>(r.path(), r.level as nat);
    M::lemma_model(r.morton, region_key::<M>(r.path(), r.level as nat));
}

/// A linear hashed octree. Lookup of a key or of a region takes constant time.
#[verifier::reject_recursive_types(T)]
#[verifier::reject_recursive_types(M)]
pub struct LinearOctree<T, M> {
    /// The leaves, by key.
    leaves: HashMap<M, T>,
    /// For each level, the regions of that level that are present, by key: the null key marks
    /// a region without leaves, another key the one leaf of the region. An absent region is
    /// internal: its children say more.
    internals: Vec<HashMap<M, M>>,
}

impl<T, M: Morton> View for LinearOctree<T, M> {
    type V = Map<M, T>;

    /// The leaves: each key with its payload.
    closed spec fn view(&self) -> Map<M, T> {
        self.leaves@
    }
}

impl<T, M: Morton> LinearOctree<T, M> {
    /// The marker of the region of key `r` at `level`, if the region is present.
    pub closed spec fn marker(&self, level: nat, r: M) -> Option<M> {
        if level < self.internals@.len() && self.internals@[level as int]@.contains_key(r) {
            Option::Some(self.internals@[level as int]@[r])
        } else {
            Option::None
        }
    }

    /// One region map per level; every leaf key is valid; every region marked with a leaf holds
    /// that leaf, which is stored.
    pub closed spec fn wf_values(&self) -> bool {
        &&& self.internals@.len() == M::spec_dim_bits() + 1
        &&& forall|k: M| #[trigger] self.leaves@.contains_key(k) ==> is_valid_key(k)
        &&& forall|level: nat, r: M|
            #![trigger self.internals@[level as int]@[r]]
            level <= M::spec_dim_bits() && self.internals@[level as int]@.contains_key(r)
                && !is_null_key(self.internals@[level as int]@[r]) ==> {
                let m = self.internals@[level as int]@[r];
                &&& self.leaves@.contains_key(m)
                &&& r.value() == prefix(m.value(), M::spec_dim_bits(), level) * pow8(
                    (M::spec_dim_bits() - level) as nat,
                )
            }
    }

    /// Whether the region of `level` with path `p` is in its level's map.
    pub closed spec fn present(&self, level: nat, p: nat) -> bool {
        self.internals@[level as int]@.contains_key(region_key::<M>(p, level))
    }

    /// Whether the region of `level` on the path of `m` is marked with `m`.
    pub closed spec fn marks(&self, level: nat, m: M) -> bool {
        let q = region_key::<M>(prefix(m.value(), M::spec_dim_bits(), level), level);
        &&& self.internals@[level as int]@.contains_key(q)
        &&& self.internals@[level as int]@[q] == m
    }

    /// At most one region on the path of `k` is present.
    pub closed spec fn once_on_path(&self, k: M) -> bool {
        forall|l1: nat, l2: nat|
            l1 < l2 <= M::spec_dim_bits() ==> !(#[trigger] self.present(
                l1,
                prefix(k.value(), M::spec_dim_bits(), l1),
            ) && #[trigger] self.present(l2, prefix(k.value(), M::spec_dim_bits(), l2)))
    }

    /// Some region on the path of `k` is present.
    pub closed spec fn some_on_path(&self, k: M) -> bool {
        exists|l: nat|
            l <= M::spec_dim_bits() && #[trigger] self.present(
                l,
                prefix(k.value(), M::spec_dim_bits(), l),
            )
    }

    /// Some region on the path of `m` is marked with `m`.
    pub closed spec fn marked(&self, m: M) -> bool {
        exists|l: nat| l <= M::spec_dim_bits() && #[trigger] self.marks(l, m)
    }

    /// The present regions cut every path from the root to a cell exactly once, and every
    /// stored leaf marks the region where its path is cut.
    pub closed spec fn wf(&self) -> bool {
        &&& self.wf_values()
        &&& forall|k: M| #[trigger] is_valid_key(k) ==> self.once_on_path(k) && self.some_on_path(k)
        &&& forall|m: M| #[trigger] self.leaves@.contains_key(m) ==> self.marked(m)
    }

    /// Each stored leaf is the marker of exactly one region, and that region lies on its path.
    pub proof fn lemma_leaf_marked_once(&self, m: M)
        requires
            self.wf(),
            self@.contains_key(m),
        ensures
            exists|l: nat|
                l <= M::spec_dim_bits() && #[trigger] self.marker(
                    l,
                    region_key::<M>(prefix(m.value(), M::spec_dim_bits(), l), l),
                ) == Option::Some(m),
            forall|l: nat, r: M|
                l <= M::spec_dim_bits() && #[trigger] self.marker(l, r) == Option::Some(m) ==> r
                    == region_key::<M>(prefix(m.value(), M::spec_dim_bits(), l), l),
            forall|l1: nat, l2: nat|
                l1 <= M::spec_dim_bits() && l2 <= M::spec_dim_bits() && #[trigger] self.marker(
                    l1,
                    region_key::<M>(prefix(m.value(), M::spec_dim_bits(), l1), l1),
                ) == Option::Some(m) && #[trigger] self.marker(
                    l2,
                    region_key::<M>(prefix(m.value(), M::spec_dim_bits(), l2), l2),
                ) == Option::Some(m) ==> l1 == l2,
    {
        let dim = M::spec_dim_bits();
        assert(self.marked(m));
        let w = choose|w: nat| w <= dim && #[trigger] self.marks(w, m);
        assert(self.marker(w, region_key::<M>(prefix(m.value(), dim, w), w)) == Option::Some(m));
        assert(is_valid_key(m));
        M::lemma_model(m, m);
        assert forall|l: nat, r: M|
            l <= dim && #[trigger] self.marker(l, r) == Option::Some(m) implies r == region_key::<M>(
            prefix(m.value(), dim, l),
            l,
        ) by {
            assert(self.internals@[l as int]@.contains_key(r));
            assert(self.internals@[l as int]@[r] == m);
            lemma_prefix_bound(m, l);
            lemma_region_key::<M>(prefix(m.value(), dim, l), l);
            M::lemma_model(r, region_key::<M>(prefix(m.value(), dim, l), l));
        }
        assert forall|l1: nat, l2: nat|
            l1 <= dim && l2 <= dim && #[trigger] self.marker(
                l1,
                region_key::<M>(prefix(m.value(), dim, l1), l1),
            ) == Option::Some(m) && #[trigger] self.marker(
                l2,
                region_key::<M>(prefix(m.value(), dim, l2), l2),
            ) == Option::Some(m) implies l1 == l2 by {
            assert(self.once_on_path(m));
            assert(self.present(l1, prefix(m.value(), dim, l1)));
            assert(self.present(l2, prefix(m.value(), dim, l2)));
            if l1 < l2 {
                assert(!(self.present(l1, prefix(m.value(), dim, l1)) && self.present(
                    l2,
                    prefix(m.value(), dim, l2),
                )));
            } else if l2 < l1 {
                assert(!(self.present(l2, prefix(m.value(), dim, l2)) && self.present(
                    l1,
                    prefix(m.value(), dim, l1),
                )));
            }
        }
    }

    /// Every region marked with a key other than null holds that key, which is a stored leaf.
    pub proof fn lemma_markers_are_leaves(&self, level: nat, r: M)
        requires
            self.wf(),
            self.marker(level, r) matches Option::Some(m) && !is_null_key(m),
        ensures
            self@.contains_key(self.marker(level, r)->Some_0),
            r.value() == prefix(
                self.marker(level, r)->Some_0.value(),
                M::spec_dim_bits(),
                level,
            ) * pow8((M::spec_dim_bits() - level) as nat),
    {
        assert(self.internals@[level as int]@.contains_key(r));
        let m = self.internals@[level as int]@[r];
    }

    /// Create an empty octree: the root region is present and empty.
    pub fn new() -> (r: Self)
        ensures
            r.wf(),
            r@ == Map::<M, T>::empty(),
            r.marker(0, M::spec_from(0)) == Option::Some(M::spec_from((pow2(M::spec_bits()) - 1) as nat)),
    {
        let dim = M::dim_bits();
        let root = M::zero();
        let null = M::null();
        proof {
            M::lemma_model(root, root);
        }
        let mut internals: Vec<HashMap<M, M>> = Vec::new();
        let mut level: usize = 0;
        while level <= dim
            invariant
                dim == M::spec_dim_bits(),
                dim < 128,
                level <= dim + 1,
                internals@.len() == level,
                forall|l: int| 0 <= l < level ==> (#[trigger] internals@[l])@ == Map::<M, M>::empty(),
            decreases dim + 1 - level,
        {
            internals.push(HashMap::new());
            level = level + 1;
        }
        proof {
            M::lemma_from(0);
            M::lemma_from((pow2(M::spec_bits()) - 1) as nat);
            M::lemma_model(root, M::spec_from(0));
            M::lemma_model(null, M::spec_from((pow2(M::spec_bits()) - 1) as nat));
        }
        internals[0].insert(root, null);
        let r = LinearOctree { leaves: HashMap::new(), internals };
        proof {
            assert(r.internals@[0]@ == Map::<M, M>::empty().insert(root, null));
            lemma_pow8_split(0, dim as nat);
            assert forall|k: M| #[trigger] is_valid_key(k) implies r.once_on_path(k) && r.some_on_path(
                k,
            ) by {
                lemma_prefix_bound(k, 0);
                assert(pow8(0) == 1) by {
                    lemma2_to64();
                }
                assert(r.present(0, prefix(k.value(), dim as nat, 0))) by {
                    lemma_region_key::<M>(0, 0);
                    M::lemma_model(region_key::<M>(0, 0), root);
                }
                assert forall|l1: nat, l2: nat|
                    l1 < l2 <= M::spec_dim_bits() implies !(#[trigger] r.present(
                    l1,
                    prefix(k.value(), M::spec_dim_bits(), l1),
                ) && #[trigger] r.present(l2, prefix(k.value(), M::spec_dim_bits(), l2))) by {
                    assert(r.internals@[l2 as int]@ == Map::<M, M>::empty());
                }
            }
        }
        r
    }

    /// Marks the region of key `r` at `level` with `v`.
    fn set_marker(&mut self, level: usize, r: M, v: M)
        requires
            old(self).wf_values(),
            level <= M::spec_dim_bits(),
            !is_null_key(v) ==> old(self)@.contains_key(v) && r.value() == prefix(
                v.value(),
                M::spec_dim_bits(),
                level as nat,
            ) * pow8((M::spec_dim_bits() - level) as nat),
        ensures
            final(self).wf_values(),
            final(self)@ == old(self)@,
            final(self).leaves@ == old(self).leaves@,
            final(self).internals@.len() == old(self).internals@.len(),
            final(self).internals@[level as int]@ == old(self).internals@[level as int]@.insert(r, v),
            forall|l: int|
                0 <= l < old(self).internals@.len() && l != level ==> (#[trigger] final(self).internals@[l])@
                    == old(self).internals@[l]@,
    {
        proof {
            M::lemma_model(r, v);
        }
        let ghost before = self.internals@;
        self.internals[level].insert(r, v);
        proof {
            assert forall|l: nat, q: M|
                #![trigger self.internals@[l as int]@[q]]
                l <= M::spec_dim_bits() && self.internals@[l as int]@.contains_key(q)
                    && !is_null_key(self.internals@[l as int]@[q]) implies {
                let m = self.internals@[l as int]@[q];
                &&& self.leaves@.contains_key(m)
                &&& q.value() == prefix(m.value(), M::spec_dim_bits(), l) * pow8(
                    (M::spec_dim_bits() - l) as nat,
                )
            } by {
                if l != level || q != r {
                    assert(self.internals@[l as int]@[q] == before[l as int]@[q]);
                }
            }
        }
    }

    /// Drops the region of key `r` at `level` from its map, so that it reads as internal.
    fn clear_marker(&mut self, level: usize, r: M)
        requires
            old(self).wf_values(),
            level <= M::spec_dim_bits(),
        ensures
            final(self).wf_values(),
            final(self)@ == old(self)@,
            final(self).leaves@ == old(self).leaves@,
            final(self).internals@.len() == old(self).internals@.len(),
            final(self).internals@[level as int]@ == old(self).internals@[level as int]@.remove(r),
            forall|l: int|
                0 <= l < old(self).internals@.len() && l != level ==> (#[trigger] final(self).internals@[l])@
                    == old(self).internals@[l]@,
    {
        proof {
            M::lemma_model(r, r);
        }
        let ghost before = self.internals@;
        self.internals[level].remove(&r);
        proof {
            assert forall|l: nat, q: M|
                #![trigger self.internals@[l as int]@[q]]
                l <= M::spec_dim_bits() && self.internals@[l as int]@.contains_key(q)
                    && !is_null_key(self.internals@[l as int]@[q]) implies {
                let m = self.internals@[l as int]@[q];
                &&& self.leaves@.contains_key(m)
                &&& q.value() == prefix(m.value(), M::spec_dim_bits(), l) * pow8(
                    (M::spec_dim_bits() - l) as nat,
                )
            } by {
                assert(self.internals@[l as int]@[q] == before[l as int]@[q]);
            }
        }
    }

    /// No region on the path of a key through the region of `level` with path `p` is present.
    closed spec fn clear_inside(&self, level: nat, p: nat) -> bool {
        forall|k: M, l2: nat|
            is_valid_key(k) && prefix(k.value(), M::spec_dim_bits(), level) == p && l2
                <= M::spec_dim_bits() ==> !#[trigger] self.present(
                l2,
                prefix(k.value(), M::spec_dim_bits(), l2),
            )
    }

    /// Every path that does not pass through the region of `level` with path `p` is cut once.
    closed spec fn cut_outside(&self, level: nat, p: nat) -> bool {
        forall|k: M|
            #[trigger] is_valid_key(k) && prefix(k.value(), M::spec_dim_bits(), level) != p
                ==> self.once_on_path(k) && self.some_on_path(k)
    }

    /// Every stored leaf but `x` and `y` marks the region where its path is cut.
    closed spec fn marked_but(&self, x: M, y: M) -> bool {
        forall|m: M| #[trigger] self.leaves@.contains_key(m) && m != x && m != y ==> self.marked(m)
    }

    /// How the children of the region (`l`, `pp`) were marked: `s1` is `s0` with every child
    /// marked (but child `a` when `skip`), where nothing on a path through the region was
    /// present.
    proof fn lemma_children_marked(s0: Self, s1: Self, l: nat, pp: nat, a: nat, skip: bool)
        requires
            l < M::spec_dim_bits(),
            pp < pow8(l),
            a < 8,
            s0.wf_values(),
            s1.internals@.len() == s0.internals@.len(),
            s1.leaves@ == s0.leaves@,
            forall|l2: int|
                0 <= l2 < s0.internals@.len() && l2 != l + 1 ==> (#[trigger] s1.internals@[l2])@
                    == s0.internals@[l2]@,
            forall|p: nat|
                p < pow8(l + 1) ==> #[trigger] s1.present(l + 1, p) == (s0.present(l + 1, p) || (p / 8
                    == pp && !(skip && p % 8 == a))),
            forall|p: nat|
                p < pow8(l + 1) && s0.present(l + 1, p) && p / 8 != pp ==> #[trigger] s1.internals@[l
                    + 1 as int]@[region_key::<M>(p, l + 1)] == s0.internals@[l + 1 as int]@[region_key::<M>(
                    p,
                    l + 1,
                )],
            s0.clear_inside(l, pp),
            s0.cut_outside(l, pp),
        ensures
            skip ==> s1.clear_inside(l + 1, pp * 8 + a) && s1.cut_outside(l + 1, pp * 8 + a),
            !skip ==> forall|k: M|
                #[trigger] is_valid_key(k) ==> s1.once_on_path(k) && s1.some_on_path(k),
            forall|m: M|
                #[trigger] s0.leaves@.contains_key(m) && s0.marked(m) ==> s1.marked(m),
    {
        let dim = M::spec_dim_bits();
        assert forall|k: M, l2: nat|
            is_valid_key(k) && l2 <= dim implies #[trigger] s1.present(l2, prefix(k.value(), dim, l2))
            == (s0.present(l2, prefix(k.value(), dim, l2)) || (l2 == l + 1 && prefix(k.value(), dim, l)
            == pp && !(skip && digit(k.value(), dim, l) == a))) by {
            lemma_prefix_bound(k, l2);
            lemma_prefix_step(k.value(), dim, l);
            if l2 != l + 1 {
                assert(s1.internals@[l2 as int]@ == s0.internals@[l2 as int]@);
            } else {
                let p = prefix(k.value(), dim, l2);
                assert(p / 8 == prefix(k.value(), dim, l) && p % 8 == digit(k.value(), dim, l));
                assert(s1.present(l + 1, p) == (s0.present(l + 1, p) || (p / 8 == pp && !(skip && p % 8
                    == a))));
            }
        }
        assert forall|k: M, l2: nat|
            is_valid_key(k) && prefix(k.value(), dim, l) == pp && l2 <= dim implies !#[trigger] s0.present(
            l2,
            prefix(k.value(), dim, l2),
        ) by {}
        if skip {
            assert forall|k: M, l2: nat|
                is_valid_key(k) && prefix(k.value(), dim, l + 1) == pp * 8 + a && l2
                    <= dim implies !#[trigger] s1.present(l2, prefix(k.value(), dim, l2)) by {
                lemma_digit_of_child_path(k.value(), dim, l, pp, a);
                assert(s1.present(l2, prefix(k.value(), dim, l2)) == (s0.present(
                    l2,
                    prefix(k.value(), dim, l2),
                ) || (l2 == l + 1 && prefix(k.value(), dim, l) == pp && !(skip && digit(
                    k.value(),
                    dim,
                    l,
                ) == a))));
            }
            assert forall|k: M|
                #[trigger] is_valid_key(k) && prefix(k.value(), dim, l + 1) != pp * 8
                    + a implies s1.once_on_path(k) && s1.some_on_path(k) by {
                lemma_prefix_step(k.value(), dim, l);
                Self::lemma_path_cut(s0, s1, l, pp, a, skip, k);
            }
        } else {
            assert forall|k: M| #[trigger] is_valid_key(k) implies s1.once_on_path(k)
                && s1.some_on_path(k) by {
                Self::lemma_path_cut(s0, s1, l, pp, a, skip, k);
            }
        }
        assert forall|m: M| #[trigger]
            s0.leaves@.contains_key(m) && s0.marked(m) implies s1.marked(m) by {
            let l2 = choose|l2: nat| l2 <= dim && #[trigger] s0.marks(l2, m);
            let p = prefix(m.value(), dim, l2);
            lemma_prefix_bound(m, l2);
            if l2 != l + 1 {
                assert(s1.internals@[l2 as int]@ == s0.internals@[l2 as int]@);
            } else {
                lemma_prefix_step(m.value(), dim, l);
                assert(s0.present(l2, p));
                if p / 8 == pp {
                    assert(!s0.present(l2, prefix(m.value(), dim, l2)));
                }
                assert(s1.present(l + 1, p));
            }
            assert(s1.marks(l2, m));
        }
    }

    /// The path of one key after `lemma_children_marked`'s change is cut once, unless it passes
    /// through the child left unmarked.
    proof fn lemma_path_cut(s0: Self, s1: Self, l: nat, pp: nat, a: nat, skip: bool, k: M)
        requires
            is_valid_key(k),
            l < M::spec_dim_bits(),
            forall|l2: nat|
                l2 <= M::spec_dim_bits() ==> #[trigger] s1.present(
                    l2,
                    prefix(k.value(), M::spec_dim_bits(), l2),
                ) == (s0.present(l2, prefix(k.value(), M::spec_dim_bits(), l2)) || (l2 == l + 1
                    && prefix(k.value(), M::spec_dim_bits(), l) == pp && !(skip && digit(
                    k.value(),
                    M::spec_dim_bits(),
                    l,
                ) == a))),
            s0.clear_inside(l, pp),
            s0.cut_outside(l, pp),
            !(skip && prefix(k.value(), M::spec_dim_bits(), l) == pp && digit(
                k.value(),
                M::spec_dim_bits(),
                l,
            ) == a),
        ensures
            s1.once_on_path(k),
            s1.some_on_path(k),
    {
        let dim = M::spec_dim_bits();
        if prefix(k.value(), dim, l) == pp {
            assert forall|l2: nat| l2 <= dim implies #[trigger] s1.present(
                l2,
                prefix(k.value(), dim, l2),
            ) == (l2 == l + 1) by {
                assert(!s0.present(l2, prefix(k.value(), dim, l2)));
            }
            assert(s1.present(l + 1, prefix(k.value(), dim, l + 1)));
        } else {
            assert(s0.once_on_path(k) && s0.some_on_path(k));
            let w = choose|w: nat| w <= dim && #[trigger] s0.present(w, prefix(k.value(), dim, w));
            assert(s1.present(w, prefix(k.value(), dim, w)));
            assert forall|l1: nat, l2: nat|
                l1 < l2 <= dim implies !(#[trigger] s1.present(l1, prefix(k.value(), dim, l1))
                && #[trigger] s1.present(l2, prefix(k.value(), dim, l2))) by {
                assert(!(s0.present(l1, prefix(k.value(), dim, l1)) && s0.present(
                    l2,
                    prefix(k.value(), dim, l2),
                )));
            }
        }
    }

    /// Splits `region`, which held the leaf `existing` and has been dropped, until `existing`
    /// and `morton` part: on each level where they agree the seven other children are marked
    /// empty, and on the level where they part each of the two marks its child and the six
    /// others are marked empty.
    fn split_region(&mut self, existing: M, morton: M, region: MortonRegion<M>)
        requires
            old(self).wf_values(),
            old(self)@.contains_key(existing),
            old(self)@.contains_key(morton),
            existing != morton,
            is_valid_key(existing),
            is_valid_key(morton),
            region.wf(),
            region.path() == prefix(existing.value(), M::spec_dim_bits(), region.level as nat),
            region.path() == prefix(morton.value(), M::spec_dim_bits(), region.level as nat),
            old(self).clear_inside(region.level as nat, region.path()),
            old(self).cut_outside(region.level as nat, region.path()),
            old(self).marked_but(existing, morton),
        ensures
            final(self).wf(),
            final(self)@ == old(self)@,
    {
        let ghost dim = M::spec_dim_bits();
        let null = M::null();
        let mut region = region;
        proof {
            M::lemma_model(existing, morton);
        }
        loop
            invariant
                self.wf_values(),
                self@ == old(self)@,
                self@.contains_key(existing),
                self@.contains_key(morton),
                existing != morton,
                is_valid_key(existing),
                is_valid_key(morton),
                region.wf(),
                dim == M::spec_dim_bits(),
                dim < 128,
                null.value() == pow2(M::spec_bits()) - 1,
                region.path() == prefix(existing.value(), dim, region.level as nat),
                region.path() == prefix(morton.value(), dim, region.level as nat),
                self.clear_inside(region.level as nat, region.path()),
                self.cut_outside(region.level as nat, region.path()),
                self.marked_but(existing, morton),
            decreases dim - region.level,
        {
            let l = region.level;
            assert(l < dim) by {
                if l == dim {
                    lemma2_to64();
                    assert(existing.value() / 1 == existing.value());
                    assert(morton.value() / 1 == morton.value());
                    M::lemma_model(existing, morton);
                }
            }
            proof {
                lemma_prefix_step(existing.value(), dim, l as nat);
                lemma_prefix_step(morton.value(), dim, l as nat);
                lemma_region_morton(region);
            }
            let a = existing.get_level(l);
            let b = morton.get_level(l);
            let ghost pp = region.path();
            let ghost s0 = *self;
            let mut i: usize = 0;
            while i < 8
                invariant
                    self.wf_values(),
                    self@ == old(self)@,
                    self.leaves@ == s0.leaves@,
                    self@.contains_key(existing),
                    self@.contains_key(morton),
                    region.wf(),
                    region.level == l,
                    region.path() == pp,
                    pp < pow8(l as nat),
                    l < dim,
                    i <= 8,
                    dim == M::spec_dim_bits(),
                    a < 8 && b < 8,
                    null.value() == pow2(M::spec_bits()) - 1,
                    prefix(existing.value(), dim, l as nat + 1) == pp * 8 + a,
                    prefix(morton.value(), dim, l as nat + 1) == pp * 8 + b,
                    s0.clear_inside(l as nat, pp),
                    self.internals@.len() == s0.internals@.len(),
                    forall|l2: int|
                        0 <= l2 < s0.internals@.len() && l2 != l + 1 ==> (
                        #[trigger] self.internals@[l2])@ == s0.internals@[l2]@,
                    forall|p: nat|
                        p < pow8(l as nat + 1) ==> #[trigger] self.present((l + 1) as nat, p) == (
                        s0.present((l + 1) as nat, p) || (p / 8 == pp && p % 8 < i && !(a == b && p
                            % 8 == a))),
                    forall|p: nat|
                        p < pow8(l as nat + 1) && s0.present((l + 1) as nat, p) && p / 8 != pp
                            ==> #[trigger] self.internals@[l + 1]@[region_key::<M>(p, (l + 1) as nat)]
                            == s0.internals@[l + 1]@[region_key::<M>(p, (l + 1) as nat)],
                    a != b && a < i ==> self.internals@[l + 1]@[region_key::<M>(
                        pp * 8 + a as nat,
                        (l + 1) as nat,
                    )] == existing,
                    a != b && b < i ==> self.internals@[l + 1]@[region_key::<M>(
                        pp * 8 + b as nat,
                        (l + 1) as nat,
                    )] == morton,
                decreases 8 - i,
            {
                let c = region.enter(i);
                let ghost q = region_key::<M>(pp * 8 + i as nat, (l + 1) as nat);
                proof {
                    c.lemma_value();
                    lemma_region_morton(c);
                    lemma_pow8_split(l as nat, 1);
                    lemma2_to64();
                    assert(c.morton == q);
                }
                let ghost before = *self;
                if i == a {
                    if a != b {
                        self.set_marker(l + 1, c.morton, existing);
                    }
                } else if i == b {
                    self.set_marker(l + 1, c.morton, morton);
                } else {
                    self.set_marker(l + 1, c.morton, null);
                }
                proof {
                    assert forall|p: nat| p < pow8(l as nat + 1) implies #[trigger] self.present(
                        (l + 1) as nat,
                        p,
                    ) == (s0.present((l + 1) as nat, p) || (p / 8 == pp && p % 8 < i + 1 && !(a == b
                        && p % 8 == a))) by {
                        assert(before.present((l + 1) as nat, p) == (s0.present((l + 1) as nat, p) || (p
                            / 8 == pp && p % 8 < i && !(a == b && p % 8 == a))));
                        if region_key::<M>(p, (l + 1) as nat) == q {
                            lemma_region_key_inj::<M>(p, pp * 8 + i as nat, (l + 1) as nat);
                        }
                        if p == pp * 8 + i as nat {
                            assert(p / 8 == pp && p % 8 == i);
                        } else if p / 8 == pp {
                            assert(p % 8 != i);
                        }
                    }
                    assert forall|p: nat|
                        p < pow8(l as nat + 1) && s0.present((l + 1) as nat, p) && p / 8 != pp
                            implies #[trigger] self.internals@[l + 1]@[region_key::<M>(
                        p,
                        (l + 1) as nat,
                    )] == s0.internals@[l + 1]@[region_key::<M>(p, (l + 1) as nat)] by {
                        if region_key::<M>(p, (l + 1) as nat) == q {
                            lemma_region_key_inj::<M>(p, pp * 8 + i as nat, (l + 1) as nat);
                        }
                    }
                    if a != b && a < i && region_key::<M>(pp * 8 + a as nat, (l + 1) as nat) == q {
                        lemma_region_key_inj::<M>(pp * 8 + a as nat, pp * 8 + i as nat, (l + 1) as nat);
                    }
                    if a != b && b < i && region_key::<M>(pp * 8 + b as nat, (l + 1) as nat) == q {
                        lemma_region_key_inj::<M>(pp * 8 + b as nat, pp * 8 + i as nat, (l + 1) as nat);
                    }
                }
                i = i + 1;
            }
            proof {
                Self::lemma_children_marked(s0, *self, l as nat, pp, a as nat, a == b);
                assert forall|p: nat| p < pow8(l as nat + 1) implies #[trigger] self.present(
                    (l + 1) as nat,
                    p,
                ) == (s0.present((l + 1) as nat, p) || (p / 8 == pp && !(a == b && p % 8 == a))) by {
                    assert(p % 8 < 8);
                }
            }
            if a != b {
                proof {
                    lemma_prefix_bound(existing, (l + 1) as nat);
                    lemma_prefix_bound(morton, (l + 1) as nat);
                    let pa = pp * 8 + a as nat;
                    let pb = pp * 8 + b as nat;
                    assert(pa / 8 == pp && pa % 8 == a && pb / 8 == pp && pb % 8 == b);
                    assert(self.present((l + 1) as nat, pa));
                    assert(self.present((l + 1) as nat, pb));
                    assert(self.marks((l + 1) as nat, existing));
                    assert(self.marks((l + 1) as nat, morton));
                    assert forall|m: M| #[trigger] self.leaves@.contains_key(m) implies self.marked(m) by {
                        if m != existing && m != morton {
                            assert(s0.marked(m));
                        }
                    }
                }
                return;
            }
            proof {
                assert forall|m: M| #[trigger] self.leaves@.contains_key(m) && m != existing && m
                    != morton implies self.marked(m) by {
                    assert(s0.marked(m));
                }
            }
            region = region.enter(a);
        }
    }

    /// Inserts `item` at `morton`, replacing the item already there. A new key takes the first
    /// present region on its path: an empty one directly, one holding another leaf by splitting
    /// it.
    pub fn insert(&mut self, morton: M, item: T)
        requires
            old(self).wf(),
            is_valid_key(morton),
        ensures
            final(self).wf(),
            final(self)@ == old(self)@.insert(morton, item),
            old(self)@.contains_key(morton) ==> forall|l: nat, r: M| #[trigger]
                final(self).marker(l, r) == old(self).marker(l, r),
    {
        proof {
            M::lemma_model(morton, morton);
        }
        let ghost before = self.internals@;
        let ghost s_old = *self;
        let previous = self.leaves.insert(morton, item);
        proof {
            assert forall|l: nat, q: M|
                #![trigger self.internals@[l as int]@[q]]
                l <= M::spec_dim_bits() && self.internals@[l as int]@.contains_key(q)
                    && !is_null_key(self.internals@[l as int]@[q]) implies {
                let m = self.internals@[l as int]@[q];
                &&& self.leaves@.contains_key(m)
                &&& q.value() == prefix(m.value(), M::spec_dim_bits(), l) * pow8(
                    (M::spec_dim_bits() - l) as nat,
                )
            } by {
                assert(self.internals@[l as int]@[q] == before[l as int]@[q]);
                assert(old(self).leaves@.contains_key(self.internals@[l as int]@[q]));
            }
            assert forall|k: M| #[trigger] is_valid_key(k) implies self.once_on_path(k)
                && self.some_on_path(k) by {
                assert(s_old.once_on_path(k) && s_old.some_on_path(k));
                let w = choose|w: nat|
                    w <= M::spec_dim_bits() && #[trigger] s_old.present(
                        w,
                        prefix(k.value(), M::spec_dim_bits(), w),
                    );
                assert(self.present(w, prefix(k.value(), M::spec_dim_bits(), w)));
                assert forall|l1: nat, l2: nat|
                    l1 < l2 <= M::spec_dim_bits() implies !(#[trigger] self.present(
                    l1,
                    prefix(k.value(), M::spec_dim_bits(), l1),
                ) && #[trigger] self.present(l2, prefix(k.value(), M::spec_dim_bits(), l2))) by {
                    assert(!(s_old.present(l1, prefix(k.value(), M::spec_dim_bits(), l1))
                        && s_old.present(l2, prefix(k.value(), M::spec_dim_bits(), l2))));
                }
            }
            assert forall|m: M| #[trigger] self.leaves@.contains_key(m) && m != morton implies self.marked(
                m,
            ) by {
                assert(s_old.leaves@.contains_key(m));
                assert(s_old.marked(m));
                let w = choose|w: nat| w <= M::spec_dim_bits() && #[trigger] s_old.marks(w, m);
                assert(self.marks(w, m));
            }
        }
        if previous.is_some() {
            proof {
                assert(s_old.leaves@.contains_key(morton));
                assert(s_old.marked(morton));
                let w = choose|w: nat| w <= M::spec_dim_bits() && #[trigger] s_old.marks(w, morton);
                assert(self.marks(w, morton));
            }
            return;
        }
        proof {
            vstd::arithmetic::power2::lemma_pow2_pos(3 * M::spec_dim_bits());
            assert(morton.value() / pow8(M::spec_dim_bits()) == 0) by (nonlinear_arith)
                requires
                    morton.value() < pow8(M::spec_dim_bits()),
            ;
            assert(M::spec_dim_bits() - 0 == M::spec_dim_bits());
            assert forall|l: nat, q: M|
                #![trigger self.internals@[l as int]@[q]]
                l <= M::spec_dim_bits() && self.internals@[l as int]@.contains_key(q)
                    implies self.internals@[l as int]@[q] != morton by {
                assert(self.internals@[l as int]@[q] == before[l as int]@[q]);
                if self.internals@[l as int]@[q] == morton {
                    assert(!is_null_key(morton));
                    assert(old(self).leaves@.contains_key(morton));
                }
            }
        }
        let dim = M::dim_bits();
        let mut region = MortonRegion::<M>::base();
        let mut level: usize = 0;
        while level <= dim
            invariant
                self.wf_values(),
                forall|k: M| #[trigger] is_valid_key(k) ==> self.once_on_path(k) && self.some_on_path(k),
                forall|m: M| #[trigger] self.leaves@.contains_key(m) && m != morton ==> self.marked(m),
                self@ == old(self)@.insert(morton, item),
                !old(self)@.contains_key(morton),
                is_valid_key(morton),
                dim == M::spec_dim_bits(),
                dim < 128,
                region.wf(),
                region.level == level,
                level <= dim + 1,
                region.path() == prefix(morton.value(), dim as nat, level as nat),
                forall|l: nat, q: M|
                    #![trigger self.internals@[l as int]@[q]]
                    l <= M::spec_dim_bits() && self.internals@[l as int]@.contains_key(q)
                        ==> self.internals@[l as int]@[q] != morton,
                forall|l: nat|
                    l < level ==> !#[trigger] self.present(l, prefix(morton.value(), dim as nat, l)),
            decreases dim + 1 - level,
        {
            let found = match self.internals[level].get(&region.morton) {
                Some(v) => Some(*v),
                None => None,
            };
            proof {
                M::lemma_model(morton, morton);
                broadcast use vstd::std_specs::hash::axiom_random_state_builds_valid_hashers;

                lemma_region_morton(region);
                match found {
                    Option::Some(v) => {
                        assert(self.internals@[level as int]@.contains_key(region.morton));
                        assert(self.internals@[level as int]@[region.morton] == v);
                    },
                    Option::None => {},
                }
            }
            let ghost pp = region.path();
            let ghost s0 = *self;
            match found {
                Some(v) => {
                    proof {
                        region.lemma_value();
                        assert(s0.present(level as nat, pp));
                    }
                    if v.is_null() {
                        self.set_marker(level, region.morton, morton);
                        proof {
                            Self::lemma_same_presence(s0, *self, level as nat, pp);
                            assert(self.marks(level as nat, morton));
                            assert forall|m: M| #[trigger] self.leaves@.contains_key(m) implies self.marked(
                                m,
                            ) by {
                                if m != morton {
                                    assert(s0.marked(m));
                                    let w = choose|w: nat|
                                        w <= M::spec_dim_bits() && #[trigger] s0.marks(w, m);
                                    if w == level && region_key::<M>(
                                        prefix(m.value(), dim as nat, w),
                                        w,
                                    ) == region.morton {
                                        assert(s0.internals@[level as int]@[region.morton] == m);
                                        M::lemma_model(m, m);
                                        assert(is_valid_key(m));
                                    }
                                    assert(self.marks(w, m));
                                }
                            }
                        }
                    } else {
                        proof {
                            M::lemma_model(v, morton);
                            assert(region.morton.value() == prefix(v.value(), dim as nat, level as nat)
                                * pow8((dim - level) as nat));
                            vstd::arithmetic::power2::lemma_pow2_pos(3 * (dim - level) as nat);
                            vstd::arithmetic::mul::lemma_mul_equality_converse(
                                pow8((dim - level) as nat) as int,
                                prefix(v.value(), dim as nat, level as nat) as int,
                                region.path() as int,
                            );
                        }
                        self.clear_marker(level, region.morton);
                        proof {
                            Self::lemma_dropped(s0, *self, level as nat, pp, v, morton);
                        }
                        self.split_region(v, morton, region);
                    }
                    return;
                },
                None => {
                    proof {
                        assert(!s0.present(level as nat, pp));
                        if level == dim {
                            assert(s0.some_on_path(morton));
                            let w = choose|w: nat|
                                w <= M::spec_dim_bits() && #[trigger] s0.present(
                                    w,
                                    prefix(morton.value(), M::spec_dim_bits(), w),
                                );
                            assert(w < level || w == level);
                        }
                    }
                    if level == dim {
                        return;
                    }
                    proof {
                        lemma_prefix_step(morton.value(), dim as nat, level as nat);
                    }
                    let d = morton.get_level(level);
                    region = region.enter(d);
                    level = level + 1;
                },
            }
        }
        proof {
            assert(self.some_on_path(morton));
            let w = choose|w: nat|
                w <= M::spec_dim_bits() && #[trigger] self.present(
                    w,
                    prefix(morton.value(), M::spec_dim_bits(), w),
                );
            assert(w < level);
        }
    }

    /// Any tree with the same region maps and the same keys as a well-formed one is well formed.
    proof fn lemma_same_shape_all(s0: Self)
        requires
            s0.wf(),
        ensures
            forall|s1: Self|
                s1.internals@ == s0.internals@ && s1.leaves@.dom() == s0.leaves@.dom()
                    ==> #[trigger] s1.wf(),
    {
        assert forall|s1: Self|
            s1.internals@ == s0.internals@ && s1.leaves@.dom() == s0.leaves@.dom() implies #[trigger] s1.wf() by {
            Self::lemma_same_shape(s0, s1);
        }
    }

    /// A tree with the same region maps and the same keys is well formed as well.
    proof fn lemma_same_shape(s0: Self, s1: Self)
        requires
            s0.wf(),
            s1.internals@ == s0.internals@,
            s1.leaves@.dom() == s0.leaves@.dom(),
        ensures
            s1.wf(),
    {
        assert forall|l: nat, p: nat| #[trigger] s1.present(l, p) == s0.present(l, p) by {}
        assert forall|l: nat, m: M| #[trigger] s1.marks(l, m) == s0.marks(l, m) by {}
        assert forall|k: M| #[trigger] is_valid_key(k) implies s1.once_on_path(k) && s1.some_on_path(
            k,
        ) by {
            assert(s0.once_on_path(k) && s0.some_on_path(k));
            let w = choose|w: nat|
                w <= M::spec_dim_bits() && #[trigger] s0.present(
                    w,
                    prefix(k.value(), M::spec_dim_bits(), w),
                );
            assert(s1.present(w, prefix(k.value(), M::spec_dim_bits(), w)));
        }
        assert forall|m: M| #[trigger] s1.leaves@.contains_key(m) implies s1.marked(m) by {
            assert(s0.leaves@.contains_key(m));
            assert(s0.marked(m));
            let w = choose|w: nat| w <= M::spec_dim_bits() && #[trigger] s0.marks(w, m);
            assert(s1.marks(w, m));
        }
    }

    /// Setting the value of a present region leaves every region's presence as it was.
    proof fn lemma_same_presence(s0: Self, s1: Self, level: nat, pp: nat)
        requires
            level <= M::spec_dim_bits(),
            pp < pow8(level),
            s0.present(level, pp),
            s1.internals@.len() == s0.internals@.len(),
            s0.internals@.len() == M::spec_dim_bits() + 1,
            s1.internals@[level as int]@.dom() == s0.internals@[level as int]@.dom().insert(
                region_key::<M>(pp, level),
            ),
            forall|l: int|
                0 <= l < s0.internals@.len() && l != level ==> (#[trigger] s1.internals@[l])@
                    == s0.internals@[l]@,
            forall|k: M| #[trigger] is_valid_key(k) ==> s0.once_on_path(k) && s0.some_on_path(k),
        ensures
            forall|k: M| #[trigger] is_valid_key(k) ==> s1.once_on_path(k) && s1.some_on_path(k),
    {
        assert forall|l: nat, p: nat|
            l < s0.internals@.len() implies #[trigger] s1.present(l, p) == s0.present(l, p) by {
            if l == level {
                assert(s1.internals@[level as int]@.dom().contains(region_key::<M>(p, l))
                    == s0.internals@[level as int]@.dom().contains(region_key::<M>(p, l)));
            } else if l < s0.internals@.len() {
                assert(s1.internals@[l as int]@ == s0.internals@[l as int]@);
            }
        }
        assert forall|k: M| #[trigger] is_valid_key(k) implies s1.once_on_path(k) && s1.some_on_path(
            k,
        ) by {
            assert(s0.once_on_path(k) && s0.some_on_path(k));
            let w = choose|w: nat|
                w <= M::spec_dim_bits() && #[trigger] s0.present(
                    w,
                    prefix(k.value(), M::spec_dim_bits(), w),
                );
            assert(s1.present(w, prefix(k.value(), M::spec_dim_bits(), w)));
            assert forall|l1: nat, l2: nat|
                l1 < l2 <= M::spec_dim_bits() implies !(#[trigger] s1.present(
                l1,
                prefix(k.value(), M::spec_dim_bits(), l1),
            ) && #[trigger] s1.present(l2, prefix(k.value(), M::spec_dim_bits(), l2))) by {
                assert(!(s0.present(l1, prefix(k.value(), M::spec_dim_bits(), l1)) && s0.present(
                    l2,
                    prefix(k.value(), M::spec_dim_bits(), l2),
                )));
            }
        }
    }

    /// Dropping the present region (`level`, `pp`), marked with `e`, leaves nothing on the paths
    /// through it, every other path cut once, and every other leaf marked.
    proof fn lemma_dropped(s0: Self, s1: Self, level: nat, pp: nat, e: M, morton: M)
        requires
            level <= M::spec_dim_bits(),
            pp < pow8(level),
            s0.wf_values(),
            s0.present(level, pp),
            s0.internals@[level as int]@[region_key::<M>(pp, level)] == e,
            s1.leaves@ == s0.leaves@,
            s1.internals@.len() == s0.internals@.len(),
            s1.internals@[level as int]@ == s0.internals@[level as int]@.remove(
                region_key::<M>(pp, level),
            ),
            forall|l: int|
                0 <= l < s0.internals@.len() && l != level ==> (#[trigger] s1.internals@[l])@
                    == s0.internals@[l]@,
            forall|k: M| #[trigger] is_valid_key(k) ==> s0.once_on_path(k) && s0.some_on_path(k),
            forall|m: M| #[trigger] s0.leaves@.contains_key(m) && m != morton ==> s0.marked(m),
        ensures
            s1.clear_inside(level, pp),
            s1.cut_outside(level, pp),
            s1.marked_but(e, morton),
    {
        let dim = M::spec_dim_bits();
        assert forall|l: nat, p: nat|
            l <= dim && p < pow8(l) implies #[trigger] s1.present(l, p) == (s0.present(l, p) && !(l
            == level && p == pp)) by {
            if l == level {
                if region_key::<M>(p, l) == region_key::<M>(pp, level) {
                    lemma_region_key_inj::<M>(p, pp, l);
                }
            } else {
                assert(s1.internals@[l as int]@ == s0.internals@[l as int]@);
            }
        }
        assert forall|k: M, l2: nat|
            is_valid_key(k) && prefix(k.value(), dim, level) == pp && l2 <= dim implies !#[trigger] s1.present(
            l2,
            prefix(k.value(), dim, l2),
        ) by {
            lemma_prefix_bound(k, l2);
            assert(s0.once_on_path(k));
            if l2 < level {
                assert(!(s0.present(l2, prefix(k.value(), dim, l2)) && s0.present(
                    level,
                    prefix(k.value(), dim, level),
                )));
            } else if l2 > level {
                assert(!(s0.present(level, prefix(k.value(), dim, level)) && s0.present(
                    l2,
                    prefix(k.value(), dim, l2),
                )));
            }
        }
        assert forall|k: M|
            #[trigger] is_valid_key(k) && prefix(k.value(), dim, level) != pp implies s1.once_on_path(k)
            && s1.some_on_path(k) by {
            assert(s0.once_on_path(k) && s0.some_on_path(k));
            let w = choose|w: nat| w <= dim && #[trigger] s0.present(w, prefix(k.value(), dim, w));
            lemma_prefix_bound(k, w);
            lemma_prefix_bound(k, level);
            if w == level {
                assert(prefix(k.value(), dim, w) != pp);
            }
            assert(s1.present(w, prefix(k.value(), dim, w)));
            assert forall|l1: nat, l2: nat|
                l1 < l2 <= dim implies !(#[trigger] s1.present(l1, prefix(k.value(), dim, l1))
                && #[trigger] s1.present(l2, prefix(k.value(), dim, l2))) by {
                lemma_prefix_bound(k, l1);
                lemma_prefix_bound(k, l2);
                assert(!(s0.present(l1, prefix(k.value(), dim, l1)) && s0.present(
                    l2,
                    prefix(k.value(), dim, l2),
                )));
            }
        }
        assert forall|m: M| #[trigger] s1.leaves@.contains_key(m) && m != e && m != morton implies s1.marked(
            m,
        ) by {
            assert(s0.marked(m));
            let w = choose|w: nat| w <= dim && #[trigger] s0.marks(w, m);
            lemma_prefix_bound(m, w);
            if w == level && prefix(m.value(), dim, w) == pp {
                assert(s0.internals@[level as int]@[region_key::<M>(pp, level)] == m);
            }
            assert(s1.present(w, prefix(m.value(), dim, w)));
            if w != level {
                assert(s1.internals@[w as int]@ == s0.internals@[w as int]@);
            }
            assert(s1.marks(w, m));
        }
    }


    /// The summary of the region `region` (key value, level): a region marked with a leaf gathers
    /// it, one marked empty has none, and an unmarked one folds its non-empty children.
    pub open spec fn lin_sum<F: Folder<T, M>>(&self, f: F, region: (nat, nat)) -> Option<F::Sum>
        decreases M::spec_dim_bits() + 1 - region.1, 0nat,
    {
        match self.marker(region.1, M::spec_from(region.0)) {
            Option::Some(m) => {
                if is_null_key(m) {
                    Option::None
                } else {
                    Option::Some(f.spec_gather(m, self@[m]))
                }
            },
            Option::None => {
                if region.1 < M::spec_dim_bits() {
                    let s = self.lin_kids(f, region, 0).map_values(|p: ((nat, nat), F::Sum)| p.1);
                    if s.len() > 0 {
                        Option::Some(f.spec_fold(s))
                    } else {
                        Option::None
                    }
                } else {
                    Option::None
                }
            },
        }
    }

    /// The children `i..8` of `region` that have a summary, with it, in index order.
    pub open spec fn lin_kids<F: Folder<T, M>>(&self, f: F, region: (nat, nat), i: nat) -> Seq<
        ((nat, nat), F::Sum),
    >
        decreases M::spec_dim_bits() + 1 - (region.1 + 1), 9 - i,
    {
        if i < 8 && region.1 < M::spec_dim_bits() {
            let c = child_region(region, i, M::spec_dim_bits());
            match self.lin_sum(f, c) {
                Option::Some(s) => seq![(c, s)] + self.lin_kids(f, region, i + 1),
                Option::None => self.lin_kids(f, region, i + 1),
            }
        } else {
            Seq::empty()
        }
    }

    /// The region with its summary, if it has one.
    pub open spec fn lin_own<F: Folder<T, M>>(&self, f: F, region: (nat, nat)) -> Seq<
        ((nat, nat), F::Sum),
    > {
        match self.lin_sum(f, region) {
            Option::Some(s) => seq![(region, s)],
            Option::None => Seq::empty(),
        }
    }

    /// The regions strictly below an unmarked `region` that have a summary, with it: for each
    /// child in turn, those below it, then the child itself.
    pub open spec fn lin_list<F: Folder<T, M>>(&self, f: F, region: (nat, nat)) -> Seq<
        ((nat, nat), F::Sum),
    >
        decreases M::spec_dim_bits() + 1 - region.1, 0nat,
    {
        if self.marker(region.1, M::spec_from(region.0)) is None && region.1 < M::spec_dim_bits() {
            self.lin_list_from(f, region, 0)
        } else {
            Seq::empty()
        }
    }

    /// `lin_list` of the children `i..8` of `region`, each followed by the child itself.
    pub open spec fn lin_list_from<F: Folder<T, M>>(&self, f: F, region: (nat, nat), i: nat) -> Seq<
        ((nat, nat), F::Sum),
    >
        decreases M::spec_dim_bits() + 1 - (region.1 + 1), 9 - i,
    {
        if i < 8 && region.1 < M::spec_dim_bits() {
            let c = child_region(region, i, M::spec_dim_bits());
            self.lin_list(f, c) + self.lin_own(f, c) + self.lin_list_from(f, region, i + 1)
        } else {
            Seq::empty()
        }
    }

    proof fn lemma_kids_len<F: Folder<T, M>>(&self, f: F, region: (nat, nat), i: nat)
        requires
            i <= 8,
        ensures
            self.lin_kids(f, region, i).len() <= 8 - i,
        decreases 9 - i,
    {
        if i < 8 && region.1 < M::spec_dim_bits() {
            self.lemma_kids_len(f, region, i + 1);
        }
    }

    /// Appends to `map` every region from `region` down that has a summary, with it (see
    /// `lin_sum`): for each child in turn the regions below it and the child, then `region`
    /// itself; and returns the summary of `region`.
    pub fn collect_fold_region<F: Folder<T, M>>(
        &self,
        region: MortonRegion<M>,
        folder: &F,
        map: &mut Vec<(MortonRegion<M>, F::Sum)>,
    ) -> (r: Option<F::Sum>)
        requires
            self.wf(),
            region.wf(),
        ensures
            r == self.lin_sum(*folder, region@),
            region_pairs(final(map)@) == region_pairs(old(map)@) + self.lin_list(*folder, region@)
                + self.lin_own(*folder, region@),
            r matches Option::Some(s) ==> region_pairs(final(map)@) == region_pairs(old(map)@)
                + self.lin_list(*folder, region@) + seq![(region@, s)],
        decreases M::spec_dim_bits() + 1 - region.level, 0nat,
    {
        let ghost base = region_pairs(map@);
        proof {
            M::lemma_model(region.morton, M::spec_from(region.morton.value()));
            M::lemma_from(region.morton.value());
            broadcast use vstd::std_specs::hash::axiom_random_state_builds_valid_hashers;

        }
        let found = match self.internals[region.level].get(&region.morton) {
            Some(v) => Some(*v),
            None => None,
        };
        match found {
            Some(m) => {
                assert(self.marker(region.level as nat, region.morton) == Option::Some(m));
                if m.is_null() {
                    assert(region_pairs(map@) =~= base + self.lin_list(*folder, region@)
                        + self.lin_own(*folder, region@));
                    None
                } else {
                    proof {
                        M::lemma_model(m, m);
                        assert(self.internals@[region.level as int]@[region.morton] == m);
                    }
                    match self.leaves.get(&m) {
                        Some(t) => {
                            let s = folder.gather(m, t);
                            let ghost before = map@;
                            map.push((region, folder.copy_sum(&s)));
                            assert(region_pairs(map@) =~= region_pairs(before).push((region@, s)));
                            assert(region_pairs(map@) =~= base + self.lin_list(*folder, region@)
                                + self.lin_own(*folder, region@));
                            Some(s)
                        },
                        None => None,
                    }
                }
            },
            None => {
                if region.level >= M::dim_bits() {
                    assert(region_pairs(map@) =~= base + self.lin_list(*folder, region@)
                        + self.lin_own(*folder, region@));
                    return None;
                }
                let mut kid_sums: Vec<F::Sum> = Vec::new();
                self.collect_kids(region, 0, folder, map, &mut kid_sums);
                let ghost kids = self.lin_kids(*folder, region@, 0);
                proof {
                    self.lemma_kids_len(*folder, region@, 0);
                    assert(kid_sums@ =~= kids.map_values(|p: ((nat, nat), F::Sum)| p.1));
                }
                if kid_sums.len() == 0 {
                    assert(region_pairs(map@) =~= base + self.lin_list(*folder, region@)
                        + self.lin_own(*folder, region@));
                    return None;
                }
                let sl = kid_sums.as_slice();
                assert(sl@ == kid_sums@);
                let s = folder.fold(sl);
                let ghost before = map@;
                map.push((region, folder.copy_sum(&s)));
                assert(region_pairs(map@) =~= region_pairs(before).push((region@, s)));
                assert(region_pairs(map@) =~= base + self.lin_list(*folder, region@) + self.lin_own(
                    *folder,
                    region@,
                ));
                Some(s)
            },
        }
    }

    /// Runs `collect_fold_region` on the children `i..8` of `region`, collecting the summary
    /// of each child that has one in `sums`.
    fn collect_kids<F: Folder<T, M>>(
        &self,
        region: MortonRegion<M>,
        i: usize,
        folder: &F,
        map: &mut Vec<(MortonRegion<M>, F::Sum)>,
        sums: &mut Vec<F::Sum>,
    )
        requires
            self.wf(),
            region.wf(),
            region.level < M::spec_dim_bits(),
            i <= 8,
        ensures
            region_pairs(final(map)@) == region_pairs(old(map)@) + self.lin_list_from(
                *folder,
                region@,
                i as nat,
            ),
            final(sums)@ == old(sums)@ + self.lin_kids(*folder, region@, i as nat).map_values(
                |p: ((nat, nat), F::Sum)| p.1,
            ),
        decreases M::spec_dim_bits() + 1 - (region.level + 1), 9 - i,
    {
        let ghost out0 = region_pairs(map@);
        let ghost sums0 = sums@;
        if i < 8 {
            let cr = region.enter(i);
            let r = self.collect_fold_region(cr, folder, map);
            let ghost kp = self.lin_kids(*folder, region@, i as nat);
            let ghost rest = self.lin_kids(*folder, region@, i as nat + 1);
            match r {
                Some(s) => {
                    sums.push(s);
                },
                None => {},
            }
            self.collect_kids(region, i + 1, folder, map, sums);
            proof {
                assert(region_pairs(map@) =~= out0 + self.lin_list_from(*folder, region@, i as nat));
                if r is Some {
                    assert(kp.map_values(|p: ((nat, nat), F::Sum)| p.1) =~= seq![r->Some_0]
                        + rest.map_values(|p: ((nat, nat), F::Sum)| p.1));
                }
                assert(sums@ =~= sums0 + kp.map_values(|p: ((nat, nat), F::Sum)| p.1));
            }
        } else {
            proof {
                assert(region_pairs(map@) =~= out0 + self.lin_list_from(*folder, region@, i as nat));
                assert(sums@ =~= sums0 + self.lin_kids(*folder, region@, i as nat).map_values(
                    |p: ((nat, nat), F::Sum)| p.1,
                ));
            }
        }
    }

    /// Every region that has a summary, with it (see `lin_sum`): for each child in turn the
    /// regions below it and the child, the root last.
    pub fn collect_fold<F: Folder<T, M>>(&self, folder: &F) -> (r: Vec<(MortonRegion<M>, F::Sum)>)
        requires
            self.wf(),
        ensures
            region_pairs(r@) == self.lin_list(*folder, (0nat, 0nat)) + self.lin_own(
                *folder,
                (0nat, 0nat),
            ),
    {
        let mut map: Vec<(MortonRegion<M>, F::Sum)> = Vec::new();
        let base = MortonRegion::base();
        let _top = self.collect_fold_region(base, folder, &mut map);
        assert(region_pairs(Seq::<(MortonRegion<M>, F::Sum)>::empty()) =~= Seq::<((nat, nat), F::Sum)>::empty());
        map
    }

    /// Inserts each pair in order.
    pub fn extend(&mut self, items: Vec<(M, T)>)
        requires
            old(self).wf(),
            forall|i: int| 0 <= i < items.len() ==> is_valid_key(#[trigger] items@[i].0),
        ensures
            final(self).wf(),
            final(self)@ == insert_all(old(self)@, items@),
    {
        let ghost all = items@;
        let ghost start = self@;
        let ghost n = items.len();
        let mut items = items;
        while items.len() > 0
            invariant
                self.wf(),
                n == all.len(),
                items.len() <= n,
                items@ == all.subrange(n - items.len(), n as int),
                forall|i: int| 0 <= i < all.len() ==> is_valid_key(#[trigger] all[i].0),
                self@ == insert_all(start, all.subrange(0, n - items.len())),
            decreases items.len(),
        {
            let ghost done = n - items.len();
            let (m, t) = items.remove(0);
            proof {
                assert(all[done] == (m, t));
                assert(all.subrange(0, done + 1).drop_last() =~= all.subrange(0, done as int));
                assert(items@ =~= all.subrange(n - items.len(), n as int));
            }
            self.insert(m, t);
        }
        assert(all.subrange(0, n as int) =~= all);
    }

    /// Visits every leaf once, with its key, in the map's order.
    pub fn iter(&self) -> (r: std::collections::hash_map::Iter<'_, M, T>)
        requires
            self.wf(),
        ensures
            ({
                let v = r.remaining();
                &&& v.len() == self@.len()
                &&& forall|i: int|
                    0 <= i < v.len() ==> self@.contains_key(*#[trigger] v[i].0) && self@[*v[i].0]
                        == *v[i].1
                &&& forall|k: M| #[trigger] self@.contains_key(k) ==> v.contains((&k, &self@[k]))
            }),
    {
        proof {
            let z = self@;
            broadcast use vstd::std_specs::hash::axiom_random_state_builds_valid_hashers;
            broadcast use vstd::std_specs::hash::axiom_spec_hash_map_iter;

        }
        let r = self.leaves.iter();
        proof {
            M::lemma_model(M::spec_from(0), M::spec_from(0));
        }
        r
    }

    /// The item stored at `morton`, to change in place; the keys stay.
    pub fn get_mut(&mut self, morton: M) -> (r: Option<&mut T>)
        requires
            old(self).wf(),
        ensures
            r is Some <==> old(self)@.contains_key(morton),
            r matches Option::Some(v) ==> *v == old(self)@[morton] && final(self)@ == old(
                self,
            )@.insert(morton, *final(v)),
            r is None ==> final(self)@ == old(self)@,
            final(self).wf(),
    {
        proof {
            Self::lemma_same_shape_all(*self);
            M::lemma_model(morton, morton);
        }
        map_get_mut(&mut self.leaves, &morton)
    }

    /// Visits every leaf once, able to change the items; the keys stay.
    pub fn iter_mut(&mut self) -> (r: std::collections::hash_map::IterMut<'_, M, T>)
        requires
            old(self).wf(),
        ensures
            final(self)@.dom() == old(self)@.dom(),
            final(self).wf(),
    {
        proof {
            Self::lemma_same_shape_all(*self);
        }
        map_iter_mut(&mut self.leaves)
    }

    /// The number of leaves in the tree.
    pub fn len(&self) -> (r: usize)
        requires
            self.wf(),
        ensures
            r == self@.len(),
    {
        proof {
            M::lemma_model(M::spec_from(0), M::spec_from(0));
            broadcast use vstd::std_specs::hash::axiom_random_state_builds_valid_hashers;
            broadcast use vstd::std_specs::hash::axiom_spec_hash_map_len;

        }
        self.leaves.len()
    }

    /// Whether the tree holds no leaf.
    pub fn is_empty(&self) -> (r: bool)
        requires
            self.wf(),
        ensures
            r == (self@.len() == 0),
    {
        self.len() == 0
    }

    /// Fetches the item stored at `morton`.
    pub fn get(&self, morton: M) -> (r: Option<&T>)
        requires
            self.wf(),
        ensures
            match r {
                Option::Some(t) => self@.contains_key(morton) && *t == self@[morton],
                Option::None => !self@.contains_key(morton),
            },
    {
        proof {
            M::lemma_model(morton, morton);
        }
        self.leaves.get(&morton)
    }
}

} // verus!
