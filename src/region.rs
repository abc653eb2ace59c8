//! Regions: the cubic cells of one level, named by the path from the root.
use crate::morton::{digit, is_valid_key, pow8, prefix, Morton};
use vstd::arithmetic::power2::{lemma2_to64, lemma_pow2_adds, lemma_pow2_pos};
use vstd::prelude::*;

verus! {

/// A cell of the octree: the top `3 * level` bits of `morton` are the path from the root, the
/// other bits are zero.
#[derive(Clone, Copy, Debug, PartialEq, Eq, Hash)]
pub struct MortonRegion<M> {
    pub morton: M,
    pub level: usize,
}

/// The child `i` of the region with path value `v` at `level`.
pub open spec fn child_region(v: (nat, nat), i: nat, dim: nat) -> (nat, nat) {
    (v.0 + i * pow8((dim - 1 - v.1) as nat), v.1 + 1)
}

impl<M: Morton> MortonRegion<M> {
    /// The region as plain numbers: the value of its key and its level.
    pub open spec fn view(self) -> (nat, nat) {
        (self.morton.value(), self.level as nat)
    }

    /// A region of a level the key can hold, whose bits below its level are zero.
    pub open spec fn wf(self) -> bool {
        &&& self.level <= M::spec_dim_bits()
        &&& is_valid_key(self.morton)
        &&& self.morton.value() % pow8((M::spec_dim_bits() - self.level) as nat) == 0
    }

    /// The path from the root, one digit per level.
    pub open spec fn path(self) -> nat {
        prefix(self.morton.value(), M::spec_dim_bits(), self.level as nat)
    }

    /// The key of a region is its path followed by zero digits.
    pub proof fn lemma_value(self)
        requires
            self.wf(),
        ensures
            self.morton.value() == self.path() * pow8((M::spec_dim_bits() - self.level) as nat),
    {
        let p = pow8((M::spec_dim_bits() - self.level) as nat);
        lemma_pow2_pos(3 * (M::spec_dim_bits() - self.level) as nat);
        let v = self.morton.value();
        assert(v == (v / p) * p) by (nonlinear_arith)
            requires
                p > 0,
                v % p == 0,
        ;
    }

    /// The root region as a value.
    pub open spec fn base_spec() -> Self {
        MortonRegion { morton: M::spec_from(0), level: 0 }
    }

    /// The root region, which holds every cell.
    pub fn base() -> (r: Self)
        ensures
            r == Self::base_spec(),
            r.wf(),
            r@ == (0nat, 0nat),
            r.path() == 0,
    {
        let r = MortonRegion { morton: M::zero(), level: 0 };
        proof {
            M::lemma_model(r.morton, M::spec_from(0));
            M::lemma_from(0);
            M::lemma_model(r.morton, r.morton);
            lemma_pow2_pos(3 * M::spec_dim_bits());
        }
        r
    }

    /// The child region in octant `i`.
    pub fn enter(self, i: usize) -> (r: Self)
        requires
            self.wf(),
            self.level < M::spec_dim_bits(),
            i < 8,
        ensures
            r.wf(),
            r@ == child_region(self@, i as nat, M::spec_dim_bits()),
            r.path() == self.path() * 8 + i,
    {
        let ghost dim = M::spec_dim_bits();
        let ghost v = self.morton.value();
        let ghost k = (dim - 1 - self.level) as nat;
        let ghost q = self.level as nat;
        let ghost p = pow8(k);
        let ghost big = v / (8 * p);
        proof {
            M::lemma_model(self.morton, self.morton);
            lemma2_to64();
            lemma_pow2_adds(3, 3 * k);
            lemma_pow2_adds(3 * q, 3 * (k + 1));
            lemma_pow2_pos(3 * k);
            lemma_pow2_pos(3 * q);
            assert(pow8((dim - self.level) as nat) == 8 * p);
            assert(pow8(dim) == pow8(q) * (8 * p));
            assert(v == big * (8 * p)) by (nonlinear_arith)
                requires
                    v % (8 * p) == 0,
                    p > 0,
                    big == v / (8 * p),
            ;
            assert(big < pow8(q)) by (nonlinear_arith)
                requires
                    v == big * (8 * p),
                    v < pow8(q) * (8 * p),
                    p > 0,
            ;
            assert(v / p == 8 * big) by (nonlinear_arith)
                requires
                    v == big * (8 * p),
                    p > 0,
            ;
            assert(digit(v, dim, q) == 0);
        }
        let mut m = self.morton;
        m.set_level(self.level, i);
        proof {
            let w = m.value();
            assert(w == v + i * p);
            assert(w == (8 * big + i) * p) by (nonlinear_arith)
                requires
                    w == v + i * p,
                    v == big * (8 * p),
            ;
            lemma_pow2_adds(3 * q, 3);
            assert(pow8(q + 1) == pow8(q) * 8);
            assert(w < pow8(dim)) by (nonlinear_arith)
                requires
                    w == (8 * big + i) * p,
                    big < pow8(q),
                    i < 8,
                    p > 0,
                    pow8(dim) == pow8(q) * (8 * p),
            ;
            assert(w % p == 0 && w / p == 8 * big + i) by (nonlinear_arith)
                requires
                    w == (8 * big + i) * p,
                    p > 0,
            ;
            assert((dim - (self.level + 1)) as nat == k);
            assert(big == prefix(v, dim, q));
        }
        MortonRegion { morton: m, level: self.level + 1 }
    }
}

/// Whether some pair of `s` has the region `q` (key value, level).
pub open spec fn has_region<M: Morton, U>(s: Seq<(MortonRegion<M>, U)>, q: (nat, nat)) -> bool {
    exists|j: int| 0 <= j < s.len() && (#[trigger] s[j]).0@ == q
}

/// The regions of `primary` that are not regions of `secondary`, in `primary`'s order.
pub fn region_difference<M: Morton, S, U>(
    primary: &Vec<(MortonRegion<M>, S)>,
    secondary: &Vec<(MortonRegion<M>, U)>,
) -> (r: Vec<MortonRegion<M>>)
    ensures
        forall|j: int|
            0 <= j < r.len() ==> has_region(primary@, (#[trigger] r@[j])@) && !has_region(
                secondary@,
                r@[j]@,
            ),
        forall|i: int|
            0 <= i < primary.len() && !has_region(secondary@, (#[trigger] primary@[i]).0@)
                ==> exists|j: int| 0 <= j < r.len() && r@[j] == primary@[i].0,
{
    let mut out: Vec<MortonRegion<M>> = Vec::new();
    let mut i: usize = 0;
    while i < primary.len()
        invariant
            i <= primary.len(),
            forall|j: int|
                0 <= j < out.len() ==> has_region(primary@, (#[trigger] out@[j])@) && !has_region(
                    secondary@,
                    out@[j]@,
                ),
            forall|x: int|
                0 <= x < i && !has_region(secondary@, (#[trigger] primary@[x]).0@) ==> exists|j: int|
                    0 <= j < out.len() && out@[j] == primary@[x].0,
        decreases primary.len() - i,
    {
        let r = primary[i].0;
        let mut found = false;
        let mut k: usize = 0;
        while k < secondary.len()
            invariant
                k <= secondary.len(),
                r == primary@[i as int].0,
                found ==> has_region(secondary@, r@),
                !found ==> forall|y: int| 0 <= y < k ==> (#[trigger] secondary@[y]).0@ != r@,
            decreases secondary.len() - k,
        {
            let q = secondary[k].0;
            proof {
                M::lemma_model(q.morton, r.morton);
            }
            if q.level == r.level && q.morton.same(r.morton) {
                found = true;
                assert(secondary@[k as int].0@ == r@);
            }
            k = k + 1;
        }
        if !found {
            let ghost before = out@;
            out.push(r);
            proof {
                assert(primary@[i as int].0@ == r@);
                assert forall|j: int| 0 <= j < out.len() implies has_region(
                    primary@,
                    (#[trigger] out@[j])@,
                ) && !has_region(secondary@, out@[j]@) by {
                    if j < before.len() {
                        assert(out@[j] == before[j]);
                    }
                }
                assert forall|x: int|
                    0 <= x < i + 1 && !has_region(secondary@, (#[trigger] primary@[x]).0@) implies exists|j: int|
                    0 <= j < out.len() && out@[j] == primary@[x].0 by {
                    if x < i {
                        let j = choose|j: int| 0 <= j < before.len() && before[j] == primary@[x].0;
                        assert(out@[j] == before[j]);
                    } else {
                        assert(out@[before.len() as int] == r);
                    }
                }
            }
        }
        i = i + 1;
    }
    out
}

} // verus!
