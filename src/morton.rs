//! Morton codes: three coordinates interleaved bit by bit into one integer.
use bitintr::{Pdep, Pext};
use vstd::arithmetic::div_mod::{lemma_div_denominator, lemma_mod_breakdown};
use vstd::arithmetic::power2::{lemma2_to64, lemma2_to64_rest, lemma_pow2_adds, lemma_pow2_pos, pow2};
use vstd::bits::{lemma_u128_shr_is_div, lemma_u64_shr_is_div};
use vstd::prelude::*;

verus! {

/// `8^k`, the number of cells of level `k` below a cell.
pub open spec fn pow8(k: nat) -> nat {
    pow2(3 * k)
}

/// The 3-bit digit of `v` at `level` when it has `dim` levels (level 0 is the most significant).
pub open spec fn digit(v: nat, dim: nat, level: nat) -> nat {
    (v / pow8((dim - 1 - level) as nat)) % 8
}

/// The low `n` bits of `x`, bit `k` moved to bit `3k`.
pub open spec fn spread(x: nat, n: nat) -> nat
    decreases n,
{
    if n == 0 {
        0
    } else {
        8 * spread(x / 2, (n - 1) as nat) + x % 2
    }
}

/// Bits `0, 3, 6, ...` of `m`, `n` of them, packed together.
pub open spec fn extract(m: nat, n: nat) -> nat
    decreases n,
{
    if n == 0 {
        0
    } else {
        2 * extract(m / 8, (n - 1) as nat) + m % 2
    }
}

/// The Morton code of `(x, y, z)` with `n` bits per dimension.
pub open spec fn morton_of(x: nat, y: nat, z: nat, n: nat) -> nat {
    spread(x, n) + 2 * spread(y, n) + 4 * spread(z, n)
}

/// The coordinates held by the Morton code `m` with `n` bits per dimension.
pub open spec fn coords_of(m: nat, n: nat) -> (nat, nat, nat) {
    (extract(m, n), extract(m / 2, n), extract(m / 4, n))
}

proof fn lemma_step(s: nat, d: nat)
    requires
        d < 8,
    ensures
        (8 * s + d) / 8 == s,
        (8 * s + d) % 2 == d % 2,
        (8 * s + d) / 2 == 4 * s + d / 2,
        (8 * s + d) / 4 == 2 * s + d / 4,
        (4 * s + d / 2) / 8 == s / 2,
        (2 * s + d / 4) / 8 == s / 4,
        (4 * s + d / 2) % 2 == (d / 2) % 2,
        (2 * s + d / 4) % 2 == (d / 4) % 2,
{
    assert((8 * s + d) / 8 == s) by (nonlinear_arith)
        requires
            d < 8,
    ;
    assert((8 * s + d) % 2 == d % 2) by (nonlinear_arith)
        requires
            d < 8,
    ;
    assert((8 * s + d) / 2 == 4 * s + d / 2) by (nonlinear_arith)
        requires
            d < 8,
    ;
    assert((8 * s + d) / 4 == 2 * s + d / 4) by (nonlinear_arith)
        requires
            d < 8,
    ;
    assert((4 * s + d / 2) / 8 == s / 2) by (nonlinear_arith)
        requires
            d < 8,
    ;
    assert((2 * s + d / 4) / 8 == s / 4) by (nonlinear_arith)
        requires
            d < 8,
    ;
    assert((4 * s + d / 2) % 2 == (d / 2) % 2) by (nonlinear_arith)
        requires
            d < 8,
    ;
    assert((2 * s + d / 4) % 2 == (d / 4) % 2) by (nonlinear_arith)
        requires
            d < 8,
    ;
}

/// Decoding an encoded triplet gives the triplet back, when each coordinate fits in `n` bits.
pub proof fn lemma_decode_encode(x: nat, y: nat, z: nat, n: nat)
    requires
        x < pow2(n),
        y < pow2(n),
        z < pow2(n),
    ensures
        coords_of(morton_of(x, y, z, n), n) == (x, y, z),
    decreases n,
{
    if n == 0 {
        lemma2_to64();
    } else {
        let n1 = (n - 1) as nat;
        lemma_pow2_adds(1, n1);
        lemma2_to64();
        assert(x / 2 < pow2(n1) && y / 2 < pow2(n1) && z / 2 < pow2(n1));
        lemma_decode_encode(x / 2, y / 2, z / 2, n1);
        let s = morton_of(x / 2, y / 2, z / 2, n1);
        let d = x % 2 + 2 * (y % 2) + 4 * (z % 2);
        let m = morton_of(x, y, z, n);
        assert(m == 8 * s + d);
        lemma_step(s, d);
        assert(d / 2 == y % 2 + 2 * (z % 2));
        assert(d / 4 == z % 2);
        assert(extract(m, n) == 2 * extract(s, n1) + x % 2);
        assert(extract(m / 2, n) == 2 * extract(s / 2, n1) + y % 2);
        assert(extract(m / 4, n) == 2 * extract(s / 4, n1) + z % 2);
    }
}

/// Encoding the decoded coordinates of a code of `3 n` bits gives the code back.
pub proof fn lemma_encode_decode(m: nat, n: nat)
    requires
        m < pow8(n),
    ensures
        morton_of(coords_of(m, n).0, coords_of(m, n).1, coords_of(m, n).2, n) == m,
    decreases n,
{
    if n == 0 {
        lemma2_to64();
    } else {
        let n1 = (n - 1) as nat;
        let q = m / 8;
        let d = m % 8;
        lemma_pow2_adds(3, 3 * n1);
        lemma2_to64();
        assert(m == 8 * q + d);
        assert(q < pow8(n1)) by (nonlinear_arith)
            requires
                m == 8 * q + d,
                m < 8 * pow8(n1),
                d >= 0,
        ;
        lemma_encode_decode(q, n1);
        lemma_step(q, d);
        let (x, y, z) = coords_of(m, n);
        assert(x == 2 * extract(q, n1) + d % 2);
        assert(y == 2 * extract(q / 2, n1) + (d / 2) % 2);
        assert(z == 2 * extract(q / 4, n1) + (d / 4) % 2);
        assert(x / 2 == extract(q, n1) && x % 2 == d % 2);
        assert(y / 2 == extract(q / 2, n1) && y % 2 == (d / 2) % 2);
        assert(z / 2 == extract(q / 4, n1) && z % 2 == (d / 4) % 2);
        assert(d % 2 + 2 * ((d / 2) % 2) + 4 * ((d / 4) % 2) == d);
    }
}


/// A key whose unused top bits are zero: it names a cell of the finest level.
pub open spec fn is_valid_key<M: Morton>(m: M) -> bool {
    m.value() < pow8(M::spec_dim_bits())
}

/// The first `level` digits of a key, read as one number: the path of the region of that level
/// holding it.
pub open spec fn prefix(v: nat, dim: nat, level: nat) -> nat {
    v / pow8((dim - level) as nat)
}

/// The path one level down is the path of this level followed by the digit of this level.
pub proof fn lemma_prefix_step(v: nat, dim: nat, level: nat)
    requires
        level < dim,
    ensures
        prefix(v, dim, level + 1) == 8 * prefix(v, dim, level) + digit(v, dim, level),
{
    let k = (dim - level - 1) as nat;
    lemma_pow2_adds(3, 3 * k);
    lemma2_to64();
    lemma_pow2_pos(3 * k);
    assert(pow8((dim - level) as nat) == 8 * pow8(k));
    lemma_div_denominator(v as int, pow8(k) as int, 8);
    let w = v / pow8(k);
    assert(w == 8 * (w / 8) + w % 8);
}

proof fn lemma_mod_div(m: nat, a: nat, c: nat)
    requires
        a > 0,
        c > 0,
    ensures
        (m % (a * c)) / a == (m / a) % c,
        (m % (a * c)) % a == m % a,
{
    lemma_mod_breakdown(m as int, a as int, c as int);
    let q = (m / a) % c;
    let r = m % a;
    assert((a * q + r) / a == q && (a * q + r) % a == r) by (nonlinear_arith)
        requires
            a > 0,
            0 <= r < a,
            q >= 0,
    ;
}

/// `spread` reads only the low `n` bits.
proof fn lemma_spread_low(x: nat, n: nat)
    ensures
        spread(x % pow2(n), n) == spread(x, n),
    decreases n,
{
    if n > 0 {
        let n1 = (n - 1) as nat;
        lemma_pow2_adds(1, n1);
        lemma2_to64();
        lemma_pow2_pos(n1);
        lemma_mod_div(x, 2, pow2(n1));
        lemma_spread_low(x / 2, n1);
    } else {
        lemma2_to64();
    }
}

/// The spread of `a + b` bits is the spread of the high `b` bits above that of the low `a`.
proof fn lemma_spread_split(x: nat, a: nat, b: nat)
    ensures
        spread(x, a + b) == spread(x / pow2(a), b) * pow8(a) + spread(x, a),
    decreases a,
{
    lemma2_to64();
    if a > 0 {
        let a1 = (a - 1) as nat;
        lemma_spread_split(x / 2, a1, b);
        lemma_pow2_adds(1, a1);
        lemma_pow2_adds(3, 3 * a1);
        lemma_pow2_pos(a1);
        lemma_div_denominator(x as int, 2, pow2(a1) as int);
        assert(spread(x, a + b) == 8 * spread(x / 2, a1 + b) + x % 2);
        let s = spread(x / pow2(a), b);
        let p = pow8(a1);
        let t = spread(x / 2, a1);
        assert((x / 2) / pow2(a1) == x / pow2(a));
        assert(pow8(a) == 8 * p);
        assert(spread(x, a) == 8 * t + x % 2);
        assert(spread(x / 2, a1 + b) == s * p + t);
        assert(8 * (s * p + t) + x % 2 == s * (8 * p) + (8 * t + x % 2)) by (nonlinear_arith);
    } else {
        assert(x / 1 == x);
        assert(pow8(0) == 1);
        assert(spread(x, 0) == 0);
        assert(spread(x / pow2(a), b) == spread(x, b));
        assert(a + b == b);
    }
}

/// The code of `n` bits per dimension has `3 n` bits.
proof fn lemma_morton_bound(x: nat, y: nat, z: nat, n: nat)
    ensures
        morton_of(x, y, z, n) < pow8(n),
    decreases n,
{
    lemma2_to64();
    if n > 0 {
        let n1 = (n - 1) as nat;
        lemma_morton_bound(x / 2, y / 2, z / 2, n1);
        lemma_pow2_adds(3, 3 * n1);
        assert(morton_of(x, y, z, n) == 8 * morton_of(x / 2, y / 2, z / 2, n1) + x % 2 + 2 * (y % 2)
            + 4 * (z % 2));
    }
}

/// `extract` of `n` digits reads only the low `3 n - 2` bits.
proof fn lemma_extract_low(m: nat, k: nat, n: nat)
    requires
        n >= 1,
        k + 2 >= 3 * n,
    ensures
        extract(m % pow2(k), n) == extract(m, n),
    decreases n,
{
    lemma2_to64();
    let k1 = (k - 1) as nat;
    lemma_pow2_adds(1, k1);
    lemma_pow2_pos(k1);
    lemma_mod_div(m, 2, pow2(k1));
    if n > 1 {
        let k3 = (k - 3) as nat;
        let n1 = (n - 1) as nat;
        lemma_pow2_adds(3, k3);
        lemma_pow2_pos(k3);
        lemma_mod_div(m, 8, pow2(k3));
        lemma_extract_low(m / 8, k3, n1);
        assert(extract(m % pow2(k), n) == 2 * extract((m % pow2(k)) / 8, n1) + (m % pow2(k)) % 2);
        assert(extract(m, n) == 2 * extract(m / 8, n1) + m % 2);
        assert(pow2(k) == 8 * pow2(k3));
    } else {
        assert(extract((m % pow2(k)) / 8, 0) == 0);
        assert(extract(m / 8, 0) == 0);
    }
}

/// Extracting `a + b` digits: the high `b` above the low `a`.
proof fn lemma_extract_split(m: nat, a: nat, b: nat)
    ensures
        extract(m, a + b) == extract(m / pow8(a), b) * pow2(a) + extract(m, a),
    decreases a,
{
    lemma2_to64();
    if a > 0 {
        let a1 = (a - 1) as nat;
        lemma_extract_split(m / 8, a1, b);
        lemma_pow2_adds(1, a1);
        lemma_pow2_adds(3, 3 * a1);
        lemma_pow2_pos(3 * a1);
        lemma_div_denominator(m as int, 8, pow8(a1) as int);
        assert(extract(m, a + b) == 2 * extract(m / 8, a1 + b) + m % 2);
        let s = extract(m / pow8(a), b);
        let p = pow2(a1);
        let t = extract(m / 8, a1);
        assert(2 * (s * p + t) + m % 2 == s * (2 * p) + (2 * t + m % 2)) by (nonlinear_arith);
    } else {
        assert(m / 1 == m);
    }
}

proof fn lemma_extract_bound(m: nat, n: nat)
    ensures
        extract(m, n) < pow2(n),
    decreases n,
{
    lemma2_to64();
    if n > 0 {
        let n1 = (n - 1) as nat;
        lemma_extract_bound(m / 8, n1);
        lemma_pow2_adds(1, n1);
    }
}

/// An integer key of a fixed width holding a Morton code of three dimensions.
pub trait Morton: Sized + Copy + Eq + std::hash::Hash {
    /// The integer the key holds.
    spec fn value(self) -> nat;

    /// The width of the key in bits.
    spec fn spec_bits() -> nat;

    /// The number of bits of each dimension: a third of the width.
    spec fn spec_dim_bits() -> nat;

    /// The key is determined by its integer, which fits its width; it can key a hash map.
    proof fn lemma_model(a: Self, b: Self)
        ensures
            Self::spec_dim_bits() == Self::spec_bits() / 3,
            0 < Self::spec_dim_bits() < Self::spec_bits() <= 128,
            a.value() < pow2(Self::spec_bits()),
            pow8(Self::spec_dim_bits()) < pow2(Self::spec_bits()),
            a.value() == b.value() ==> a == b,
            vstd::std_specs::hash::obeys_key_model::<Self>(),
    ;

    /// The key holding the integer `v`.
    spec fn spec_from(v: nat) -> Self;

    /// `spec_from` gives back any integer of the width.
    proof fn lemma_from(v: nat)
        requires
            v < pow2(Self::spec_bits()),
        ensures
            Self::spec_from(v).value() == v,
    ;

    /// The number of bits of each dimension.
    fn dim_bits() -> (r: usize)
        ensures
            r == Self::spec_dim_bits(),
    ;

    /// Interleaves the bits of `x`, `y` and `z`: bit `k` of each goes to bit `3k`, `3k + 1`
    /// and `3k + 2`; bits beyond `dim_bits` of a coordinate are dropped.
    fn encode(x: Self, y: Self, z: Self) -> (r: Self)
        ensures
            r.value() == morton_of(x.value(), y.value(), z.value(), Self::spec_dim_bits()),
    ;

    /// Splits the code back into `(x, y, z)`.
    fn decode(self) -> (r: (Self, Self, Self))
        ensures
            (r.0.value(), r.1.value(), r.2.value()) == coords_of(
                self.value(),
                Self::spec_dim_bits(),
            ),
    ;

    /// The octant digit in `[0, 8)` at `level`; level 0 is the most significant triplet.
    fn get_level(self, level: usize) -> (r: usize)
        requires
            level < Self::spec_dim_bits(),
        ensures
            r == digit(self.value(), Self::spec_dim_bits(), level as nat),
            r < 8,
    ;

    /// Replaces the digit at `level` with `val`.
    fn set_level(&mut self, level: usize, val: usize)
        requires
            level < Self::spec_dim_bits(),
            val < 8,
        ensures
            final(self).value() == old(self).value() + (val - digit(
                old(self).value(),
                Self::spec_dim_bits(),
                level as nat,
            )) * pow8((Self::spec_dim_bits() - 1 - level) as nat),
    ;

    /// Clears the digit at `level`.
    fn reset_level(&mut self, level: usize)
        requires
            level < Self::spec_dim_bits(),
        ensures
            final(self).value() == old(self).value() - digit(
                old(self).value(),
                Self::spec_dim_bits(),
                level as nat,
            ) * pow8((Self::spec_dim_bits() - 1 - level) as nat),
    ;

    /// The digits of levels `0..=level`, shifted down: the path of the region of depth
    /// `level + 1` that holds the key, above the unused bits.
    fn get_significant_bits(self, level: usize) -> (r: Self)
        requires
            level < Self::spec_dim_bits(),
        ensures
            r.value() == self.value() / pow8((Self::spec_dim_bits() - 1 - level) as nat),
    ;

    /// The three bits of the digit at `level`, set.
    fn level_mask(level: usize) -> (r: Self)
        requires
            level < Self::spec_dim_bits(),
        ensures
            r.value() == 7 * pow8((Self::spec_dim_bits() - 1 - level) as nat),
    ;

    /// The three bits of the digit at level 0, set.
    fn highest_bits() -> (r: Self)
        ensures
            r.value() == 7 * pow8((Self::spec_dim_bits() - 1) as nat),
    ;

    /// The bits a valid key may use, set.
    fn used_bits() -> (r: Self)
        ensures
            r.value() == pow8(Self::spec_dim_bits()) - 1,
    ;

    /// The bits a valid key leaves zero, set.
    fn unused_bits() -> (r: Self)
        ensures
            r.value() == pow2(Self::spec_bits()) - pow8(Self::spec_dim_bits()),
    ;

    /// The sentinel with every bit set; no valid key equals it.
    fn null() -> (r: Self)
        ensures
            r.value() == pow2(Self::spec_bits()) - 1,
    ;

    /// Whether this is the sentinel of `null`.
    fn is_null(self) -> (r: bool)
        ensures
            r == (self.value() == pow2(Self::spec_bits()) - 1),
    ;

    /// Whether the unused top bits are all zero.
    fn is_valid(self) -> (r: bool)
        ensures
            r == (self.value() < pow8(Self::spec_dim_bits())),
    ;

    /// Key equality.
    fn same(self, other: Self) -> (r: bool)
        ensures
            r == (self == other),
    ;

    /// The key zero: the first cell, and the path of the root region.
    fn zero() -> (r: Self)
        ensures
            r.value() == 0,
    ;
}

/// Every third bit, from bit 0 up to bit 60.
pub const LANE: u64 = 0x1249_2492_4924_9249;

/// Relies on bitintr's `Pdep::pdep` on u64: the low bits of `x` go, in order, to the set bits
/// of `mask`, and every other bit is zero. With `mask` one of the three lanes this puts bit `k`
/// of `x` at bit `3k` (shifted by the lane's offset) for `k < 21`.
#[verifier::external_body]
fn deposit(x: u64, mask: u64) -> (r: u64)
    requires
        mask == LANE || mask == 0x2492_4924_9249_2492 || mask == 0x4924_9249_2492_4924,
    ensures
        r & mask == r,
        mask == LANE ==> r == spread(x as nat, 21),
        mask == 0x2492_4924_9249_2492 ==> r == 2 * spread(x as nat, 21),
        mask == 0x4924_9249_2492_4924 ==> r == 4 * spread(x as nat, 21),
{
    x.pdep(mask)
}

/// Relies on bitintr's `Pext::pext` on u64: the bits of `m` at the set bits of `mask` are
/// packed, in order, into the low bits of the result. With `mask` one of the three lanes this
/// takes bits `3k` (shifted by the lane's offset) for `k < 21`.
#[verifier::external_body]
fn gather_lane(m: u64, mask: u64) -> (r: u64)
    requires
        mask == LANE || mask == 0x2492_4924_9249_2492 || mask == 0x4924_9249_2492_4924,
    ensures
        mask == LANE ==> r == extract(m as nat, 21),
        mask == 0x2492_4924_9249_2492 ==> r == extract(m as nat / 2, 21),
        mask == 0x4924_9249_2492_4924 ==> r == extract(m as nat / 4, 21),
{
    m.pext(mask)
}

proof fn lemma_u64_facts()
    ensures
        pow8(21) == 0x8000_0000_0000_0000,
        pow2(64) == 0x1_0000_0000_0000_0000,
{
    lemma2_to64();
    lemma2_to64_rest();
}

impl Morton for u64 {
    open spec fn value(self) -> nat {
        self as nat
    }

    open spec fn spec_bits() -> nat {
        64
    }

    open spec fn spec_dim_bits() -> nat {
        21
    }

    proof fn lemma_model(a: Self, b: Self) {
        lemma_u64_facts();
        broadcast use vstd::std_specs::hash::axiom_u64_obeys_hash_table_key_model;

    }

    open spec fn spec_from(v: nat) -> Self {
        v as u64
    }

    proof fn lemma_from(v: nat) {
        lemma_u64_facts();
    }

    fn dim_bits() -> (r: usize) {
        21
    }

    fn encode(x: Self, y: Self, z: Self) -> (r: Self) {
        let a = deposit(x, LANE);
        let b = deposit(y, 0x2492_4924_9249_2492);
        let c = deposit(z, 0x4924_9249_2492_4924);
        assert(c | b | a == a + b + c) by (bit_vector)
            requires
                a & 0x1249_2492_4924_9249 == a,
                b & 0x2492_4924_9249_2492 == b,
                c & 0x4924_9249_2492_4924 == c,
        ;
        c | b | a
    }

    fn decode(self) -> (r: (Self, Self, Self)) {
        let x = gather_lane(self, LANE);
        let y = gather_lane(self, 0x2492_4924_9249_2492);
        let z = gather_lane(self, 0x4924_9249_2492_4924);
        (x, y, z)
    }

    fn get_level(self, level: usize) -> (r: usize) {
        let s: u64 = (3 * (20 - level)) as u64;
        let t = self >> s;
        proof {
            lemma_u64_shr_is_div(self, s);
            assert(t & 7 == t % 8) by (bit_vector);
        }
        (t & 7) as usize
    }

    fn set_level(&mut self, level: usize, val: usize) {
        let s: u64 = (3 * (20 - level)) as u64;
        let x = *self;
        let v = val as u64;
        let r = (x & !(7u64 << s)) | (v << s);
        proof {
            let d = (x >> s) & 7;
            assert(r == x - (d << s) + (v << s) && d << s <= x && d < 8) by (bit_vector)
                requires
                    r == (x & !(7u64 << s)) | (v << s),
                    d == (x >> s) & 7,
                    v < 8,
                    s <= 60,
            ;
            lemma_u64_shr_is_div(x, s);
            assert((x >> s) & 7 == (x >> s) % 8) by (bit_vector);
            lemma2_to64();
            lemma2_to64_rest();
            lemma_pow2_pos(s as nat);
            vstd::bits::lemma_u64_pow2_no_overflow(s as nat);
            assert(d * pow2(s as nat) <= 7 * pow2(60)) by (nonlinear_arith)
                requires
                    d < 8,
                    pow2(s as nat) <= pow2(60),
            ;
            assert(v * pow2(s as nat) <= 7 * pow2(60)) by (nonlinear_arith)
                requires
                    v < 8,
                    pow2(s as nat) <= pow2(60),
            ;
            if s < 60 {
                vstd::arithmetic::power2::lemma_pow2_strictly_increases(s as nat, 60);
            }
            vstd::bits::lemma_u64_shl_is_mul(d, s);
            vstd::bits::lemma_u64_shl_is_mul(v, s);
            assert(s as nat == 3 * ((21 - 1 - level) as nat));
            let p = pow2(s as nat);
            assert(r == x + (v - d) * p) by (nonlinear_arith)
                requires
                    r == x - d * p + v * p,
            ;
        }
        *self = r;
    }

    fn reset_level(&mut self, level: usize) {
        let ghost before = self.value();
        self.set_level(level, 0);
        proof {
            let d = digit(before, Self::spec_dim_bits(), level as nat);
            let p = pow8((Self::spec_dim_bits() - 1 - level) as nat);
            assert((0 - d) * p == -(d * p)) by (nonlinear_arith);
        }
    }

    fn get_significant_bits(self, level: usize) -> (r: Self) {
        let s: u64 = (3 * (20 - level)) as u64;
        proof {
            lemma_u64_shr_is_div(self, s);
        }
        self >> s
    }

    fn level_mask(level: usize) -> (r: Self) {
        let s: u64 = (3 * level) as u64;
        let h: u64 = 0x7000_0000_0000_0000;
        proof {
            lemma_u64_shr_is_div(h, s);
            lemma2_to64();
            lemma2_to64_rest();
            let k = (60 - 3 * level) as nat;
            lemma_pow2_adds(s as nat, k);
            lemma_pow2_pos(s as nat);
            assert(pow2(60) == 0x1000_0000_0000_0000);
            let a = pow2(s as nat);
            let b = pow2(k);
            assert((7 * (a * b)) / a == 7 * b) by (nonlinear_arith)
                requires
                    a > 0,
            ;
            assert(k == 3 * ((21 - 1 - level) as nat));
        }
        h >> s
    }

    fn highest_bits() -> (r: Self) {
        proof {
            lemma2_to64();
            lemma2_to64_rest();
        }
        0x7000_0000_0000_0000
    }

    fn used_bits() -> (r: Self) {
        proof {
            lemma_u64_facts();
        }
        0x7fff_ffff_ffff_ffff
    }

    fn unused_bits() -> (r: Self) {
        proof {
            lemma_u64_facts();
        }
        0x8000_0000_0000_0000
    }

    fn null() -> (r: Self) {
        proof {
            lemma_u64_facts();
            assert(!0u64 == 0xffff_ffff_ffff_ffffu64) by (bit_vector);
        }
        !0u64
    }

    fn is_null(self) -> (r: bool) {
        proof {
            lemma_u64_facts();
            assert(!0u64 == 0xffff_ffff_ffff_ffffu64) by (bit_vector);
        }
        self == !0u64
    }

    fn is_valid(self) -> (r: bool) {
        proof {
            lemma_u64_facts();
        }
        self < 0x8000_0000_0000_0000
    }

    fn same(self, other: Self) -> (r: bool) {
        self == other
    }

    fn zero() -> (r: Self) {
        0
    }
}


proof fn lemma_u128_facts()
    ensures
        pow8(21) == 0x8000_0000_0000_0000,
        pow2(21) == 0x20_0000,
        pow2(63) == 0x8000_0000_0000_0000,
        pow2(64) == 0x1_0000_0000_0000_0000,
        pow8(42) == 0x8000_0000_0000_0000 * 0x8000_0000_0000_0000,
        pow2(128) == 0x1_0000_0000_0000_0000 * 0x1_0000_0000_0000_0000,
        pow2(62) == 0x4000_0000_0000_0000,
{
    lemma2_to64();
    lemma2_to64_rest();
    lemma_pow2_adds(63, 63);
    lemma_pow2_adds(64, 64);
}

/// `1 << s` is `2^s` in u128.
proof fn lemma_u128_one_shl(s: u128)
    requires
        s < 128,
    ensures
        (1u128 << s) as nat == pow2(s as nat),
    decreases s,
{
    lemma2_to64();
    if s == 0 {
        assert(1u128 << 0u128 == 1) by (bit_vector);
    } else {
        let t = (s - 1) as u128;
        lemma_u128_one_shl(t);
        assert(1u128 << s == 2 * (1u128 << t)) by (bit_vector)
            requires
                t < 127,
                s == t + 1,
        ;
        lemma_pow2_adds(1, t as nat);
    }
}

impl Morton for u128 {
    open spec fn value(self) -> nat {
        self as nat
    }

    open spec fn spec_bits() -> nat {
        128
    }

    open spec fn spec_dim_bits() -> nat {
        42
    }

    proof fn lemma_model(a: Self, b: Self) {
        lemma_u128_facts();
        broadcast use vstd::std_specs::hash::axiom_u128_obeys_hash_table_key_model;

    }

    open spec fn spec_from(v: nat) -> Self {
        v as u128
    }

    proof fn lemma_from(v: nat) {
        lemma_u128_facts();
    }

    fn dim_bits() -> (r: usize) {
        42
    }

    fn encode(x: Self, y: Self, z: Self) -> (r: Self) {
        let lx = (x & 0x1f_ffff) as u64;
        let ly = (y & 0x1f_ffff) as u64;
        let lz = (z & 0x1f_ffff) as u64;
        let hx = ((x >> 21u128) & 0x1f_ffff) as u64;
        let hy = ((y >> 21u128) & 0x1f_ffff) as u64;
        let hz = ((z >> 21u128) & 0x1f_ffff) as u64;
        let high = u64::encode(hx, hy, hz);
        let low = u64::encode(lx, ly, lz);
        proof {
            lemma_u128_facts();
            assert forall|c: u128|
                (c & 0x1f_ffff) as nat == c as nat % pow2(21) && ((c >> 21u128) & 0x1f_ffff) as nat
                    == (c as nat / pow2(21)) % pow2(21) by {
                assert(c & 0x1f_ffff == c % 0x20_0000) by (bit_vector);
                assert((c >> 21u128) & 0x1f_ffff == (c >> 21u128) % 0x20_0000) by (bit_vector);
                lemma_u128_shr_is_div(c, 21);
            }
            lemma_spread_low(x as nat, 21);
            lemma_spread_low(y as nat, 21);
            lemma_spread_low(z as nat, 21);
            lemma_spread_low(x as nat / pow2(21), 21);
            lemma_spread_low(y as nat / pow2(21), 21);
            lemma_spread_low(z as nat / pow2(21), 21);
            lemma_spread_split(x as nat, 21, 21);
            lemma_spread_split(y as nat, 21, 21);
            lemma_spread_split(z as nat, 21, 21);
            lemma_morton_bound(hx as nat, hy as nat, hz as nat, 21);
            lemma_morton_bound(lx as nat, ly as nat, lz as nat, 21);
            let h = high as u128;
            let l = low as u128;
            assert((h << 63u128) | l == h * 0x8000_0000_0000_0000 + l) by (bit_vector)
                requires
                    h < 0x8000_0000_0000_0000,
                    l < 0x8000_0000_0000_0000,
            ;
            let sx = spread(x as nat / pow2(21), 21);
            let sy = spread(y as nat / pow2(21), 21);
            let sz = spread(z as nat / pow2(21), 21);
            let tx = spread(x as nat, 21);
            let ty = spread(y as nat, 21);
            let tz = spread(z as nat, 21);
            let p = pow8(21);
            assert((sx + 2 * sy + 4 * sz) * p + (tx + 2 * ty + 4 * tz) == (sx * p + tx) + 2 * (sy * p
                + ty) + 4 * (sz * p + tz)) by (nonlinear_arith);
        }
        ((high as u128) << 63u128) | (low as u128)
    }

    fn decode(self) -> (r: (Self, Self, Self)) {
        let low = self as u64;
        let high = (self >> 63u128) as u64;
        let (lx, ly, lz) = low.decode();
        let (hx, hy, hz) = high.decode();
        proof {
            lemma_u128_facts();
            let m = self as nat;
            lemma_u128_shr_is_div(self, 63);
            let sh = self >> 63u128;
            assert(self as u64 as u128 == self % 0x1_0000_0000_0000_0000) by (bit_vector);
            assert(sh as u64 as u128 == sh % 0x1_0000_0000_0000_0000) by (bit_vector);
            assert(low as nat == m % pow2(64));
            let hi = m / pow2(63);
            assert(high as nat == hi % pow2(64));
            lemma_mod_div(m, 2, pow2(63));
            lemma_mod_div(m, 4, pow2(62));
            lemma_mod_div(hi, 2, pow2(63));
            lemma_mod_div(hi, 4, pow2(62));
            lemma_extract_low(m, 64, 21);
            lemma_extract_low(m / 2, 63, 21);
            lemma_extract_low(m / 4, 62, 21);
            lemma_extract_low(hi, 64, 21);
            lemma_extract_low(hi / 2, 63, 21);
            lemma_extract_low(hi / 4, 62, 21);
            lemma_extract_split(m, 21, 21);
            lemma_extract_split(m / 2, 21, 21);
            lemma_extract_split(m / 4, 21, 21);
            lemma_div_denominator(m as int, 2, pow2(63) as int);
            lemma_div_denominator(m as int, pow2(63) as int, 2);
            lemma_div_denominator(m as int, 4, pow2(63) as int);
            lemma_div_denominator(m as int, pow2(63) as int, 4);
            lemma_extract_bound(hi % pow2(64), 21);
            lemma_extract_bound(m % pow2(64), 21);
            lemma_extract_bound((hi % pow2(64)) / 2, 21);
            lemma_extract_bound((m % pow2(64)) / 2, 21);
            lemma_extract_bound((hi % pow2(64)) / 4, 21);
            lemma_extract_bound((m % pow2(64)) / 4, 21);
            assert forall|a: u64, b: u64| a < 0x20_0000 && b < 0x20_0000 implies ((a << 21u64) | b)
                == a * 0x20_0000 + b by {
                assert(a < 0x20_0000 && b < 0x20_0000 ==> ((a << 21u64) | b) == a * 0x20_0000 + b)
                    by (bit_vector);
            }
        }
        (((hx << 21u64) | lx) as u128, ((hy << 21u64) | ly) as u128, ((hz << 21u64) | lz) as u128)
    }

    fn get_level(self, level: usize) -> (r: usize) {
        let s: u128 = (3 * (41 - level)) as u128;
        let t = self >> s;
        proof {
            lemma_u128_shr_is_div(self, s);
            assert(t & 7 == t % 8) by (bit_vector);
        }
        (t & 7) as usize
    }

    fn set_level(&mut self, level: usize, val: usize) {
        let s: u128 = (3 * (41 - level)) as u128;
        let x = *self;
        let v = val as u128;
        let r = (x & !(7u128 << s)) | (v << s);
        proof {
            let d = (x >> s) & 7;
            assert(r == x - (d << s) + (v << s) && d << s <= x && d < 8) by (bit_vector)
                requires
                    r == (x & !(7u128 << s)) | (v << s),
                    d == (x >> s) & 7,
                    v < 8,
                    s <= 123,
            ;
            assert(d << s == d * (1u128 << s) && v << s == v * (1u128 << s)) by (bit_vector)
                requires
                    d < 8,
                    v < 8,
                    s <= 123,
            ;
            lemma_u128_one_shl(s);
            lemma_u128_shr_is_div(x, s);
            assert((x >> s) & 7 == (x >> s) % 8) by (bit_vector);
            assert(s as nat == 3 * ((42 - 1 - level) as nat));
            let p = pow2(s as nat);
            assert(r == x + (v - d) * p) by (nonlinear_arith)
                requires
                    r == x - d * p + v * p,
            ;
        }
        *self = r;
    }

    fn reset_level(&mut self, level: usize) {
        let ghost before = self.value();
        self.set_level(level, 0);
        proof {
            let d = digit(before, Self::spec_dim_bits(), level as nat);
            let p = pow8((Self::spec_dim_bits() - 1 - level) as nat);
            assert((0 - d) * p == -(d * p)) by (nonlinear_arith);
        }
    }

    fn get_significant_bits(self, level: usize) -> (r: Self) {
        let s: u128 = (3 * (41 - level)) as u128;
        proof {
            lemma_u128_shr_is_div(self, s);
        }
        self >> s
    }

    fn level_mask(level: usize) -> (r: Self) {
        let s: u128 = (3 * level) as u128;
        let h: u128 = 0x3800_0000_0000_0000_0000_0000_0000_0000;
        proof {
            lemma_u128_shr_is_div(h, s);
            lemma_u128_facts();
            let k = (123 - 3 * level) as nat;
            lemma_pow2_adds(s as nat, k);
            lemma_pow2_pos(s as nat);
            lemma_pow2_adds(63, 60);
            lemma2_to64_rest();
            assert(pow2(123) == 0x800_0000_0000_0000_0000_0000_0000_0000);
            let a = pow2(s as nat);
            let b = pow2(k);
            assert((7 * (a * b)) / a == 7 * b) by (nonlinear_arith)
                requires
                    a > 0,
            ;
            assert(k == 3 * ((42 - 1 - level) as nat));
        }
        h >> s
    }

    fn highest_bits() -> (r: Self) {
        proof {
            lemma_u128_facts();
            lemma2_to64_rest();
            lemma_pow2_adds(63, 60);
        }
        0x3800_0000_0000_0000_0000_0000_0000_0000
    }

    fn used_bits() -> (r: Self) {
        proof {
            lemma_u128_facts();
        }
        0x3fff_ffff_ffff_ffff_ffff_ffff_ffff_ffff
    }

    fn unused_bits() -> (r: Self) {
        proof {
            lemma_u128_facts();
        }
        0xc000_0000_0000_0000_0000_0000_0000_0000
    }

    fn null() -> (r: Self) {
        proof {
            lemma_u128_facts();
            assert(!0u128 == 0xffff_ffff_ffff_ffff_ffff_ffff_ffff_ffffu128) by (bit_vector);
        }
        !0u128
    }

    fn is_null(self) -> (r: bool) {
        proof {
            lemma_u128_facts();
            assert(!0u128 == 0xffff_ffff_ffff_ffff_ffff_ffff_ffff_ffffu128) by (bit_vector);
        }
        self == !0u128
    }

    fn is_valid(self) -> (r: bool) {
        proof {
            lemma_u128_facts();
        }
        self < 0x4000_0000_0000_0000_0000_0000_0000_0000
    }

    fn same(self, other: Self) -> (r: bool) {
        self == other
    }

    fn zero() -> (r: Self) {
        0
    }
}

} // verus!
