//! A hasher for Morton keys that keeps the children of a region close together.
use vstd::prelude::*;

verus! {

/// The FNV-1a 64-bit offset basis.
pub const FNV_OFFSET: u64 = 0xcbf2_9ce4_8422_2325;

/// The FNV 64-bit prime.
pub const FNV_PRIME: u64 = 0x0100_0000_01b3;

/// The hash of a 64-bit key: its low three bits are kept as they are, and the bits above them
/// are mixed by one FNV round (the low three bits of the mix are cleared, so `|` adds).
pub open spec fn hash_u64(i: u64) -> u64 {
    let top = (i & !7u64) >> 3u64;
    ((top ^ FNV_OFFSET).wrapping_mul(FNV_PRIME) & !7u64) | (i & 7u64)
}

/// The hash of a 128-bit key: as for 64 bits, in 128-bit arithmetic, truncated to 64 bits.
pub open spec fn hash_u128(i: u128) -> u64 {
    let top = (i & !7u128) >> 3u128;
    (((top ^ (FNV_OFFSET as u128)).wrapping_mul(FNV_PRIME as u128) & !7u128) | (i & 7u128)) as u64
}

/// A hasher meant for one Morton key at a time: the key's low three bits stay in the hash, so
/// the eight children of a region hash to neighbouring values.
pub struct MortonHash {
    value: u64,
}

impl MortonHash {
    /// The hash so far.
    pub closed spec fn spec_value(&self) -> u64 {
        self.value
    }

    /// A hasher that has seen nothing: its value is zero.
    pub fn new() -> (r: Self)
        ensures
            r.spec_value() == 0,
    {
        MortonHash { value: 0 }
    }

    /// The hash of the last key written.
    pub fn finish(&self) -> (r: u64)
        ensures
            r == self.spec_value(),
    {
        self.value
    }

    /// Hashes a 64-bit key.
    pub fn write_u64(&mut self, i: u64)
        ensures
            final(self).spec_value() == hash_u64(i),
    {
        let bottom_mask: u64 = 7;
        let bottom = i & bottom_mask;
        let top = (i & !bottom_mask) >> 3u64;
        let y = (top ^ FNV_OFFSET).wrapping_mul(FNV_PRIME);
        let mixed = y & !bottom_mask;
        assert(mixed | bottom == mixed + bottom) by (bit_vector)
            requires
                mixed == y & !7u64,
                bottom == i & 7u64,
        ;
        self.value = mixed + bottom;
    }

    /// Hashes a 128-bit key.
    pub fn write_u128(&mut self, i: u128)
        ensures
            final(self).spec_value() == hash_u128(i),
    {
        let bottom_mask: u128 = 7;
        let bottom = i & bottom_mask;
        let top = (i & !bottom_mask) >> 3u128;
        let y = (top ^ (FNV_OFFSET as u128)).wrapping_mul(FNV_PRIME as u128);
        let mixed = y & !bottom_mask;
        assert(mixed | bottom == mixed + bottom) by (bit_vector)
            requires
                mixed == y & !7u128,
                bottom == i & 7u128,
        ;
        self.value = #[verifier::truncate] ((mixed + bottom) as u64);
    }
}

/// Locality: two 64-bit keys that agree above their low three bits hash to values that agree
/// above their low three bits, and each hash keeps its key's low three bits.
pub proof fn lemma_hash_u64_locality(a: u64, b: u64)
    requires
        a >> 3u64 == b >> 3u64,
    ensures
        hash_u64(a) >> 3u64 == hash_u64(b) >> 3u64,
        hash_u64(a) & 7u64 == a & 7u64,
{
    let ta = (a & !7u64) >> 3u64;
    let tb = (b & !7u64) >> 3u64;
    assert(ta == tb) by (bit_vector)
        requires
            a >> 3u64 == b >> 3u64,
            ta == (a & !7u64) >> 3u64,
            tb == (b & !7u64) >> 3u64,
    ;
    let y = (ta ^ FNV_OFFSET).wrapping_mul(FNV_PRIME);
    let x = y & !7u64;
    assert((x | (a & 7u64)) >> 3u64 == (x | (b & 7u64)) >> 3u64 && (x | (a & 7u64)) & 7u64 == a
        & 7u64) by (bit_vector)
        requires
            x == y & !7u64,
    ;
}

/// Locality for 128-bit keys: keys that agree above their low three bits hash to values that
/// agree above their low three bits, and each hash keeps its key's low three bits.
pub proof fn lemma_hash_u128_locality(a: u128, b: u128)
    requires
        a >> 3u128 == b >> 3u128,
    ensures
        hash_u128(a) >> 3u64 == hash_u128(b) >> 3u64,
        hash_u128(a) & 7u64 == (a & 7u128) as u64,
{
    let ta = (a & !7u128) >> 3u128;
    let tb = (b & !7u128) >> 3u128;
    assert(ta == tb) by (bit_vector)
        requires
            a >> 3u128 == b >> 3u128,
            ta == (a & !7u128) >> 3u128,
            tb == (b & !7u128) >> 3u128,
    ;
    let y = (ta ^ (FNV_OFFSET as u128)).wrapping_mul(FNV_PRIME as u128);
    let x = y & !7u128;
    assert(((x | (a & 7u128)) as u64) >> 3u64 == ((x | (b & 7u128)) as u64) >> 3u64 && ((x | (a
        & 7u128)) as u64) & 7u64 == (a & 7u128) as u64) by (bit_vector)
        requires
            x == y & !7u128,
    ;
}

} // verus!
