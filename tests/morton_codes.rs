use space::{Morton, MortonHash};

#[test]
fn test_write() {
    let mut hash = MortonHash::new();
    hash.write_u64(123);
    println!("hash={}", hash.finish());
}

#[test]
fn hash_of_u64_key() {
    let mut hash = MortonHash::new();
    hash.write_u64(123);
    assert_eq!(hash.finish(), 12638158613253308507);
}

#[test]
fn hash_of_u128_key() {
    let mut hash = MortonHash::new();
    hash.write_u128(123);
    assert_eq!(hash.finish(), 12638158613253308507);
}

#[test]
fn hash_keeps_low_bits_of_siblings() {
    let mut a = MortonHash::new();
    let mut b = MortonHash::new();
    a.write_u64(0b1010_000);
    b.write_u64(0b1010_101);
    assert_eq!(a.finish() >> 3, b.finish() >> 3);
    assert_eq!(a.finish() & 7, 0);
    assert_eq!(b.finish() & 7, 5);
}

#[test]
fn encode_u64_example() {
    assert_eq!(<u64 as Morton>::encode(1, 2, 3), 53);
    assert_eq!(Morton::decode(53u64), (1, 2, 3));
}

#[test]
fn encode_u128_example() {
    assert_eq!(<u128 as Morton>::encode(1, 2, 3), 53);
    assert_eq!(Morton::decode(53u128), (1, 2, 3));
}

#[test]
fn round_trip_u64_extremes() {
    let max = (1u64 << 21) - 1;
    for &(x, y, z) in &[(0, 0, 0), (max, 0, 0), (0, max, 0), (0, 0, max), (max, max, max), (12345, 678, 2097000)] {
        let m = <u64 as Morton>::encode(x, y, z);
        assert!(m.is_valid());
        assert_eq!(m.decode(), (x, y, z));
        assert_eq!(<u64 as Morton>::encode(m.decode().0, m.decode().1, m.decode().2), m);
    }
    assert_eq!(<u64 as Morton>::encode(max, max, max), (1u64 << 63) - 1);
}

#[test]
fn round_trip_u128_extremes() {
    let max = (1u128 << 42) - 1;
    for &(x, y, z) in &[(0, 0, 0), (max, 0, 0), (0, max, 0), (0, 0, max), (max, max, max), (1 << 21, 3 << 40, 77)] {
        let m = <u128 as Morton>::encode(x, y, z);
        assert!(m.is_valid());
        assert_eq!(m.decode(), (x, y, z));
    }
    assert_eq!(<u128 as Morton>::encode(max, max, max), (1u128 << 126) - 1);
    assert_eq!(<u128 as Morton>::encode(1 << 21, 0, 0), 1u128 << 63);
}

#[test]
fn encode_drops_bits_beyond_dimension() {
    assert_eq!(<u64 as Morton>::encode(1 << 21, 0, 0), 0);
    assert_eq!(<u64 as Morton>::encode((1 << 21) | 1, 0, 0), 1);
}

#[test]
fn levels_of_a_key() {
    let m = <u64 as Morton>::encode(1, 2, 3);
    assert_eq!(m.get_level(20), 5);
    assert_eq!(m.get_level(19), 6);
    assert_eq!(m.get_level(0), 0);
    let mut n = m;
    n.set_level(0, 7);
    assert_eq!(n, m | (7 << 60));
    n.set_level(20, 0);
    assert_eq!(n.get_level(20), 0);
    assert_eq!(n, (m | (7 << 60)) & !7);
}

#[test]
fn null_key() {
    assert_eq!(<u64 as Morton>::null(), u64::MAX);
    assert!(<u128 as Morton>::null().is_null());
    assert!(!0u64.is_null());
    assert!(!<u64 as Morton>::null().is_valid());
    assert_eq!(<u64 as Morton>::dim_bits(), 21);
    assert_eq!(<u128 as Morton>::dim_bits(), 42);
}

#[test]
fn masks_of_u64_keys() {
    assert_eq!(<u64 as Morton>::highest_bits(), 7 << 60);
    assert_eq!(<u64 as Morton>::used_bits(), (1 << 63) - 1);
    assert_eq!(<u64 as Morton>::unused_bits(), 1 << 63);
    assert_eq!(<u64 as Morton>::level_mask(0), 7 << 60);
    assert_eq!(<u64 as Morton>::level_mask(20), 7);
    let m = <u64 as Morton>::encode(5, 6, 7);
    assert_eq!(m.get_significant_bits(20), m);
    assert_eq!(m.get_significant_bits(19), m >> 3);
    let mut n = m;
    n.reset_level(20);
    assert_eq!(n, m & !7);
}

#[test]
fn masks_of_u128_keys() {
    assert_eq!(<u128 as Morton>::highest_bits(), 7 << 123);
    assert_eq!(<u128 as Morton>::used_bits(), (1 << 126) - 1);
    assert_eq!(<u128 as Morton>::unused_bits(), 3 << 126);
    assert_eq!(<u128 as Morton>::level_mask(41), 7);
    assert_eq!(<u128 as Morton>::level_mask(1), 7 << 120);
    let mut m = <u128 as Morton>::encode(1 << 41, 0, 0);
    assert_eq!(m.get_level(0), 1);
    assert_eq!(m.get_significant_bits(0), 1);
    m.set_level(0, 6);
    assert_eq!(m.get_level(0), 6);
    m.reset_level(0);
    assert_eq!(m, 0);
}
