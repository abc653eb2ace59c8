use rand::distributions::Open01;
use rand::rngs::SmallRng;
use rand::{Rng, SeedableRng};
use space::{
    invalidate_region_cache, morton_levels, region_difference, CountFolder, RegionCache, Folder, Internal, LinearOctree, Morton,
    MortonRegion, Oct, PointerOctree,
};
use std::collections::HashSet;

fn enc(x: u64, y: u64, z: u64) -> u64 {
    <u64 as Morton>::encode(x, y, z)
}

#[test]
fn pointer_get_inserted() {
    let mut tree = PointerOctree::<String, u64>::new();
    tree.insert(enc(1, 2, 3), "a".to_string());
    assert_eq!(tree.get(enc(1, 2, 3)), Some(&"a".to_string()));
    assert_eq!(tree.get(enc(4, 5, 6)), None);
    assert_eq!(tree.get_mut(enc(1, 2, 3)), Some(&"a".to_string()));
}

#[test]
fn pointer_empty_lookup() {
    let tree = PointerOctree::<String, u64>::new();
    assert!(tree.get(enc(1, 2, 3)).is_none());
    assert!(tree.is_empty());
    assert_eq!(tree.len(), 0);
}

#[test]
fn linear_get_inserted() {
    let mut tree = LinearOctree::<String, u64>::new();
    tree.insert(enc(1, 2, 3), "a".to_string());
    tree.insert(enc(4, 5, 6), "b".to_string());
    assert_eq!(tree.get(enc(1, 2, 3)), Some(&"a".to_string()));
    assert_eq!(tree.get(enc(4, 5, 6)), Some(&"b".to_string()));
    assert_eq!(tree.get(enc(7, 8, 9)), None);
}

#[test]
fn linear_iter_visits_each_leaf() {
    let mut tree = LinearOctree::<String, u64>::new();
    let data = vec![(1u64, "One".to_string()), (2, "Two".to_string()), (3, "Three".to_string())];
    for (m, v) in data.iter() {
        tree.insert(*m, v.clone());
    }
    let mut seen = 0;
    for (m, v) in tree.iter() {
        assert!(data.contains(&(*m, v.clone())));
        seen += 1;
    }
    assert_eq!(seen, 3);
}

#[test]
fn test_octree_insert_rand() {
    let xrng = SmallRng::from_seed([1; 16]);
    let yrng = SmallRng::from_seed([4; 16]);
    let zrng = SmallRng::from_seed([0; 16]);
    let scale = (1u128 << 42) as f64;
    let items: Vec<(u128, i32)> = xrng
        .sample_iter(&Open01)
        .zip(yrng.sample_iter(&Open01))
        .zip(zrng.sample_iter(&Open01))
        .take(5000)
        .map(|((x, y), z): ((f64, f64), f64)| {
            let c = |v: f64| ((v * scale) as u128).min((1u128 << 42) - 1);
            (<u128 as Morton>::encode(c(x), c(y), c(z)), 0)
        })
        .collect();
    let mut octree = PointerOctree::<_, u128>::new();
    octree.extend(items);
    assert_eq!(octree.iter().len(), 5000);
}

#[test]
fn pointer_many_distinct_u128_keys() {
    let mut rng = SmallRng::from_seed([7; 16]);
    let mut keys = HashSet::new();
    while keys.len() < 5000 {
        let x: u128 = rng.gen_range(0, 1u128 << 42);
        let y: u128 = rng.gen_range(0, 1u128 << 42);
        let z: u128 = rng.gen_range(0, 1u128 << 42);
        keys.insert(<u128 as Morton>::encode(x, y, z));
    }
    let mut tree = PointerOctree::<u32, u128>::new();
    for (i, k) in keys.iter().enumerate() {
        tree.insert(*k, i as u32);
    }
    assert_eq!(tree.len(), 5000);
    let items = tree.iter();
    assert_eq!(items.len(), 5000);
    let seen: HashSet<u128> = items.iter().map(|(k, _)| *k).collect();
    assert_eq!(seen, keys);
}

#[test]
fn pointer_remove_round_trip() {
    let mut tree = PointerOctree::<String, u64>::new();
    let m = enc(1, 2, 3);
    assert_eq!(tree.remove(m), None);
    tree.insert(m, "hello".to_string());
    tree.insert(enc(1, 2, 4), "other".to_string());
    assert_eq!(tree.len(), 2);
    assert_eq!(tree.remove(m), Some("hello".to_string()));
    assert_eq!(tree.len(), 1);
    assert_eq!(tree.remove(m), None);
    assert_eq!(tree.get(m), None);
    assert_eq!(tree.get(enc(1, 2, 4)), Some(&"other".to_string()));
    assert_eq!(tree.len(), 1);
}

#[test]
fn pointer_remove_absent_neighbour_keeps_leaf() {
    let mut tree = PointerOctree::<u8, u64>::new();
    tree.insert(enc(1, 1, 1), 9);
    assert_eq!(tree.remove(enc(0, 0, 0)), None);
    assert_eq!(tree.get(enc(1, 1, 1)), Some(&9));
}

#[test]
fn distinct_insertions_count_and_lookup() {
    let keys: Vec<u64> = (0..200u64).map(|i| enc(i * 7 % 64, i, (i * 13) % 97)).collect();
    let mut p = PointerOctree::<u64, u64>::new();
    let mut l = LinearOctree::<u64, u64>::new();
    for (i, k) in keys.iter().enumerate() {
        p.insert(*k, i as u64);
        l.insert(*k, i as u64);
    }
    assert_eq!(p.len(), 200);
    for (i, k) in keys.iter().enumerate() {
        assert_eq!(p.get(*k), Some(&(i as u64)));
        assert_eq!(l.get(*k), Some(&(i as u64)));
    }
    assert_eq!(l.iter().count(), 200);
    assert_eq!(l.len(), 200);
    assert!(!l.is_empty());
    assert!(LinearOctree::<u8, u64>::new().is_empty());
}

#[test]
fn second_insert_wins() {
    let mut p = PointerOctree::<&str, u64>::new();
    let mut l = LinearOctree::<&str, u64>::new();
    let m = enc(5, 6, 7);
    p.insert(m, "first");
    l.insert(m, "first");
    p.insert(m, "second");
    l.insert(m, "second");
    assert_eq!(p.len(), 1);
    assert_eq!(p.get(m), Some(&"second"));
    assert_eq!(l.get(m), Some(&"second"));
    assert_eq!(l.iter().count(), 1);
    assert_eq!(l.len(), 1);
}

#[test]
fn iter_yields_every_key_once() {
    let mut tree = PointerOctree::<u32, u64>::new();
    let keys = [enc(0, 0, 0), enc(0, 0, 1), enc(100, 3, 9), enc(2097151, 2097151, 2097151), enc(1, 0, 0)];
    for (i, k) in keys.iter().enumerate() {
        tree.insert(*k, i as u32);
    }
    let items = tree.iter();
    assert_eq!(items.len(), tree.len());
    let mut got: Vec<u64> = items.iter().map(|(k, _)| *k).collect();
    let mut want = keys.to_vec();
    // depth-first, children in index order: ascending keys
    assert!(got.windows(2).all(|w| w[0] < w[1]));
    got.sort();
    want.sort();
    assert_eq!(got, want);
}

#[test]
fn count_fold_gives_len_at_root() {
    let mut p = PointerOctree::<u8, u64>::new();
    let mut l = LinearOctree::<u8, u64>::new();
    for i in 0..50u64 {
        p.insert(enc(i, 2 * i, 3 * i), 0);
        l.insert(enc(i, 2 * i, 3 * i), 0);
    }
    let folded = p.collect_fold(&CountFolder);
    let (root, count) = folded.last().unwrap();
    assert_eq!(*root, MortonRegion::base());
    assert_eq!(*count, 50);
    let folded = l.collect_fold(&CountFolder);
    let (root, count) = folded.last().unwrap();
    assert_eq!(*root, MortonRegion::base());
    assert_eq!(*count, 50);
}

#[test]
fn fold_of_empty_trees_is_empty() {
    let p = PointerOctree::<u8, u64>::new();
    let l = LinearOctree::<u8, u64>::new();
    assert!(p.collect_fold(&CountFolder).is_empty());
    assert!(l.collect_fold(&CountFolder).is_empty());
}

#[test]
fn fold_of_two_leaves() {
    let mut p = PointerOctree::<u8, u64>::new();
    p.insert(0, 1);
    p.insert(1, 2);
    let folded = p.collect_fold(&CountFolder);
    // the two leaves part at the last level: 21 regions above them, and the two cells
    assert_eq!(folded.len(), 23);
    for (region, count) in folded.iter() {
        assert_eq!(*count, if region.level == 21 { 1 } else { 2 });
    }
    let mut l = LinearOctree::<u8, u64>::new();
    l.insert(0, 1);
    l.insert(1, 2);
    assert_eq!(l.collect_fold(&CountFolder).len(), 23);
}

#[test]
fn count_folder_saturates() {
    let f = CountFolder;
    assert_eq!(<CountFolder as Folder<u8, u64>>::fold(&f, &[1, 2, 3]), 6);
    assert_eq!(<CountFolder as Folder<u8, u64>>::fold(&f, &[usize::MAX, 1]), usize::MAX);
    assert_eq!(<CountFolder as Folder<u8, u64>>::gather(&f, 5, &0), 1);
}

#[test]
fn iter_fold_reaches_every_leaf() {
    let mut p = PointerOctree::<u8, u64>::new();
    for i in 0..20u64 {
        p.insert(enc(i, i, i), 0);
    }
    let mut cache: RegionCache<u64, usize> = RegionCache::new(100);
    let out = p.iter_fold(&CountFolder, &mut cache);
    assert_eq!(out.len(), 20);
    assert!(out.iter().all(|(r, c)| r.level == 21 && *c == 1));
}

#[test]
fn iter_fold_random_stopping_at_root() {
    let mut p = PointerOctree::<u8, u64>::new();
    for i in 0..20u64 {
        p.insert(enc(i, i, i), 0);
    }
    let mut cache: RegionCache<u64, usize> = RegionCache::new(100);
    let mut rng = SmallRng::from_seed([3; 16]);
    let out = p.iter_fold_random(21, |_r| false, &CountFolder, &mut rng, &mut cache);
    assert_eq!(out, vec![(MortonRegion::base(), 20)]);
}

#[test]
fn iter_rand_samples_leaves() {
    let mut p = PointerOctree::<u32, u64>::new();
    for i in 0..100u64 {
        p.insert(enc(i, 50 - i % 50, i % 7), i as u32);
    }
    let mut rng = SmallRng::from_seed([9; 16]);
    let one = p.iter_rand(0, &mut rng);
    assert_eq!(one.len(), 1);
    assert_eq!(p.get(one[0].0), Some(one[0].1));
    let all = p.iter_rand(21, &mut rng);
    assert_eq!(all.len(), 100);
    let few = p.iter_rand(1, &mut rng);
    assert!(few.len() <= 8 && !few.is_empty());
}

#[test]
fn explore_simple_stops_where_told() {
    let mut p = PointerOctree::<u32, u64>::new();
    for i in 0..10u64 {
        p.insert(enc(i, 0, 0), i as u32);
    }
    let stop = p.iter_explore_simple(|_r| false);
    assert_eq!(stop.len(), 1);
    assert_eq!(stop[0].0, MortonRegion::base());
    assert_eq!(stop[0].1, enc(0, 0, 0));
    let all = p.iter_explore_simple(|_r| true);
    assert_eq!(all.len(), 10);
}

#[test]
fn invalidate_drops_regions_of_key() {
    let m = enc(1, 2, 3);
    let levels = morton_levels(m);
    assert_eq!(levels.len(), 22);
    assert_eq!(levels[0], MortonRegion::base());
    assert_eq!(levels[21], MortonRegion { morton: m, level: 21 });
    let mut cache: RegionCache<u64, u32> = RegionCache::new(100);
    for r in levels.iter() {
        cache.insert(*r, 1);
    }
    let other = MortonRegion { morton: enc(4, 5, 6), level: 21 };
    cache.insert(other, 2);
    invalidate_region_cache(m, &mut cache);
    for r in levels.iter() {
        assert!(!cache.contains(r));
    }
    assert!(cache.contains(&other));
}

#[test]
fn region_children() {
    let base = MortonRegion::<u64>::base();
    assert_eq!(base.level, 0);
    let c = base.enter(5);
    assert_eq!(c, MortonRegion { morton: 5u64 << 60, level: 1 });
    assert_eq!(c.enter(7).morton, (5u64 << 60) | (7u64 << 57));
}

#[test]
fn extend_inserts_in_order() {
    let mut p = PointerOctree::<u8, u64>::new();
    p.extend(vec![(enc(1, 1, 1), 1), (enc(2, 2, 2), 2), (enc(1, 1, 1), 3)]);
    assert_eq!(p.len(), 2);
    assert_eq!(p.get(enc(1, 1, 1)), Some(&3));
    let mut l = LinearOctree::<u8, u64>::new();
    l.extend(vec![(enc(1, 1, 1), 1), (enc(2, 2, 2), 2), (enc(1, 1, 1), 3)]);
    assert_eq!(l.get(enc(1, 1, 1)), Some(&3));
    assert_eq!(l.get(enc(2, 2, 2)), Some(&2));
}

#[test]
fn oct_and_empty_node() {
    let oct = Oct::new([1, 2, 3, 4, 5, 6, 7, 8]);
    assert_eq!(oct.children[3], 4);
    match Internal::<u8, u64>::empty_node() {
        Internal::Node(b) => assert!(b.children.iter().all(|c| matches!(c, Internal::Empty))),
        _ => panic!("not a node"),
    }
}

#[test]
fn linear_get_mut_changes_item() {
    let mut tree = LinearOctree::<String, u64>::new();
    tree.insert(enc(1, 2, 3), "a".to_string());
    if let Some(v) = tree.get_mut(enc(1, 2, 3)) {
        v.push('b');
    }
    assert_eq!(tree.get(enc(1, 2, 3)), Some(&"ab".to_string()));
    assert!(tree.get_mut(enc(3, 2, 1)).is_none());
}

#[test]
fn linear_iter_mut_changes_items() {
    let mut tree = LinearOctree::<String, u64>::new();
    for i in 1..4u64 {
        tree.insert(i, format!("{}", i));
    }
    for (_, v) in tree.iter_mut() {
        *v = "changed".to_string();
    }
    for (_, v) in tree.iter() {
        assert_eq!(v, "changed");
    }
    assert_eq!(tree.get(2), Some(&"changed".to_string()));
}

#[test]
fn root_fold_agrees_between_traversals() {
    let mut p = PointerOctree::<u8, u64>::new();
    for i in 0..300u64 {
        p.insert(enc(i % 17, i % 29, i), 0);
    }
    let collected = p.collect_fold(&CountFolder);
    let root_sum = collected.last().unwrap().1;
    let mut cache: RegionCache<u64, usize> = RegionCache::new(1000);
    let mut rng = SmallRng::from_seed([5; 16]);
    let at_root = p.iter_fold_random(21, |_r| false, &CountFolder, &mut rng, &mut cache);
    assert_eq!(at_root, vec![(MortonRegion::base(), root_sum)]);
    assert_eq!(root_sum, 300);
}

#[test]
fn both_octrees_fold_to_the_same_regions() {
    let mut rng = SmallRng::from_seed([11; 16]);
    let mut p = PointerOctree::<u8, u64>::new();
    let mut l = LinearOctree::<u8, u64>::new();
    for _ in 0..1000 {
        let k = <u64 as Morton>::encode(rng.gen_range(0, 64), rng.gen_range(0, 64), rng.gen_range(0, 1 << 21));
        p.insert(k, 0);
        l.insert(k, 0);
    }
    let mut a: Vec<(u64, usize, usize)> =
        p.collect_fold(&CountFolder).iter().map(|(r, c)| (r.morton, r.level, *c)).collect();
    let mut b: Vec<(u64, usize, usize)> =
        l.collect_fold(&CountFolder).iter().map(|(r, c)| (r.morton, r.level, *c)).collect();
    a.sort();
    b.sort();
    assert_eq!(a, b);
    assert_eq!(a.iter().filter(|e| e.1 == 0).map(|e| e.2).next(), Some(p.len()));
}

#[test]
fn sample_depth_bounds_result_count() {
    let mut p = PointerOctree::<u8, u64>::new();
    for i in 0..500u64 {
        p.insert(enc(i, i * 3 % 1000, i * 7 % 1000), 0);
    }
    let mut rng = SmallRng::from_seed([2; 16]);
    for depth in 0..4usize {
        let got = p.iter_rand(depth, &mut rng);
        assert!(got.len() <= 8usize.pow(depth as u32));
        assert!(!got.is_empty());
    }
}

#[test]
fn sampling_skips_emptied_nodes() {
    let mut p = PointerOctree::<u8, u64>::new();
    p.insert(0, 1);
    p.insert(1, 2);
    let far = enc(2097151, 2097151, 2097151);
    p.insert(far, 3);
    assert_eq!(p.remove(0), Some(1));
    assert_eq!(p.remove(1), Some(2));
    for seed in 0..32u8 {
        let mut rng = SmallRng::from_seed([seed; 16]);
        let got = p.iter_rand(0, &mut rng);
        assert_eq!(got.len(), 1);
        assert_eq!(got[0].0, far);
    }
    let mut cache: RegionCache<u64, usize> = RegionCache::new(10);
    let mut rng = SmallRng::from_seed([1; 16]);
    let out = p.iter_fold_random(0, |_r| false, &CountFolder, &mut rng, &mut cache);
    assert_eq!(out, vec![(MortonRegion::base(), 1)]);
}

#[test]
fn cached_summary_is_returned() {
    let mut p = PointerOctree::<u8, u64>::new();
    for i in 0..10u64 {
        p.insert(enc(i, 0, 0), 0);
    }
    let mut cache: RegionCache<u64, usize> = RegionCache::new(10);
    cache.insert(MortonRegion::base(), 999);
    let mut rng = SmallRng::from_seed([4; 16]);
    let out = p.iter_fold_random(21, |_r| false, &CountFolder, &mut rng, &mut cache);
    assert_eq!(out, vec![(MortonRegion::base(), 999)]);
    assert_eq!(cache.get::<u8, CountFolder>(&MortonRegion::base(), &CountFolder), Some(999));
    cache.remove(&MortonRegion::base());
    assert_eq!(cache.get::<u8, CountFolder>(&MortonRegion::base(), &CountFolder), None);
    let out = p.iter_fold_random(21, |_r| false, &CountFolder, &mut rng, &mut cache);
    assert_eq!(out, vec![(MortonRegion::base(), 10)]);
    assert!(cache.contains(&MortonRegion::base()));
}

#[test]
fn zero_capacity_cache_keeps_nothing() {
    let mut cache: RegionCache<u64, usize> = RegionCache::new(0);
    cache.insert(MortonRegion::base(), 1);
    assert!(!cache.contains(&MortonRegion::base()));
}

#[test]
fn linear_region_summary_includes_region_itself() {
    let mut l = LinearOctree::<u8, u64>::new();
    l.insert(enc(1, 2, 3), 0);
    let mut map = Vec::new();
    let s = l.collect_fold_region(MortonRegion::base(), &CountFolder, &mut map);
    assert_eq!(s, Some(1));
    assert_eq!(map, vec![(MortonRegion::base(), 1)]);
}

#[test]
fn difference_of_region_lists() {
    let base = MortonRegion::<u64>::base();
    let a = base.enter(1);
    let b = base.enter(2);
    let c = a.enter(3);
    let primary = vec![(base, 1u8), (a, 2), (b, 3), (c, 4)];
    let secondary = vec![(b, "x"), (base, "y")];
    assert_eq!(region_difference(&primary, &secondary), vec![a, c]);
    assert!(region_difference(&primary, &primary).is_empty());
}

#[test]
fn single_leaf_explored_at_root() {
    let mut p = PointerOctree::<u32, u64>::new();
    p.insert(enc(7, 8, 9), 5);
    let stop = p.iter_explore_simple(|_r| false);
    assert_eq!(stop, vec![(MortonRegion::base(), enc(7, 8, 9), &5)]);
}

#[test]
fn cached_leaf_summary_is_returned() {
    let mut p = PointerOctree::<u8, u64>::new();
    p.insert(enc(1, 1, 1), 0);
    p.insert(enc(1, 1, 2), 0);
    let mut cache: RegionCache<u64, usize> = RegionCache::new(100);
    let first = p.iter_fold(&CountFolder, &mut cache);
    assert_eq!(first.len(), 2);
    for (r, _) in first.iter() {
        cache.insert(*r, 77);
    }
    let second = p.iter_fold(&CountFolder, &mut cache);
    assert!(second.iter().all(|(_, s)| *s == 77));
    let empty = PointerOctree::<u8, u64>::new();
    let mut fresh: RegionCache<u64, usize> = RegionCache::new(4);
    let mut rng = SmallRng::from_seed([6; 16]);
    assert!(empty.iter_fold_random(21, |_r| false, &CountFolder, &mut rng, &mut fresh).is_empty());
}
