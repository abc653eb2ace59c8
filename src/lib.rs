//! Spatial indexing over Morton (z-order) codes: the key model, a locality
//! preserving hasher, regions, and two octrees keyed by Morton codes.
pub mod cache;
pub mod folder;
pub mod hash;
pub mod linear;
pub mod morton;
pub mod pointer;
pub mod random;
pub mod region;

pub use crate::cache::{invalidate_region_cache, morton_levels, RegionCache};
pub use crate::folder::{CountFolder, Folder};
pub use crate::hash::MortonHash;
pub use crate::linear::LinearOctree;
pub use crate::morton::Morton;
pub use crate::pointer::{Internal, Oct, PointerOctree};
pub use crate::region::{region_difference, MortonRegion};

use vstd::prelude::*;

verus! {

/// Keyed storage of items, visited with their keys.
pub trait StorageAccess<'a, T: 'a, K> {
    type Iter: Iterator<Item = (K, &'a T)>;

    type IterMut: Iterator<Item = (K, &'a mut T)>;

    fn iter(&self) -> Self::Iter;

    fn iter_mut(&mut self) -> Self::IterMut;

    fn insert(&mut self, key: K, item: T);

    fn get(&mut self, key: K, item: T);

    fn get_mut(&mut self, key: K, item: T);
}

} // verus!
