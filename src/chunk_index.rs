use vstd::prelude::*;

use bevy::utils::HashMap;

verus! {

/// Hash index from a chunk coordinate, as `(x, y, z)`, to a position in an
/// arena, held in bevy's hash map.
#[verifier::external_body]
pub struct ChunkIndex {
    map: HashMap<(i32, i32, i32), usize>,
}

/// Positions by chunk coordinate.
pub type IndexContents = Map<(i32, i32, i32), usize>;

/// What a chunk index holds.
pub uninterp spec fn index_contents(index: ChunkIndex) -> Map<(i32, i32, i32), usize>;

impl ChunkIndex {
    /// Relies on `Default` of bevy's `HashMap` (hashbrown): a new map is empty.
    #[verifier::external_body]
    pub(crate) fn new() -> (r: Self)
        ensures
            index_contents(r) == IndexContents::empty(),
    {
        ChunkIndex { map: HashMap::default() }
    }

    /// Relies on hashbrown's `HashMap::get`: the value stored under `k`, if any.
    #[verifier::external_body]
    pub(crate) fn get(&self, k: (i32, i32, i32)) -> (r: Option<usize>)
        ensures
            r == (if index_contents(*self).contains_key(k) {
                Some(index_contents(*self)[k])
            } else {
                None
            }),
    {
        self.map.get(&k).copied()
    }

    /// Relies on hashbrown's `HashMap::insert`: `k` now maps to `v`, the
    /// other keys keep their values.
    #[verifier::external_body]
    pub(crate) fn insert(&mut self, k: (i32, i32, i32), v: usize)
        ensures
            index_contents(*final(self)) == index_contents(*old(self)).insert(k, v),
    {
        self.map.insert(k, v);
    }

    /// Relies on hashbrown's `HashMap::remove`: `k` is no longer stored, the
    /// other keys keep their values.
    #[verifier::external_body]
    pub(crate) fn remove(&mut self, k: (i32, i32, i32))
        ensures
            index_contents(*final(self)) == index_contents(*old(self)).remove(k),
    {
        self.map.remove(&k);
    }

    /// Relies on hashbrown's `HashMap::clear`: the map is empty afterwards.
    #[verifier::external_body]
    pub(crate) fn clear(&mut self)
        ensures
            index_contents(*final(self)) == IndexContents::empty(),
    {
        self.map.clear();
    }
}

/// Hash index from an entity, as its bits, to a position in an arena, held
/// in bevy's hash map.
#[verifier::external_body]
pub struct EntityIndex {
    map: HashMap<u64, usize>,
}

/// Positions by entity.
pub type EntityIndexContents = Map<u64, usize>;

/// What an entity index holds.
pub uninterp spec fn entity_index_contents(index: EntityIndex) -> Map<u64, usize>;

impl EntityIndex {
    /// Relies on `Default` of bevy's `HashMap` (hashbrown): a new map is empty.
    #[verifier::external_body]
    pub(crate) fn new() -> (r: Self)
        ensures
            entity_index_contents(r) == EntityIndexContents::empty(),
    {
        EntityIndex { map: HashMap::default() }
    }

    /// Relies on hashbrown's `HashMap::get`: the value stored under `k`, if any.
    #[verifier::external_body]
    pub(crate) fn get(&self, k: u64) -> (r: Option<usize>)
        ensures
            r == (if entity_index_contents(*self).contains_key(k) {
                Some(entity_index_contents(*self)[k])
            } else {
                None
            }),
    {
        self.map.get(&k).copied()
    }

    /// Relies on hashbrown's `HashMap::insert`: `k` now maps to `v`, the
    /// other keys keep their values.
    #[verifier::external_body]
    pub(crate) fn insert(&mut self, k: u64, v: usize)
        ensures
            entity_index_contents(*final(self)) == entity_index_contents(*old(self)).insert(k, v),
    {
        self.map.insert(k, v);
    }

    /// Relies on hashbrown's `HashMap::remove`: `k` is no longer stored, the
    /// other keys keep their values.
    #[verifier::external_body]
    pub(crate) fn remove(&mut self, k: u64)
        ensures
            entity_index_contents(*final(self)) == entity_index_contents(*old(self)).remove(k),
    {
        self.map.remove(&k);
    }
}

} // verus!
