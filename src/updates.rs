use vstd::prelude::*;

use crate::coord_table::CoordTable;
use crate::tile::{ChunkCoord, TileCoord};

verus! {

/// The slots whose flag is set.
pub open spec fn flag_set(flags: [bool; 256]) -> Set<u8> {
    Set::new(|i: u8| flags[i as int])
}

/// The slots recorded for `c` in `m`, empty where `c` is not dirty.
pub open spec fn slots_marked(m: Map<ChunkCoord, Set<u8>>, c: ChunkCoord) -> Set<u8> {
    if m.contains_key(c) {
        m[c]
    } else {
        Set::empty()
    }
}

/// `u` after chunk `c` was made dirty by hand.
pub open spec fn forced(u: Map<ChunkCoord, Set<u8>>, c: ChunkCoord) -> Map<ChunkCoord, Set<u8>> {
    if u.contains_key(c) {
        u
    } else {
        u.insert(c, Set::empty())
    }
}

/// The chunks changed in the current cycle, each with the slots that changed.
/// A chunk present with no slot was marked dirty by hand.
pub struct TileMapUpdates {
    chunks: CoordTable<[bool; 256]>,
}

impl View for TileMapUpdates {
    type V = Map<ChunkCoord, Set<u8>>;

    closed spec fn view(&self) -> Map<ChunkCoord, Set<u8>> {
        Map::new(
            |c: ChunkCoord| self.chunks@.contains_key(c),
            |c: ChunkCoord| flag_set(self.chunks@[c]),
        )
    }
}

impl Default for TileMapUpdates {
    fn default() -> (r: Self)
        ensures
            r.wf(),
            r@ == Map::<ChunkCoord, Set<u8>>::empty(),
    {
        TileMapUpdates::new()
    }
}

impl TileMapUpdates {
    pub closed spec fn wf(&self) -> bool {
        self.chunks.wf()
    }

    pub fn new() -> (r: Self)
        ensures
            r.wf(),
            r@ == Map::<ChunkCoord, Set<u8>>::empty(),
    {
        let r = TileMapUpdates { chunks: CoordTable::new() };
        assert(r@ =~= Map::<ChunkCoord, Set<u8>>::empty());
        r
    }

    /// Records that the tile at `coord` changed.
    pub fn set_update(&mut self, coord: &TileCoord)
        requires
            old(self).wf(),
        ensures
            final(self).wf(),
            final(self)@ == old(self)@.insert(
                coord.chunk,
                slots_marked(old(self)@, coord.chunk).insert(coord.index),
            ),
    {
        match self.chunks.get_mut(&coord.chunk) {
            Some(flags) => {
                flags[coord.index as usize] = true;
            },
            None => {
                let mut flags = [false;256];
                flags[coord.index as usize] = true;
                assert(flag_set(flags) =~= Set::<u8>::empty().insert(coord.index));
                self.chunks.insert_new(coord.chunk, flags);
            },
        }
        assert(flag_set(self.chunks@[coord.chunk]) =~= slots_marked(old(self)@, coord.chunk).insert(
            coord.index,
        ));
        assert(self@ =~= old(self)@.insert(
            coord.chunk,
            slots_marked(old(self)@, coord.chunk).insert(coord.index),
        ));
    }

    /// Makes `coord` dirty without naming a slot; a chunk that is already
    /// dirty keeps its slots.
    pub fn mark_chunk(&mut self, coord: &ChunkCoord)
        requires
            old(self).wf(),
        ensures
            final(self).wf(),
            final(self)@ == forced(old(self)@, *coord),
    {
        if !self.chunks.contains_key(coord) {
            let flags = [false;256];
            assert(flag_set(flags) =~= Set::<u8>::empty());
            self.chunks.insert_new(*coord, flags);
            assert(self@ =~= old(self)@.insert(*coord, Set::empty()));
        }
    }

    /// Forgets every change: the start of a new cycle.
    pub fn clear(&mut self)
        requires
            old(self).wf(),
        ensures
            final(self).wf(),
            final(self)@ == Map::<ChunkCoord, Set<u8>>::empty(),
    {
        self.chunks.clear();
        assert(self@ =~= Map::<ChunkCoord, Set<u8>>::empty());
    }

    /// The dirty chunks, each once.
    pub fn get_chunk_updates(&self) -> (r: Vec<ChunkCoord>)
        requires
            self.wf(),
        ensures
            r@.no_duplicates(),
            forall|c: ChunkCoord| #[trigger] r@.contains(c) <==> self@.contains_key(c),
    {
        proof {
            self.chunks.lemma_order();
        }
        self.chunks.keys()
    }

    pub fn is_chunk_updated(&self, coord: &ChunkCoord) -> (r: bool)
        requires
            self.wf(),
        ensures
            r == self@.contains_key(*coord),
    {
        self.chunks.contains_key(coord)
    }

    /// Whether the tile at `coord` was recorded as changed this cycle.
    pub fn is_tile_updated(&self, coord: &TileCoord) -> (r: bool)
        requires
            self.wf(),
        ensures
            r == slots_marked(self@, coord.chunk).contains(coord.index),
    {
        match self.chunks.get(&coord.chunk) {
            Some(flags) => flags[coord.index as usize],
            None => false,
        }
    }
}

} // verus!
