use vstd::prelude::*;

use crate::chunk::Chunk;
use crate::coord_table::CoordTable;
use crate::tile::{ChunkCoord, Tile, TileCoord};

verus! {

/// What every slot of a chunk that does not exist holds.
pub open spec fn empty_slots() -> Seq<Option<Tile>> {
    Seq::new(256, |i: int| None)
}

/// The slots of chunk `c` in `m`; a chunk that is not stored reads as empty.
pub open spec fn slots_of(m: Map<ChunkCoord, Chunk>, c: ChunkCoord) -> Seq<Option<Tile>> {
    if m.contains_key(c) {
        m[c]@
    } else {
        empty_slots()
    }
}

/// The tile at `tc` in `m`.
pub open spec fn tile_at(m: Map<ChunkCoord, Chunk>, tc: TileCoord) -> Option<Tile> {
    slots_of(m, tc.chunk)[tc.index as int]
}

/// `after` is `before` with `tile` written at `coord`: the chunk is created
/// only to hold a tile, the other chunks stay as they were.
pub open spec fn tile_written(
    before: Map<ChunkCoord, Chunk>,
    after: Map<ChunkCoord, Chunk>,
    coord: TileCoord,
    tile: Option<Tile>,
) -> bool {
    &&& after.dom() == (if tile is Some {
        before.dom().insert(coord.chunk)
    } else {
        before.dom()
    })
    &&& forall|k: ChunkCoord|
        k != coord.chunk && #[trigger] after.contains_key(k) ==> after[k] == before[k]
    &&& after.contains_key(coord.chunk) ==> after[coord.chunk]@ == slots_of(
        before,
        coord.chunk,
    ).update(coord.index as int, tile)
}

/// Sparse index from chunk coordinates to chunks. A chunk exists only once a
/// tile was written into it.
pub struct TileMap {
    chunks: CoordTable<Chunk>,
}

impl View for TileMap {
    type V = Map<ChunkCoord, Chunk>;

    closed spec fn view(&self) -> Map<ChunkCoord, Chunk> {
        self.chunks@
    }
}

impl Default for TileMap {
    fn default() -> (r: Self)
        ensures
            r.wf(),
            r@ == Map::<ChunkCoord, Chunk>::empty(),
    {
        TileMap { chunks: CoordTable::new() }
    }
}

impl TileMap {
    pub closed spec fn wf(&self) -> bool {
        self.chunks.wf()
    }

    pub fn new() -> (r: Self)
        ensures
            r.wf(),
            r@ == Map::<ChunkCoord, Chunk>::empty(),
    {
        TileMap { chunks: CoordTable::new() }
    }

    pub fn get_chunk(&self, coord: &ChunkCoord) -> (r: Option<&Chunk>)
        requires
            self.wf(),
        ensures
            r == (if self@.contains_key(*coord) {
                Some(&self@[*coord])
            } else {
                None
            }),
    {
        self.chunks.get(coord)
    }

    pub fn get_chunk_mut(&mut self, coord: &ChunkCoord) -> (r: Option<&mut Chunk>)
        requires
            old(self).wf(),
        ensures
            final(self).wf(),
            !old(self)@.contains_key(*coord) ==> r is None && final(self)@ == old(self)@,
            old(self)@.contains_key(*coord) ==> r is Some && *r.unwrap() == old(self)@[*coord]
                && final(self)@ == old(self)@.insert(*coord, *final(r.unwrap())),
    {
        self.chunks.get_mut(coord)
    }

    pub fn get_tile(&self, coord: &TileCoord) -> (r: Option<&Tile>)
        requires
            self.wf(),
        ensures
            r == (match tile_at(self@, *coord) {
                Some(t) => Some(&t),
                None => None,
            }),
    {
        match self.chunks.get(&coord.chunk) {
            Some(chunk) => chunk.get_tile(coord.index),
            None => None,
        }
    }

    /// Writes `tile` at `coord` (`None` deletes) and returns the previous tile.
    /// A missing chunk is created only to hold a tile: deleting from it leaves
    /// the map as it is.
    pub fn set_tile(&mut self, coord: &TileCoord, tile: Option<Tile>) -> (r: Option<Tile>)
        requires
            old(self).wf(),
        ensures
            final(self).wf(),
            r == tile_at(old(self)@, *coord),
            tile_written(old(self)@, final(self)@, *coord, tile),
    {
        let r = match self.chunks.get_mut(&coord.chunk) {
            Some(chunk) => chunk.set_tile(coord.index, tile),
            None => {
                if tile.is_some() {
                    let mut chunk = Chunk::default();
                    assert(chunk@ =~= empty_slots());
                    chunk.set_tile(coord.index, tile);
                    self.chunks.insert_new(coord.chunk, chunk);
                }
                None
            },
        };
        assert(self@.dom() =~= (if tile is Some {
            old(self)@.dom().insert(coord.chunk)
        } else {
            old(self)@.dom()
        }));
        r
    }

    /// Drops the chunk at `coord`, if there is one, and returns it.
    pub fn remove_chunk(&mut self, coord: &ChunkCoord) -> (r: Option<Chunk>)
        requires
            old(self).wf(),
        ensures
            final(self).wf(),
            final(self)@ == old(self)@.remove(*coord),
            r == (if old(self)@.contains_key(*coord) {
                Some(old(self)@[*coord])
            } else {
                None
            }),
    {
        self.chunks.remove(coord)
    }
}

} // verus!
