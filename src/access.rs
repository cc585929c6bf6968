use vstd::prelude::*;

use crate::chunk::Chunk;
use crate::tile::{ChunkCoord, Tile, TileCoord};
use crate::tile_map::{tile_at, tile_written, TileMap};
use crate::updates::{forced, slots_marked, TileMapUpdates};

verus! {

/// The changes `u` after a write of `tile` at `coord` where `previous` was:
/// the slot is recorded only when the value changed.
pub open spec fn recorded(
    u: Map<ChunkCoord, Set<u8>>,
    previous: Option<Tile>,
    coord: TileCoord,
    tile: Option<Tile>,
) -> Map<ChunkCoord, Set<u8>> {
    if previous != tile {
        u.insert(coord.chunk, slots_marked(u, coord.chunk).insert(coord.index))
    } else {
        u
    }
}

/// Whether two edits of `edits` name the same tile.
pub open spec fn has_duplicate_coords(edits: Seq<(TileCoord, Tile)>) -> bool {
    exists|i: int, j: int| 0 <= i < j < edits.len() && #[trigger] edits[i].0 == #[trigger] edits[j].0
}

/// `m` after each edit of `edits`, in order, overwrote the tile at its
/// coordinate where a tile is present there. Absent tiles stay absent.
pub open spec fn tiles_overwritten(m: Map<ChunkCoord, Chunk>, edits: Seq<(TileCoord, Tile)>) -> Map<
    ChunkCoord,
    Chunk,
>
    decreases edits.len(),
{
    if edits.len() == 0 {
        m
    } else {
        let rest = tiles_overwritten(m, edits.drop_last());
        let (c, t) = edits.last();
        if tile_at(rest, c) is Some {
            rest.insert(c.chunk, rest[c.chunk].with_tile(c.index as int, t))
        } else {
            rest
        }
    }
}

/// Two edits of one bulk overwrite named the same tile.
#[derive(Copy, Clone, Debug, PartialEq, Eq, Structural)]
pub struct DuplicateTile(pub TileCoord);

/// Read access to the tiles and to this cycle's changes.
pub trait MapReader {
    /// The chunks that can be read.
    spec fn tiles_view(&self) -> Map<ChunkCoord, Chunk>;

    /// This cycle's changes that can be read.
    spec fn updates_view(&self) -> Map<ChunkCoord, Set<u8>>;

    spec fn reader_wf(&self) -> bool;

    fn get_tile(&self, coord: &TileCoord) -> (r: Option<&Tile>)
        requires
            self.reader_wf(),
        ensures
            r == (match tile_at(self.tiles_view(), *coord) {
                Some(t) => Some(&t),
                None => None,
            }),
    ;

    fn get_chunk(&self, coord: &ChunkCoord) -> (r: Option<&Chunk>)
        requires
            self.reader_wf(),
        ensures
            r == (if self.tiles_view().contains_key(*coord) {
                Some(&self.tiles_view()[*coord])
            } else {
                None
            }),
    ;

    /// The chunks that are dirty this cycle, each once.
    fn get_chunk_updates(&self) -> (r: Vec<ChunkCoord>)
        requires
            self.reader_wf(),
        ensures
            r@.no_duplicates(),
            forall|c: ChunkCoord| #[trigger] r@.contains(c) <==> self.updates_view().contains_key(c),
    ;

    fn is_chunk_updated(&self, coord: &ChunkCoord) -> (r: bool)
        requires
            self.reader_wf(),
        ensures
            r == self.updates_view().contains_key(*coord),
    ;
}

/// Shared access to the tiles and their changes.
pub struct TileMapReader<'w> {
    chunks: &'w TileMap,
    updates: &'w TileMapUpdates,
}

impl<'w> TileMapReader<'w> {
    pub fn new(chunks: &'w TileMap, updates: &'w TileMapUpdates) -> (r: Self)
        ensures
            r.tiles_view() == chunks@,
            r.updates_view() == updates@,
            chunks.wf() && updates.wf() ==> r.reader_wf(),
    {
        TileMapReader { chunks, updates }
    }
}

impl<'w> MapReader for TileMapReader<'w> {
    closed spec fn tiles_view(&self) -> Map<ChunkCoord, Chunk> {
        self.chunks@
    }

    closed spec fn updates_view(&self) -> Map<ChunkCoord, Set<u8>> {
        self.updates@
    }

    closed spec fn reader_wf(&self) -> bool {
        self.chunks.wf() && self.updates.wf()
    }

    fn get_tile(&self, coord: &TileCoord) -> (r: Option<&Tile>) {
        self.chunks.get_tile(coord)
    }

    fn get_chunk(&self, coord: &ChunkCoord) -> (r: Option<&Chunk>) {
        self.chunks.get_chunk(coord)
    }

    fn get_chunk_updates(&self) -> (r: Vec<ChunkCoord>) {
        self.updates.get_chunk_updates()
    }

    fn is_chunk_updated(&self, coord: &ChunkCoord) -> (r: bool) {
        self.updates.is_chunk_updated(coord)
    }
}

/// Exclusive access to the tiles and their changes. Writes through it are
/// recorded as changes unless they leave the tile as it was. It holds both
/// for as long as the writing lasts and hands them back at the end.
pub struct TileMapWriter {
    chunks: TileMap,
    updates: TileMapUpdates,
}

impl TileMapWriter {
    pub fn new(chunks: TileMap, updates: TileMapUpdates) -> (r: Self)
        ensures
            r.tiles_view() == chunks@,
            r.updates_view() == updates@,
            chunks.wf() && updates.wf() ==> r.reader_wf(),
    {
        TileMapWriter { chunks, updates }
    }

    /// Hands back the tiles and the changes.
    pub fn into_parts(self) -> (r: (TileMap, TileMapUpdates))
        requires
            self.reader_wf(),
        ensures
            r.0.wf() && r.1.wf(),
            r.0@ == self.tiles_view(),
            r.1@ == self.updates_view(),
    {
        (self.chunks, self.updates)
    }
}

impl MapReader for TileMapWriter {
    closed spec fn tiles_view(&self) -> Map<ChunkCoord, Chunk> {
        self.chunks@
    }

    closed spec fn updates_view(&self) -> Map<ChunkCoord, Set<u8>> {
        self.updates@
    }

    closed spec fn reader_wf(&self) -> bool {
        self.chunks.wf() && self.updates.wf()
    }

    fn get_tile(&self, coord: &TileCoord) -> (r: Option<&Tile>) {
        self.chunks.get_tile(coord)
    }

    fn get_chunk(&self, coord: &ChunkCoord) -> (r: Option<&Chunk>) {
        self.chunks.get_chunk(coord)
    }

    fn get_chunk_updates(&self) -> (r: Vec<ChunkCoord>) {
        self.updates.get_chunk_updates()
    }

    fn is_chunk_updated(&self, coord: &ChunkCoord) -> (r: bool) {
        self.updates.is_chunk_updated(coord)
    }
}

impl TileMapWriter {
    /// Sets the tile at `coord` (`None` removes it) and returns the previous
    /// tile. The change is recorded only when the tile actually changed.
    pub fn set_tile(&mut self, coord: &TileCoord, tile: Option<Tile>) -> (r: Option<Tile>)
        requires
            old(self).reader_wf(),
        ensures
            final(self).reader_wf(),
            r == tile_at(old(self).tiles_view(), *coord),
            tile_written(old(self).tiles_view(), final(self).tiles_view(), *coord, tile),
            final(self).updates_view() == recorded(old(self).updates_view(), r, *coord, tile),
    {
        let old = self.chunks.set_tile(coord, tile);
        let changed = match (old, tile) {
            (Some(a), Some(b)) => a != b,
            (None, None) => false,
            _ => true,
        };
        if changed {
            self.updates.set_update(coord);
        }
        old
    }

    /// Sets the tile at `coord` like `set_tile`, but records no change.
    pub fn set_tile_no_update(&mut self, coord: &TileCoord, tile: Option<Tile>) -> (r: Option<Tile>)
        requires
            old(self).reader_wf(),
        ensures
            final(self).reader_wf(),
            r == tile_at(old(self).tiles_view(), *coord),
            tile_written(old(self).tiles_view(), final(self).tiles_view(), *coord, tile),
            final(self).updates_view() == old(self).updates_view(),
    {
        self.chunks.set_tile(coord, tile)
    }

    /// Mutable access to a present tile; changes made through it are not
    /// recorded.
    pub fn get_tile_mut(&mut self, coord: &TileCoord) -> (r: Option<&mut Tile>)
        requires
            old(self).reader_wf(),
        ensures
            final(self).reader_wf(),
            final(self).updates_view() == old(self).updates_view(),
            tile_at(old(self).tiles_view(), *coord) is None ==> r is None && final(self).tiles_view()
                == old(self).tiles_view(),
            tile_at(old(self).tiles_view(), *coord) is Some ==> r is Some && tile_at(
                old(self).tiles_view(),
                *coord,
            ) == Some(*r.unwrap()) && final(self).tiles_view().dom() == old(self).tiles_view().dom()
                && (forall|k: ChunkCoord|
                k != coord.chunk && #[trigger] final(self).tiles_view().contains_key(k)
                    ==> final(self).tiles_view()[k] == old(self).tiles_view()[k])
                && final(self).tiles_view()[coord.chunk].valid == old(self).tiles_view()[coord.chunk].valid
                && final(self).tiles_view()[coord.chunk].tiles@ == old(self).tiles_view()[coord.chunk].tiles@.update(
                coord.index as int,
                *final(r.unwrap()),
            ),
    {
        match self.chunks.get_chunk_mut(&coord.chunk) {
            Some(chunk) => chunk.get_tile_mut(coord.index),
            None => None,
        }
    }

    /// Mutable access to a chunk; changes made through it are not recorded.
    pub fn get_chunk_mut(&mut self, coord: &ChunkCoord) -> (r: Option<&mut Chunk>)
        requires
            old(self).reader_wf(),
        ensures
            final(self).reader_wf(),
            final(self).updates_view() == old(self).updates_view(),
            !old(self).tiles_view().contains_key(*coord) ==> r is None && final(self).tiles_view()
                == old(self).tiles_view(),
            old(self).tiles_view().contains_key(*coord) ==> r is Some && *r.unwrap() == old(
                self,
            ).tiles_view()[*coord] && final(self).tiles_view() == old(self).tiles_view().insert(
                *coord,
                *final(r.unwrap()),
            ),
    {
        self.chunks.get_chunk_mut(coord)
    }

    /// Overwrites several present tiles in one step, recording no change; a
    /// tile that is absent is left absent. The edits must name distinct
    /// tiles: where two name the same one, nothing is written and that tile
    /// is returned as the error.
    pub fn set_tiles_disjoint(&mut self, edits: &Vec<(TileCoord, Tile)>) -> (r: Result<(), DuplicateTile>)
        requires
            old(self).reader_wf(),
        ensures
            final(self).reader_wf(),
            final(self).updates_view() == old(self).updates_view(),
            r is Err <==> has_duplicate_coords(edits@),
            r is Err ==> final(self).tiles_view() == old(self).tiles_view(),
            r is Ok ==> final(self).tiles_view() == tiles_overwritten(old(self).tiles_view(), edits@),
    {
        let mut i: usize = 0;
        while i < edits.len()
            invariant
                i <= edits.len(),
                *self == *old(self),
                self.reader_wf(),
                forall|a: int, b: int| 0 <= a < b < i ==> edits@[a].0 != edits@[b].0,
            decreases edits.len() - i,
        {
            let mut j: usize = 0;
            while j < i
                invariant
                    j <= i < edits.len(),
                    *self == *old(self),
                    self.reader_wf(),
                    forall|a: int| 0 <= a < j ==> edits@[a].0 != edits@[i as int].0,
                decreases i - j,
            {
                if edits[j].0 == edits[i].0 {
                    assert(edits@[j as int].0 == edits@[i as int].0);
                    return Err(DuplicateTile(edits[i].0));
                }
                j = j + 1;
            }
            i = i + 1;
        }
        assert(!has_duplicate_coords(edits@));
        let ghost m0 = self.tiles_view();
        let mut k: usize = 0;
        while k < edits.len()
            invariant
                k <= edits.len(),
                self.reader_wf(),
                self.updates_view() == old(self).updates_view(),
                m0 == old(self).tiles_view(),
                self.tiles_view() == tiles_overwritten(m0, edits@.subrange(0, k as int)),
            decreases edits.len() - k,
        {
            let (c, t) = edits[k];
            let ghost before = self.tiles_view();
            proof {
                assert(edits@.subrange(0, k + 1).drop_last() =~= edits@.subrange(0, k as int));
            }
            match self.get_tile_mut(&c) {
                Some(slot) => {
                    *slot = t;
                },
                None => {},
            }
            proof {
                if tile_at(before, c) is Some {
                    let after = self.tiles_view();
                    let want = before[c.chunk].with_tile(c.index as int, t);
                    assert(after[c.chunk].tiles =~= want.tiles);
                    assert(after[c.chunk] == want);
                    assert(after =~= before.insert(c.chunk, want));
                }
            }
            k = k + 1;
        }
        assert(edits@.subrange(0, edits@.len() as int) =~= edits@);
        Ok(())
    }

    /// Manually mark a chunk as updated, without changing any of its tiles.
    pub fn mark_chunk_updated(&mut self, coord: &ChunkCoord)
        requires
            old(self).reader_wf(),
        ensures
            final(self).reader_wf(),
            final(self).tiles_view() == old(self).tiles_view(),
            final(self).updates_view() == forced(old(self).updates_view(), *coord),
    {
        if !self.is_chunk_updated(coord) {
            self.updates.mark_chunk(coord);
        }
    }
}

} // verus!
