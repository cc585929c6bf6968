use vstd::prelude::*;

use crate::tile::Tile;
use vstd::arithmetic::div_mod::lemma_fundamental_div_mod_converse;

verus! {

/// Number of tile slots in one chunk.
pub const CHUNK_SLOTS: usize = 256;

/// Bytes that one tile takes in a chunk's byte view.
pub const TILE_BYTES: usize = 4;

/// Bytes that one presence flag takes in a chunk's byte view.
pub const FLAG_BYTES: usize = 1;

/// Length of a chunk's byte view: the tile region, then the flag region.
pub const CHUNK_BYTES: usize = 1280;

/// Offset at which the flag region starts in a chunk's byte view.
pub const FLAGS_OFFSET: usize = 1024;

/// Fixed block of 256 tile slots with a presence flag for each, one byte
/// wide: 1 where the slot holds a tile, 0 where it is empty.
///
/// A slot whose flag is clear holds a stale tile value that is never read.
/// The two arrays hold no padding, so that the whole chunk can be handed on
/// as one flat buffer (see `as_bytes`).
pub struct Chunk {
    pub tiles: [Tile; 256],
    pub valid: [u8; 256],
}

/// Byte `k` (0 to 3) of a tile in the byte view: sheet then index, each
/// low byte first.
pub open spec fn tile_byte(t: Tile, k: int) -> u8 {
    if k == 0 {
        (t.sheet % 256) as u8
    } else if k == 1 {
        (t.sheet / 256) as u8
    } else if k == 2 {
        (t.index % 256) as u8
    } else {
        (t.index / 256) as u8
    }
}

/// The byte view of a chunk: every tile in slot order, four bytes each,
/// followed directly by every presence flag, one byte each.
pub open spec fn chunk_bytes(tiles: Seq<Tile>, valid: Seq<u8>) -> Seq<u8> {
    Seq::new(
        CHUNK_BYTES as nat,
        |j: int|
            if j < FLAGS_OFFSET {
                tile_byte(tiles[j / 4], j % 4)
            } else {
                valid[j - FLAGS_OFFSET]
            },
    )
}

impl View for Chunk {
    type V = Seq<Option<Tile>>;

    /// What each slot holds, `None` for an empty slot.
    open spec fn view(&self) -> Seq<Option<Tile>> {
        Seq::new(
            256,
            |i: int|
                if self.valid[i] != 0 {
                    Some(self.tiles[i])
                } else {
                    None
                },
        )
    }
}

impl Default for Chunk {
    fn default() -> (r: Self)
        ensures
            forall|i: int| 0 <= i < 256 ==> r@[i] is None,
            forall|i: int| 0 <= i < 256 ==> r.tiles[i] == (Tile { sheet: 0, index: 0 }) && r.valid[i] == 0,
    {
        Chunk { tiles: [Tile { sheet: 0, index: 0 };256], valid: [0u8;256] }
    }
}

impl Chunk {
    /// This chunk with the stored tile of slot `i` replaced by `t`, its
    /// presence flags unchanged.
    pub open spec fn with_tile(self, i: int, t: Tile) -> Chunk {
        Chunk { tiles: vstd::array::spec_array_update(self.tiles, i, t), valid: self.valid }
    }

    pub fn get_tile(&self, coord: u8) -> (r: Option<&Tile>)
        ensures
            r == (match self@[coord as int] {
                Some(t) => Some(&t),
                None => None,
            }),
    {
        if self.valid[coord as usize] != 0 {
            return Some(&self.tiles[coord as usize]);
        }
        None
    }

    pub fn get_tile_mut(&mut self, coord: u8) -> (r: Option<&mut Tile>)
        ensures
            old(self)@[coord as int] is None ==> r is None && *final(self) == *old(self),
            old(self)@[coord as int] is Some ==> r is Some && old(self)@[coord as int] == Some(
                *r.unwrap(),
            ) && final(self).valid == old(self).valid && final(self).tiles@ == old(
                self,
            ).tiles@.update(coord as int, *final(r.unwrap())),
    {
        if self.valid[coord as usize] != 0 {
            return Some(&mut self.tiles[coord as usize]);
        }
        None
    }

    /// Writes `tile` into slot `coord` (`None` empties it) and returns what
    /// the slot held before. Emptying a slot leaves its stale tile in place.
    pub fn set_tile(&mut self, coord: u8, tile: Option<Tile>) -> (r: Option<Tile>)
        ensures
            r == old(self)@[coord as int],
            final(self)@ == old(self)@.update(coord as int, tile),
            final(self).tiles@ == (match tile {
                Some(t) => old(self).tiles@.update(coord as int, t),
                None => old(self).tiles@,
            }),
            final(self).valid@ == old(self).valid@.update(
                coord as int,
                if tile is Some {
                    1u8
                } else {
                    0u8
                },
            ),
    {
        let mut res = None;
        if self.valid[coord as usize] != 0 {
            res = Some(self.tiles[coord as usize]);
        }
        match tile {
            Some(tile) => {
                self.tiles[coord as usize] = tile;
                self.valid[coord as usize] = 1;
            },
            None => self.valid[coord as usize] = 0,
        };
        assert(self@ =~= old(self)@.update(coord as int, tile));
        res
    }
    /// The byte view of the chunk, for consumers that read it as a flat
    /// buffer: the tile region of `TILE_BYTES` per slot is followed with no
    /// gap by the flag region of `FLAG_BYTES` per slot. Stale tiles of empty
    /// slots are included as they are.
    pub fn as_bytes(&self) -> (r: Vec<u8>)
        ensures
            r@ == chunk_bytes(self.tiles@, self.valid@),
            r@.len() == CHUNK_SLOTS * TILE_BYTES + CHUNK_SLOTS * FLAG_BYTES,
    {
        let ghost full = chunk_bytes(self.tiles@, self.valid@);
        let mut out: Vec<u8> = Vec::with_capacity(CHUNK_BYTES);
        let mut i: usize = 0;
        while i < CHUNK_SLOTS
            invariant
                i <= CHUNK_SLOTS,
                full == chunk_bytes(self.tiles@, self.valid@),
                out@ == full.subrange(0, 4 * i as int),
            decreases CHUNK_SLOTS - i,
        {
            let t = self.tiles[i];
            out.push((t.sheet % 256) as u8);
            out.push((t.sheet / 256) as u8);
            out.push((t.index % 256) as u8);
            out.push((t.index / 256) as u8);
            proof {
                lemma_fundamental_div_mod_converse(4 * i + 0, 4, i as int, 0);
                lemma_fundamental_div_mod_converse(4 * i + 1, 4, i as int, 1);
                lemma_fundamental_div_mod_converse(4 * i + 2, 4, i as int, 2);
                lemma_fundamental_div_mod_converse(4 * i + 3, 4, i as int, 3);
                assert(t == self.tiles@[i as int]);
                assert(full[4 * i + 0] == tile_byte(t, 0));
                assert(full[4 * i + 1] == tile_byte(t, 1));
                assert(full[4 * i + 2] == tile_byte(t, 2));
                assert(full[4 * i + 3] == tile_byte(t, 3));
                assert(out@ =~= full.subrange(0, 4 * (i + 1)));
            }
            i = i + 1;
        }
        let mut j: usize = 0;
        while j < CHUNK_SLOTS
            invariant
                j <= CHUNK_SLOTS,
                full == chunk_bytes(self.tiles@, self.valid@),
                out@ == full.subrange(0, FLAGS_OFFSET + j),
            decreases CHUNK_SLOTS - j,
        {
            out.push(self.valid[j]);
            assert(out@ =~= full.subrange(0, FLAGS_OFFSET + j + 1));
            j = j + 1;
        }
        assert(out@ =~= full);
        out
    }
}

} // verus!
