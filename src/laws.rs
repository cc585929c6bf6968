use vstd::prelude::*;

use crate::access::recorded;
use crate::chunk::{
    chunk_bytes, tile_byte, Chunk, CHUNK_SLOTS, FLAGS_OFFSET, FLAG_BYTES, TILE_BYTES,
};
use crate::chunk_map::EntityId;
use crate::sync::{replayed, survives, RenderEntry, RenderKey, TilingBuffer};
use crate::tile::{ChunkCoord, Tile, TileCoord};
use crate::tile_map::{tile_at, tile_written};
use crate::updates::forced;

verus! {

/// A tile written at a coordinate is the tile read back there.
pub proof fn lemma_write_then_read(
    before: Map<ChunkCoord, Chunk>,
    after: Map<ChunkCoord, Chunk>,
    coord: TileCoord,
    tile: Tile,
)
    requires
        tile_written(before, after, coord, Some(tile)),
    ensures
        tile_at(after, coord) == Some(tile),
{
}

/// Writing a value twice through a writer records the change at most once:
/// the second write leaves the changes as the first left them, and the first
/// records the slot whenever it changed the tile.
pub proof fn lemma_debounce(
    tiles0: Map<ChunkCoord, Chunk>,
    tiles1: Map<ChunkCoord, Chunk>,
    updates0: Map<ChunkCoord, Set<u8>>,
    coord: TileCoord,
    tile: Option<Tile>,
)
    requires
        tile_written(tiles0, tiles1, coord, tile),
    ensures
        recorded(
            recorded(updates0, tile_at(tiles0, coord), coord, tile),
            tile_at(tiles1, coord),
            coord,
            tile,
        ) == recorded(updates0, tile_at(tiles0, coord), coord, tile),
        tile_at(tiles0, coord) != tile ==> recorded(
            updates0,
            tile_at(tiles0, coord),
            coord,
            tile,
        ).contains_key(coord.chunk),
{
    if !tiles1.contains_key(coord.chunk) {
        assert(tile is None);
    }
}

/// Deleting a tile in a chunk that does not exist creates no chunk and
/// changes nothing; writing a tile always leaves its chunk in place.
pub proof fn lemma_lazy_growth(
    before: Map<ChunkCoord, Chunk>,
    after: Map<ChunkCoord, Chunk>,
    coord: TileCoord,
    tile: Option<Tile>,
)
    requires
        tile_written(before, after, coord, tile),
    ensures
        tile is None && !before.contains_key(coord.chunk) ==> after == before,
        tile is Some ==> after.contains_key(coord.chunk),
{
    if tile is None && !before.contains_key(coord.chunk) {
        assert(after =~= before);
    }
}

/// The byte view of a chunk is the tile region, `TILE_BYTES` per slot,
/// followed with no gap by the flag region, `FLAG_BYTES` per slot.
pub proof fn lemma_chunk_layout(tiles: Seq<Tile>, valid: Seq<u8>)
    ensures
        chunk_bytes(tiles, valid).len() == CHUNK_SLOTS * TILE_BYTES + CHUNK_SLOTS * FLAG_BYTES,
        FLAGS_OFFSET == CHUNK_SLOTS * TILE_BYTES,
        forall|i: int, k: int|
            0 <= i < CHUNK_SLOTS && 0 <= k < TILE_BYTES ==> #[trigger] chunk_bytes(tiles, valid)[i
                * 4 + k] == tile_byte(tiles[i], k),
        forall|i: int|
            0 <= i < CHUNK_SLOTS ==> #[trigger] chunk_bytes(tiles, valid)[FLAGS_OFFSET + i] == valid[i],
{
    assert forall|i: int, k: int|
        0 <= i < CHUNK_SLOTS && 0 <= k < TILE_BYTES implies #[trigger] chunk_bytes(tiles, valid)[i * 4
            + k] == tile_byte(tiles[i], k) by {
        vstd::arithmetic::div_mod::lemma_fundamental_div_mod_converse(i * 4 + k, 4, i, k);
    }
}

/// A chunk marked dirty by hand is dirty whatever was written, and keeps
/// whatever slots it had; once the changes are cleared it is no longer
/// dirty.
pub proof fn lemma_forced_dirty(updates: Map<ChunkCoord, Set<u8>>, coord: ChunkCoord)
    ensures
        forced(updates, coord).contains_key(coord),
        updates.contains_key(coord) ==> forced(updates, coord)[coord] == updates[coord],
        !updates.contains_key(coord) ==> forced(updates, coord)[coord] == Set::<u8>::empty(),
        forall|c: ChunkCoord| #[trigger] updates.contains_key(c) ==> forced(updates, coord).contains_key(c),
        !Map::<ChunkCoord, Set<u8>>::empty().contains_key(coord),
{
}

/// Replaying a cache keeps exactly the entries whose chunk still exists:
/// an entity is on the render side afterwards if and only if it was there
/// before or a cached entry of a surviving chunk names it, and every entity
/// that the replay brought back points at a chunk that exists.
pub proof fn lemma_replay_keeps_only_live_chunks<B>(
    m: Map<EntityId, (TilingBuffer<B>, RenderKey)>,
    s: Seq<RenderEntry<B>>,
    tiles: Map<ChunkCoord, Chunk>,
)
    ensures
        forall|e: EntityId| #[trigger]
            replayed(m, s, tiles).contains_key(e) <==> (m.contains_key(e) || exists|i: int|
                0 <= i < s.len() && #[trigger] s[i].0 == e && survives(s[i], tiles)),
        forall|e: EntityId| #[trigger]
            replayed(m, s, tiles).contains_key(e) && !m.contains_key(e) ==> tiles.contains_key(
                replayed(m, s, tiles)[e].1.0,
            ),
    decreases s.len(),
{
    if s.len() > 0 {
        let rest = s.drop_first();
        let r = replayed(m, rest, tiles);
        lemma_replay_keeps_only_live_chunks(m, rest, tiles);
        assert(replayed(m, s, tiles) == (if survives(s[0], tiles) {
            r.insert(s[0].0, s[0].1)
        } else {
            r
        }));
        assert forall|e: EntityId| #[trigger]
            replayed(m, s, tiles).contains_key(e) <==> (m.contains_key(e) || exists|i: int|
                0 <= i < s.len() && #[trigger] s[i].0 == e && survives(s[i], tiles)) by {
            if exists|i: int| 0 <= i < s.len() && #[trigger] s[i].0 == e && survives(s[i], tiles) {
                let i = choose|i: int| 0 <= i < s.len() && #[trigger] s[i].0 == e && survives(s[i], tiles);
                if i > 0 {
                    assert(0 <= i - 1 < rest.len() && rest[i - 1] == s[i]);
                    assert(r.contains_key(e));
                }
            }
            if r.contains_key(e) && !m.contains_key(e) {
                let j = choose|j: int| 0 <= j < rest.len() && #[trigger] rest[j].0 == e && survives(rest[j], tiles);
                assert(s[j + 1] == rest[j]);
            }
        }
    }
}

} // verus!
