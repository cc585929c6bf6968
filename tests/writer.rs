use bevy_tiling::access::{DuplicateTile, MapReader, TileMapReader, TileMapWriter};
use bevy_tiling::tile::{ChunkCoord, Tile, TileCoord};
use bevy_tiling::tile_map::TileMap;
use bevy_tiling::updates::TileMapUpdates;

fn writer() -> TileMapWriter {
    TileMapWriter::new(TileMap::new(), TileMapUpdates::new())
}

#[test]
fn same_value_twice_marks_once() {
    let c = TileCoord::new(ChunkCoord::new(0, 0, 0), 5);
    let mut w = writer();
    assert_eq!(w.set_tile(&c, Some(Tile::new(1, 1))), None);
    assert!(w.is_chunk_updated(&c.chunk));
    let (map, mut updates) = w.into_parts();
    updates.clear();
    let mut w = TileMapWriter::new(map, updates);
    assert_eq!(w.set_tile(&c, Some(Tile::new(1, 1))), Some(Tile::new(1, 1)));
    assert!(!w.is_chunk_updated(&c.chunk));
    assert!(w.get_chunk_updates().is_empty());
}

#[test]
fn deleting_an_absent_tile_records_nothing() {
    let c = TileCoord::new(ChunkCoord::new(3, 3, 3), 1);
    let mut w = writer();
    assert_eq!(w.set_tile(&c, None), None);
    assert!(!w.is_chunk_updated(&c.chunk));
    assert!(w.get_chunk(&c.chunk).is_none());
}

#[test]
fn changed_slot_is_recorded() {
    let c = TileCoord::new(ChunkCoord::new(0, 0, 1), 42);
    let other = TileCoord::new(ChunkCoord::new(0, 0, 1), 43);
    let mut w = writer();
    w.set_tile(&c, Some(Tile::new(2, 3)));
    let (map, updates) = w.into_parts();
    assert!(updates.is_tile_updated(&c));
    assert!(!updates.is_tile_updated(&other));
    assert_eq!(map.get_tile(&c), Some(&Tile::new(2, 3)));
}

#[test]
fn silent_write_records_nothing() {
    let c = TileCoord::new(ChunkCoord::new(0, 2, 0), 0);
    let mut w = writer();
    assert_eq!(w.set_tile_no_update(&c, Some(Tile::new(4, 4))), None);
    assert_eq!(w.get_tile(&c), Some(&Tile::new(4, 4)));
    assert!(!w.is_chunk_updated(&c.chunk));
}

#[test]
fn forced_dirty_until_clear() {
    let c = ChunkCoord::new(9, 9, 9);
    let mut w = writer();
    w.mark_chunk_updated(&c);
    w.mark_chunk_updated(&c);
    assert!(w.is_chunk_updated(&c));
    assert_eq!(w.get_chunk_updates(), vec![c]);
    let (map, mut updates) = w.into_parts();
    updates.clear();
    let reader = TileMapReader::new(&map, &updates);
    assert!(!reader.is_chunk_updated(&c));
    assert!(reader.get_chunk_updates().is_empty());
}

#[test]
fn forced_dirty_keeps_recorded_slots() {
    let c = TileCoord::new(ChunkCoord::new(1, 1, 1), 7);
    let mut w = writer();
    w.set_tile(&c, Some(Tile::new(1, 2)));
    w.mark_chunk_updated(&c.chunk);
    let (_, updates) = w.into_parts();
    assert!(updates.is_tile_updated(&c));
}

#[test]
fn writer_get_tile_mut_records_nothing() {
    let c = TileCoord::new(ChunkCoord::new(0, 0, 0), 1);
    let mut w = writer();
    assert!(w.get_tile_mut(&c).is_none());
    w.set_tile_no_update(&c, Some(Tile::new(1, 1)));
    *w.get_tile_mut(&c).unwrap() = Tile::new(6, 6);
    assert_eq!(w.get_tile(&c), Some(&Tile::new(6, 6)));
    assert!(!w.is_chunk_updated(&c.chunk));
    w.get_chunk_mut(&c.chunk).unwrap().set_tile(1, None);
    assert_eq!(w.get_tile(&c), None);
}

#[test]
fn disjoint_bulk_overwrite() {
    let a = TileCoord::new(ChunkCoord::new(0, 0, 0), 1);
    let b = TileCoord::new(ChunkCoord::new(0, 0, 0), 2);
    let absent = TileCoord::new(ChunkCoord::new(0, 0, 0), 3);
    let mut w = writer();
    w.set_tile_no_update(&a, Some(Tile::new(1, 0)));
    w.set_tile_no_update(&b, Some(Tile::new(2, 0)));
    let edits = vec![(a, Tile::new(10, 0)), (b, Tile::new(20, 0)), (absent, Tile::new(30, 0))];
    assert_eq!(w.set_tiles_disjoint(&edits), Ok(()));
    assert_eq!(w.get_tile(&a), Some(&Tile::new(10, 0)));
    assert_eq!(w.get_tile(&b), Some(&Tile::new(20, 0)));
    assert_eq!(w.get_tile(&absent), None);
    assert!(!w.is_chunk_updated(&a.chunk));
}

#[test]
fn duplicate_bulk_overwrite_is_refused() {
    let a = TileCoord::new(ChunkCoord::new(0, 0, 0), 1);
    let mut w = writer();
    w.set_tile_no_update(&a, Some(Tile::new(1, 0)));
    let edits = vec![(a, Tile::new(10, 0)), (a, Tile::new(20, 0))];
    assert_eq!(w.set_tiles_disjoint(&edits), Err(DuplicateTile(a)));
    assert_eq!(w.get_tile(&a), Some(&Tile::new(1, 0)));
}
