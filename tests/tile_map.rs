use bevy_tiling::tile::{ChunkCoord, Tile, TileCoord};
use bevy_tiling::tile_map::TileMap;

#[test]
fn set_then_get_round_trip() {
    let mut map = TileMap::new();
    let coords = [
        TileCoord::new(ChunkCoord::new(0, 0, 0), 0),
        TileCoord::new(ChunkCoord::new(-5, 7, i32::MAX), 255),
        TileCoord::new(ChunkCoord::new(i32::MIN, 0, 1), 128),
    ];
    for (n, c) in coords.iter().enumerate() {
        let t = Tile::new(n as u16, u16::MAX - n as u16);
        assert_eq!(map.set_tile(c, Some(t)), None);
        assert_eq!(map.get_tile(c), Some(&t));
    }
}

#[test]
fn deleting_in_missing_chunk_creates_nothing() {
    let mut map = TileMap::new();
    let c = TileCoord::new(ChunkCoord::new(1, 2, 3), 9);
    assert_eq!(map.set_tile(&c, None), None);
    assert!(map.get_chunk(&c.chunk).is_none());
    map.set_tile(&c, Some(Tile::new(1, 1)));
    assert!(map.get_chunk(&c.chunk).is_some());
}

#[test]
fn writing_creates_chunk_with_one_tile() {
    let mut map = TileMap::new();
    let c = TileCoord::new(ChunkCoord::new(4, 0, 0), 17);
    map.set_tile(&c, Some(Tile::new(3, 4)));
    let chunk = map.get_chunk(&c.chunk).unwrap();
    for i in 0..=255u8 {
        if i == 17 {
            assert_eq!(chunk.get_tile(i), Some(&Tile::new(3, 4)));
        } else {
            assert_eq!(chunk.get_tile(i), None);
        }
    }
}

#[test]
fn remove_chunk_drops_it() {
    let mut map = TileMap::new();
    let c = TileCoord::new(ChunkCoord::new(1, 0, 0), 0);
    let d = TileCoord::new(ChunkCoord::new(2, 0, 0), 0);
    map.set_tile(&c, Some(Tile::new(1, 0)));
    map.set_tile(&d, Some(Tile::new(2, 0)));
    assert!(map.remove_chunk(&c.chunk).is_some());
    assert!(map.get_chunk(&c.chunk).is_none());
    assert_eq!(map.get_tile(&c), None);
    assert_eq!(map.get_tile(&d), Some(&Tile::new(2, 0)));
    assert!(map.remove_chunk(&c.chunk).is_none());
}

#[test]
fn map_get_chunk_mut_writes_through() {
    let mut map = TileMap::new();
    let c = TileCoord::new(ChunkCoord::new(0, 1, 0), 2);
    assert!(map.get_chunk_mut(&c.chunk).is_none());
    map.set_tile(&c, Some(Tile::new(1, 1)));
    map.get_chunk_mut(&c.chunk).unwrap().set_tile(2, Some(Tile::new(8, 8)));
    assert_eq!(map.get_tile(&c), Some(&Tile::new(8, 8)));
}

#[test]
fn many_chunks_survive_removals() {
    let mut map = TileMap::new();
    let coord = |i: i32| TileCoord::new(ChunkCoord::new(i, -i, i * 3), (i % 256) as u8);
    for i in 0..100 {
        map.set_tile(&coord(i), Some(Tile::new(i as u16, 1)));
    }
    for i in (0..100).step_by(3) {
        assert!(map.remove_chunk(&coord(i).chunk).is_some());
    }
    for i in 0..100 {
        if i % 3 == 0 {
            assert_eq!(map.get_tile(&coord(i)), None);
            assert!(map.get_chunk(&coord(i).chunk).is_none());
        } else {
            assert_eq!(map.get_tile(&coord(i)), Some(&Tile::new(i as u16, 1)));
        }
    }
}
