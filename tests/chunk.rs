use std::mem::size_of;

use bevy_tiling::chunk::{Chunk, CHUNK_BYTES, FLAGS_OFFSET};
use bevy_tiling::tile::Tile;

#[test]
fn chunk_layout() {
    assert_eq!(
        size_of::<Chunk>(),
        size_of::<Tile>() * 256 + size_of::<bool>() * 256
    );
    let chunk = Chunk::default();
    let tiles = &chunk.tiles[..];
    let valid = &chunk.valid[..];
    let tiles_end = tiles.as_ptr().wrapping_add(tiles.len()) as usize;
    assert_eq!(tiles_end, valid.as_ptr() as usize);
}

#[test]
fn byte_view_length_and_regions() {
    let mut chunk = Chunk::default();
    chunk.set_tile(0, Some(Tile::new(0x0102, 0x0304)));
    chunk.set_tile(255, Some(Tile::new(7, 9)));
    let bytes = chunk.as_bytes();
    assert_eq!(bytes.len(), size_of::<Tile>() * 256 + size_of::<bool>() * 256);
    assert_eq!(bytes.len(), CHUNK_BYTES);
    assert_eq!(&bytes[0..4], &[0x02, 0x01, 0x04, 0x03]);
    assert_eq!(&bytes[1020..1024], &[7, 0, 9, 0]);
    assert_eq!(bytes[FLAGS_OFFSET], 1);
    assert_eq!(bytes[FLAGS_OFFSET + 1], 0);
    assert_eq!(bytes[FLAGS_OFFSET + 255], 1);
}

#[test]
fn chunk_set_returns_previous() {
    let mut chunk = Chunk::default();
    assert_eq!(chunk.get_tile(3), None);
    assert_eq!(chunk.set_tile(3, Some(Tile::new(1, 2))), None);
    assert_eq!(chunk.get_tile(3), Some(&Tile::new(1, 2)));
    assert_eq!(chunk.set_tile(3, Some(Tile::new(1, 2))), Some(Tile::new(1, 2)));
    assert_eq!(chunk.set_tile(3, None), Some(Tile::new(1, 2)));
    assert_eq!(chunk.get_tile(3), None);
    assert_eq!(chunk.set_tile(3, None), None);
}

#[test]
fn clearing_a_slot_keeps_its_stale_tile() {
    let mut chunk = Chunk::default();
    chunk.set_tile(10, Some(Tile::new(5, 6)));
    chunk.set_tile(10, None);
    assert_eq!(chunk.tiles[10], Tile::new(5, 6));
    assert_eq!(chunk.valid[10], 0);
    let bytes = chunk.as_bytes();
    assert_eq!(&bytes[40..44], &[5, 0, 6, 0]);
    assert_eq!(bytes[FLAGS_OFFSET + 10], 0);
}

#[test]
fn chunk_get_tile_mut_only_for_present_tiles() {
    let mut chunk = Chunk::default();
    assert!(chunk.get_tile_mut(4).is_none());
    chunk.set_tile(4, Some(Tile::new(1, 1)));
    *chunk.get_tile_mut(4).unwrap() = Tile::new(2, 2);
    assert_eq!(chunk.get_tile(4), Some(&Tile::new(2, 2)));
}
