use bevy_tiling::access::{MapReader, TileMapReader, TileMapWriter};
use bevy_tiling::chunk_map::{ChunkMap, EntityId};
use bevy_tiling::sync::{
    cache_tile_rendering_entities, extract, regeneration_requests, unmapped_updates, RenderChunks,
    RenderKey, TilingBuffer, TilingCache,
};
use bevy_tiling::tile::{ChunkCoord, Tile, TileCoord};
use bevy_tiling::tile_map::TileMap;
use bevy_tiling::updates::TileMapUpdates;

struct World {
    map: TileMap,
    updates: TileMapUpdates,
    chunk_map: ChunkMap,
    entities: Vec<EntityId>,
    cache: TilingCache<u32>,
    render: RenderChunks<u32>,
    buffers_made: u32,
}

impl World {
    fn new() -> Self {
        World {
            map: TileMap::new(),
            updates: TileMapUpdates::new(),
            chunk_map: ChunkMap::new(),
            entities: Vec::new(),
            cache: TilingCache::default(),
            render: RenderChunks::new(),
            buffers_made: 0,
        }
    }

    /// Start of a cycle: forget the changes, then write.
    fn write(&mut self, coords: &[ChunkCoord]) {
        self.updates.clear();
        let mut w = TileMapWriter::new(
            std::mem::take(&mut self.map),
            std::mem::take(&mut self.updates),
        );
        for c in coords {
            w.set_tile(&TileCoord::new(*c, 0), Some(Tile::new(0, 0)));
        }
        let (map, updates) = w.into_parts();
        self.map = map;
        self.updates = updates;
        let new_chunks = unmapped_updates(&TileMapReader::new(&self.map, &self.updates), &self.chunk_map);
        for c in new_chunks {
            let ent = EntityId { bits: 100 + self.entities.len() as u64 };
            self.chunk_map.insert_chunk(&c, &ent);
            self.entities.push(ent);
        }
    }

    /// Replay and reconcile, leaving the render side filled.
    fn synchronize(&mut self) {
        let mut w = TileMapWriter::new(
            std::mem::take(&mut self.map),
            std::mem::take(&mut self.updates),
        );
        extract(&mut self.cache, &mut w, &mut self.render);
        let requests = regeneration_requests(&w, &self.chunk_map, &self.entities);
        for (ent, c) in requests {
            let bytes = w.get_chunk(&c).unwrap().as_bytes();
            assert_eq!(bytes.len(), 1280);
            self.buffers_made += 1;
            self.render.upsert(ent, TilingBuffer::Unmeshed(self.buffers_made), RenderKey(c));
        }
        let (map, updates) = w.into_parts();
        self.map = map;
        self.updates = updates;
    }

    fn end_cycle(&mut self) {
        cache_tile_rendering_entities(&mut self.cache, &mut self.render);
    }

    fn render_keys(&self) -> Vec<ChunkCoord> {
        let mut keys = Vec::new();
        for ent in &self.entities {
            if let Some((_, key)) = self.render.get(ent) {
                assert_eq!(self.chunk_map.get_chunk_entity(&key.0), Some(ent));
                keys.push(key.0);
            }
        }
        keys
    }
}

fn four_chunks() -> Vec<ChunkCoord> {
    (0..4).map(|x| ChunkCoord::new(x, 0, 0)).collect()
}

#[test]
fn caches_tiles() {
    let mut world = World::new();
    world.write(&four_chunks());
    world.synchronize();
    world.end_cycle();
    assert_eq!(world.cache.len(), 4);
}

#[test]
fn resources_survive_cycles_and_follow_removal() {
    let mut world = World::new();
    world.write(&four_chunks());
    world.synchronize();
    assert_eq!(world.render.len(), 4);
    assert_eq!(world.render_keys(), four_chunks());
    assert_eq!(world.buffers_made, 4);
    world.end_cycle();
    assert_eq!(world.render.len(), 0);

    world.write(&[]);
    world.synchronize();
    assert_eq!(world.render.len(), 4);
    assert_eq!(world.render_keys(), four_chunks());
    assert_eq!(world.buffers_made, 4);
    world.end_cycle();

    world.write(&[]);
    world.map.remove_chunk(&ChunkCoord::new(1, 0, 0));
    world.synchronize();
    assert_eq!(world.render.len(), 3);
    let mut expected = four_chunks();
    expected.remove(1);
    assert_eq!(world.render_keys(), expected);
    assert_eq!(world.cache.len(), 0);
}

#[test]
fn rewritten_chunk_gets_a_new_resource() {
    let mut world = World::new();
    world.write(&four_chunks());
    world.synchronize();
    world.end_cycle();
    let c = ChunkCoord::new(2, 0, 0);
    world.updates.clear();
    let mut w = TileMapWriter::new(std::mem::take(&mut world.map), std::mem::take(&mut world.updates));
    w.set_tile(&TileCoord::new(c, 1), Some(Tile::new(5, 5)));
    let (map, updates) = w.into_parts();
    world.map = map;
    world.updates = updates;
    world.synchronize();
    assert_eq!(world.buffers_made, 5);
    let ent = world.chunk_map.get_chunk_entity(&c).unwrap();
    assert!(matches!(world.render.get(ent), Some((TilingBuffer::Unmeshed(5), _))));
    assert_eq!(world.render.len(), 4);
}

#[test]
fn placeholder_forces_regeneration() {
    let mut map = TileMap::new();
    let c = ChunkCoord::new(0, 0, 0);
    map.set_tile(&TileCoord::new(c, 0), Some(Tile::new(1, 1)));
    let ent = EntityId { bits: 1 };
    let mut chunk_map = ChunkMap::new();
    chunk_map.insert_chunk(&c, &ent);
    let mut render: RenderChunks<u32> = RenderChunks::new();
    render.upsert(ent, TilingBuffer::Unloaded, RenderKey(c));
    let mut cache = TilingCache::default();
    cache_tile_rendering_entities(&mut cache, &mut render);
    let mut w = TileMapWriter::new(map, TileMapUpdates::new());
    extract(&mut cache, &mut w, &mut render);
    assert!(w.is_chunk_updated(&c));
    assert!(matches!(render.get(&ent), Some((TilingBuffer::Unloaded, RenderKey(k))) if *k == c));
    assert_eq!(regeneration_requests(&w, &chunk_map, &vec![ent]), vec![(ent, c)]);
}

#[test]
fn loaded_resource_is_not_forced() {
    let mut map = TileMap::new();
    let c = ChunkCoord::new(0, 0, 0);
    map.set_tile(&TileCoord::new(c, 0), Some(Tile::new(1, 1)));
    let ent = EntityId { bits: 1 };
    let mut chunk_map = ChunkMap::new();
    chunk_map.insert_chunk(&c, &ent);
    let mut render: RenderChunks<u32> = RenderChunks::new();
    render.upsert(ent, TilingBuffer::Meshed { mesh: 3, unrendered_count: 0 }, RenderKey(c));
    let mut cache = TilingCache::default();
    cache_tile_rendering_entities(&mut cache, &mut render);
    let mut w = TileMapWriter::new(map, TileMapUpdates::new());
    extract(&mut cache, &mut w, &mut render);
    assert!(!w.is_chunk_updated(&c));
    assert!(regeneration_requests(&w, &chunk_map, &vec![ent]).is_empty());
    assert_eq!(render.len(), 1);
}
