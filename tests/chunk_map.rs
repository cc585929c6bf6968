use bevy_tiling::chunk_map::{ChunkMap, EntityId};
use bevy_tiling::tile::ChunkCoord;

fn e(bits: u64) -> EntityId {
    EntityId { bits }
}

fn assert_bijective(m: &ChunkMap, coords: &[ChunkCoord], ents: &[EntityId]) {
    for c in coords {
        if let Some(ent) = m.get_chunk_entity(c) {
            assert_eq!(m.get_chunk_index(ent), Some(c));
        }
    }
    for ent in ents {
        if let Some(c) = m.get_chunk_index(ent) {
            assert_eq!(m.get_chunk_entity(c), Some(ent));
        }
    }
}

#[test]
fn insert_and_lookup_both_ways() {
    let mut m = ChunkMap::new();
    let c = ChunkCoord::new(1, 2, 3);
    assert_eq!(m.insert_chunk(&c, &e(7)), None);
    assert_eq!(m.get_chunk_entity(&c), Some(&e(7)));
    assert_eq!(m.get_chunk_index(&e(7)), Some(&c));
}

#[test]
fn reinserting_entity_evicts_its_old_chunk() {
    let mut m = ChunkMap::new();
    let c1 = ChunkCoord::new(1, 0, 0);
    let c2 = ChunkCoord::new(2, 0, 0);
    m.insert_chunk(&c1, &e(1));
    assert_eq!(m.insert_chunk(&c2, &e(1)), Some((c1, e(1))));
    assert_eq!(m.get_chunk_entity(&c1), None);
    assert_eq!(m.get_chunk_index(&e(1)), Some(&c2));
}

#[test]
fn reinserting_chunk_evicts_its_old_entity() {
    let mut m = ChunkMap::new();
    let c = ChunkCoord::new(1, 0, 0);
    m.insert_chunk(&c, &e(1));
    assert_eq!(m.insert_chunk(&c, &e(2)), Some((c, e(1))));
    assert_eq!(m.get_chunk_index(&e(1)), None);
    assert_eq!(m.get_chunk_entity(&c), Some(&e(2)));
}

#[test]
fn removal_by_either_side() {
    let mut m = ChunkMap::new();
    let c1 = ChunkCoord::new(1, 0, 0);
    let c2 = ChunkCoord::new(2, 0, 0);
    m.insert_chunk(&c1, &e(1));
    m.insert_chunk(&c2, &e(2));
    assert_eq!(m.remove_chunk_by_key(&c1), Some(e(1)));
    assert_eq!(m.get_chunk_index(&e(1)), None);
    assert_eq!(m.remove_chunk_by_key(&c1), None);
    assert_eq!(m.remove_chunk_by_entity(&e(2)), Some(c2));
    assert_eq!(m.get_chunk_entity(&c2), None);
    assert_eq!(m.remove_chunk_by_entity(&e(2)), None);
}

#[test]
fn stays_bijective_under_mixed_operations() {
    let coords: Vec<ChunkCoord> = (0..5).map(|i| ChunkCoord::new(i, -i, 0)).collect();
    let ents: Vec<EntityId> = (0..5).map(e).collect();
    let mut m = ChunkMap::new();
    let ops: [(usize, usize, u8); 10] = [
        (0, 0, 0),
        (1, 1, 0),
        (1, 0, 0),
        (2, 2, 0),
        (2, 3, 0),
        (3, 3, 1),
        (4, 2, 0),
        (0, 4, 0),
        (4, 0, 2),
        (3, 1, 0),
    ];
    for (ci, ei, kind) in ops {
        match kind {
            0 => {
                m.insert_chunk(&coords[ci], &ents[ei]);
            }
            1 => {
                m.remove_chunk_by_key(&coords[ci]);
            }
            _ => {
                m.remove_chunk_by_entity(&ents[ei]);
            }
        }
        assert_bijective(&m, &coords, &ents);
    }
}

#[test]
fn many_pairs_survive_removals() {
    let mut m = ChunkMap::new();
    for i in 0..60 {
        m.insert_chunk(&ChunkCoord::new(i, 0, 0), &e(1000 + i as u64));
    }
    for i in (0..60).step_by(4) {
        assert_eq!(m.remove_chunk_by_key(&ChunkCoord::new(i, 0, 0)), Some(e(1000 + i as u64)));
    }
    for i in (1..60).step_by(4) {
        assert_eq!(m.remove_chunk_by_entity(&e(1000 + i as u64)), Some(ChunkCoord::new(i, 0, 0)));
    }
    for i in 0..60 {
        let c = ChunkCoord::new(i, 0, 0);
        if i % 4 < 2 {
            assert_eq!(m.get_chunk_entity(&c), None);
            assert_eq!(m.get_chunk_index(&e(1000 + i as u64)), None);
        } else {
            assert_eq!(m.get_chunk_entity(&c), Some(&e(1000 + i as u64)));
            assert_eq!(m.get_chunk_index(&e(1000 + i as u64)), Some(&c));
        }
    }
}
