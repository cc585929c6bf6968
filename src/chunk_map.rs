use vstd::prelude::*;

use crate::chunk_index::{entity_index_contents, index_contents, ChunkIndex, EntityIndex};
use crate::coord_table::{
    key_of, lemma_index_of_unique, lemma_table_push, lemma_table_swap_remove, table_map,
};
use crate::tile::ChunkCoord;

verus! {

/// Opaque handle of the outside object (an entity) that stands for a chunk.
#[derive(Copy, Clone, Debug, Hash, PartialEq, Eq, Structural)]
pub struct EntityId {
    pub bits: u64,
}

/// One-to-one pairing of chunk coordinates with entities: `keys[i]` is
/// paired with `ents[i]`, neither side repeats, and each side has a hash
/// index to its positions.
pub struct ChunkMap {
    keys: Vec<ChunkCoord>,
    ents: Vec<EntityId>,
    by_key: ChunkIndex,
    by_ent: EntityIndex,
}

/// `fwd` and `bwd` are inverse to each other.
pub open spec fn inverse_maps(fwd: Map<ChunkCoord, EntityId>, bwd: Map<EntityId, ChunkCoord>) -> bool {
    &&& forall|c: ChunkCoord| #[trigger]
        fwd.contains_key(c) ==> bwd.contains_key(fwd[c]) && bwd[fwd[c]] == c
    &&& forall|e: EntityId| #[trigger]
        bwd.contains_key(e) ==> fwd.contains_key(bwd[e]) && fwd[bwd[e]] == e
}

proof fn lemma_paired_inverse(keys: Seq<ChunkCoord>, ents: Seq<EntityId>)
    requires
        keys.no_duplicates(),
        ents.no_duplicates(),
        keys.len() == ents.len(),
    ensures
        inverse_maps(table_map(keys, ents), table_map(ents, keys)),
{
    assert forall|c: ChunkCoord| #[trigger] table_map(keys, ents).contains_key(c) implies table_map(
        ents,
        keys,
    ).contains_key(table_map(keys, ents)[c]) && table_map(ents, keys)[table_map(keys, ents)[c]]
        == c by {
        let i = keys.index_of(c);
        lemma_index_of_unique(ents, i);
    }
    assert forall|e: EntityId| #[trigger] table_map(ents, keys).contains_key(e) implies table_map(
        keys,
        ents,
    ).contains_key(table_map(ents, keys)[e]) && table_map(keys, ents)[table_map(ents, keys)[e]]
        == e by {
        let i = ents.index_of(e);
        lemma_index_of_unique(keys, i);
    }
}

impl Default for ChunkMap {
    fn default() -> (r: Self)
        ensures
            r.wf(),
            r.key_to_entity() == Map::<ChunkCoord, EntityId>::empty(),
            r.entity_to_key() == Map::<EntityId, ChunkCoord>::empty(),
    {
        ChunkMap::new()
    }
}

impl ChunkMap {
    pub closed spec fn wf(&self) -> bool {
        &&& self.keys.len() == self.ents.len()
        &&& self.keys@.no_duplicates()
        &&& self.ents@.no_duplicates()
        &&& forall|i: int|
            0 <= i < self.keys.len() ==> index_contents(self.by_key).contains_key(
                key_of(#[trigger] self.keys@[i]),
            ) && index_contents(self.by_key)[key_of(self.keys@[i])] == i
        &&& forall|k: (i32, i32, i32)| #[trigger]
            index_contents(self.by_key).contains_key(k) ==> index_contents(self.by_key)[k]
                < self.keys.len() && key_of(self.keys@[index_contents(self.by_key)[k] as int]) == k
        &&& forall|i: int|
            0 <= i < self.ents.len() ==> entity_index_contents(self.by_ent).contains_key(
                (#[trigger] self.ents@[i]).bits,
            ) && entity_index_contents(self.by_ent)[self.ents@[i].bits] == i
        &&& forall|k: u64| #[trigger]
            entity_index_contents(self.by_ent).contains_key(k) ==> entity_index_contents(
                self.by_ent,
            )[k] < self.ents.len() && self.ents@[entity_index_contents(self.by_ent)[k] as int].bits
                == k
    }

    /// The entity of each chunk.
    pub closed spec fn key_to_entity(&self) -> Map<ChunkCoord, EntityId> {
        table_map(self.keys@, self.ents@)
    }

    /// The chunk of each entity.
    pub closed spec fn entity_to_key(&self) -> Map<EntityId, ChunkCoord> {
        table_map(self.ents@, self.keys@)
    }

    pub fn new() -> (r: Self)
        ensures
            r.wf(),
            r.key_to_entity() == Map::<ChunkCoord, EntityId>::empty(),
            r.entity_to_key() == Map::<EntityId, ChunkCoord>::empty(),
    {
        let r = ChunkMap {
            keys: Vec::new(),
            ents: Vec::new(),
            by_key: ChunkIndex::new(),
            by_ent: EntityIndex::new(),
        };
        assert(r.key_to_entity() =~= Map::<ChunkCoord, EntityId>::empty());
        assert(r.entity_to_key() =~= Map::<EntityId, ChunkCoord>::empty());
        r
    }

    fn find_key(&self, key: &ChunkCoord) -> (r: Option<usize>)
        requires
            self.wf(),
        ensures
            match r {
                Some(i) => i < self.keys.len() && self.keys@[i as int] == *key,
                None => !self.keys@.contains(*key),
            },
    {
        let r = self.by_key.get((key.x, key.y, key.z));
        proof {
            match r {
                Some(i) => {
                    assert(key_of(self.keys@[i as int]) == key_of(*key));
                },
                None => {
                    if self.keys@.contains(*key) {
                        let j = self.keys@.index_of(*key);
                        assert(index_contents(self.by_key).contains_key(key_of(self.keys@[j])));
                    }
                },
            }
        }
        r
    }

    fn find_ent(&self, ent: &EntityId) -> (r: Option<usize>)
        requires
            self.wf(),
        ensures
            match r {
                Some(i) => i < self.ents.len() && self.ents@[i as int] == *ent,
                None => !self.ents@.contains(*ent),
            },
    {
        let r = self.by_ent.get(ent.bits);
        proof {
            match r {
                Some(i) => {
                    assert(self.ents@[i as int].bits == ent.bits);
                },
                None => {
                    if self.ents@.contains(*ent) {
                        let j = self.ents@.index_of(*ent);
                        assert(entity_index_contents(self.by_ent).contains_key(self.ents@[j].bits));
                    }
                },
            }
        }
        r
    }

    /// Removes the pair at position `i` from both sides; the last pair
    /// takes its place.
    fn remove_at(&mut self, i: usize)
        requires
            old(self).wf(),
            i < old(self).keys.len(),
        ensures
            final(self).wf(),
            final(self).key_to_entity() == old(self).key_to_entity().remove(old(self).keys@[i as int]),
            final(self).entity_to_key() == old(self).entity_to_key().remove(old(self).ents@[i as int]),
    {
        proof {
            lemma_table_swap_remove(self.keys@, self.ents@, i as int);
            lemma_table_swap_remove(self.ents@, self.keys@, i as int);
        }
        let last = self.keys.len() - 1;
        let moved_key = self.keys[last];
        let moved_ent = self.ents[last];
        let gone_key = self.keys[i];
        let gone_ent = self.ents[i];
        if i != last {
            self.by_key.insert((moved_key.x, moved_key.y, moved_key.z), i);
            self.by_ent.insert(moved_ent.bits, i);
        }
        self.by_key.remove((gone_key.x, gone_key.y, gone_key.z));
        self.by_ent.remove(gone_ent.bits);
        self.keys.swap_remove(i);
        self.ents.swap_remove(i);
        proof {
            let ok = old(self).keys@;
            let oe = old(self).ents@;
            assert forall|j: int| 0 <= j < self.keys.len() implies index_contents(
                self.by_key,
            ).contains_key(key_of(#[trigger] self.keys@[j]))
                && index_contents(self.by_key)[key_of(self.keys@[j])] == j by {
                if j == i {
                    assert(self.keys@[j] == ok[last as int]);
                    assert(ok[last as int] != ok[i as int]);
                } else {
                    assert(self.keys@[j] == ok[j]);
                    assert(ok[j] != ok[i as int]);
                    assert(ok[j] != ok[last as int]);
                }
            }
            assert forall|k: (i32, i32, i32)| #[trigger]
                index_contents(self.by_key).contains_key(k) implies index_contents(self.by_key)[k]
                < self.keys.len() && key_of(self.keys@[index_contents(self.by_key)[k] as int]) == k by {
                if i != last && k == key_of(moved_key) {
                } else {
                    let p = index_contents(old(self).by_key)[k];
                    assert(key_of(ok[p as int]) == k);
                    if p == last {
                        assert(k == key_of(moved_key));
                    }
                    assert(p != i);
                }
            }
            assert forall|j: int| 0 <= j < self.ents.len() implies entity_index_contents(
                self.by_ent,
            ).contains_key((#[trigger] self.ents@[j]).bits)
                && entity_index_contents(self.by_ent)[self.ents@[j].bits] == j by {
                if j == i {
                    assert(self.ents@[j] == oe[last as int]);
                    assert(oe[last as int] != oe[i as int]);
                } else {
                    assert(self.ents@[j] == oe[j]);
                    assert(oe[j] != oe[i as int]);
                    assert(oe[j] != oe[last as int]);
                }
            }
            assert forall|k: u64| #[trigger]
                entity_index_contents(self.by_ent).contains_key(k) implies entity_index_contents(
                self.by_ent,
            )[k] < self.ents.len() && self.ents@[entity_index_contents(self.by_ent)[k] as int].bits
                == k by {
                if i != last && k == moved_ent.bits {
                } else {
                    let p = entity_index_contents(old(self).by_ent)[k];
                    assert(oe[p as int].bits == k);
                    if p == last {
                        assert(k == moved_ent.bits);
                    }
                    assert(p != i);
                }
            }
        }
    }

    /// Get the chunk coordinate of a chunk entity.
    pub fn get_chunk_index(&self, ent: &EntityId) -> (r: Option<&ChunkCoord>)
        requires
            self.wf(),
        ensures
            r == (if self.entity_to_key().contains_key(*ent) {
                Some(&self.entity_to_key()[*ent])
            } else {
                None
            }),
    {
        match self.find_ent(ent) {
            Some(i) => {
                proof {
                    lemma_index_of_unique(self.ents@, i as int);
                }
                Some(&self.keys[i])
            },
            None => None,
        }
    }

    /// Get the chunk entity of a chunk coordinate.
    pub fn get_chunk_entity(&self, key: &ChunkCoord) -> (r: Option<&EntityId>)
        requires
            self.wf(),
        ensures
            r == (if self.key_to_entity().contains_key(*key) {
                Some(&self.key_to_entity()[*key])
            } else {
                None
            }),
    {
        match self.find_key(key) {
            Some(i) => {
                proof {
                    lemma_index_of_unique(self.keys@, i as int);
                }
                Some(&self.ents[i])
            },
            None => None,
        }
    }

    /// Removes the given chunk from the map by its coordinate and returns the
    /// entity it was paired with.
    pub fn remove_chunk_by_key(&mut self, key: &ChunkCoord) -> (r: Option<EntityId>)
        requires
            old(self).wf(),
        ensures
            final(self).wf(),
            r == (if old(self).key_to_entity().contains_key(*key) {
                Some(old(self).key_to_entity()[*key])
            } else {
                None
            }),
            final(self).key_to_entity() == old(self).key_to_entity().remove(*key),
            final(self).entity_to_key() == (match r {
                Some(e) => old(self).entity_to_key().remove(e),
                None => old(self).entity_to_key(),
            }),
    {
        match self.find_key(key) {
            Some(i) => {
                proof {
                    lemma_index_of_unique(self.keys@, i as int);
                }
                let e = self.ents[i];
                self.remove_at(i);
                Some(e)
            },
            None => {
                assert(self.key_to_entity().remove(*key) =~= self.key_to_entity());
                None
            },
        }
    }

    /// Removes the given chunk from the map by its entity and returns the
    /// coordinate it was paired with.
    pub fn remove_chunk_by_entity(&mut self, ent: &EntityId) -> (r: Option<ChunkCoord>)
        requires
            old(self).wf(),
        ensures
            final(self).wf(),
            r == (if old(self).entity_to_key().contains_key(*ent) {
                Some(old(self).entity_to_key()[*ent])
            } else {
                None
            }),
            final(self).entity_to_key() == old(self).entity_to_key().remove(*ent),
            final(self).key_to_entity() == (match r {
                Some(c) => old(self).key_to_entity().remove(c),
                None => old(self).key_to_entity(),
            }),
    {
        match self.find_ent(ent) {
            Some(i) => {
                proof {
                    lemma_index_of_unique(self.ents@, i as int);
                }
                let c = self.keys[i];
                self.remove_at(i);
                Some(c)
            },
            None => {
                assert(self.entity_to_key().remove(*ent) =~= self.entity_to_key());
                None
            },
        }
    }

    /// Pairs `key` with `ent`. A pairing that either side had before is
    /// dropped; the one of `ent` is returned if there was one, else the one
    /// of `key`.
    pub fn insert_chunk(&mut self, key: &ChunkCoord, ent: &EntityId) -> (r: Option<
        (ChunkCoord, EntityId),
    >)
        requires
            old(self).wf(),
        ensures
            final(self).wf(),
            r == (if old(self).entity_to_key().contains_key(*ent) {
                Some((old(self).entity_to_key()[*ent], *ent))
            } else if old(self).key_to_entity().contains_key(*key) {
                Some((*key, old(self).key_to_entity()[*key]))
            } else {
                None
            }),
            final(self).key_to_entity() == (if old(self).entity_to_key().contains_key(*ent) {
                old(self).key_to_entity().remove(old(self).entity_to_key()[*ent])
            } else {
                old(self).key_to_entity()
            }).insert(*key, *ent),
            final(self).entity_to_key() == (if old(self).key_to_entity().contains_key(*key) {
                old(self).entity_to_key().remove(old(self).key_to_entity()[*key])
            } else {
                old(self).entity_to_key()
            }).insert(*ent, *key),
    {
        proof {
            lemma_paired_inverse(self.keys@, self.ents@);
        }
        let by_ent = self.remove_chunk_by_entity(ent);
        let by_key = self.remove_chunk_by_key(key);
        proof {
            assert(!self.key_to_entity().contains_key(*key));
            assert(!self.entity_to_key().contains_key(*ent));
            assert(!self.keys@.contains(*key));
            assert(!self.ents@.contains(*ent));
            lemma_table_push(self.keys@, self.ents@, *key, *ent);
            lemma_table_push(self.ents@, self.keys@, *ent, *key);
        }
        let ghost mid = *self;
        let n = self.keys.len();
        self.by_key.insert((key.x, key.y, key.z), n);
        self.by_ent.insert(ent.bits, n);
        self.keys.push(*key);
        self.ents.push(*ent);
        proof {
            assert forall|j: int| 0 <= j < self.keys.len() implies index_contents(
                self.by_key,
            ).contains_key(key_of(#[trigger] self.keys@[j]))
                && index_contents(self.by_key)[key_of(self.keys@[j])] == j by {
                if j < n {
                    assert(self.keys@[j] == mid.keys@[j]);
                    assert(self.keys@[j] != *key);
                }
            }
            assert forall|j: int| 0 <= j < self.ents.len() implies entity_index_contents(
                self.by_ent,
            ).contains_key((#[trigger] self.ents@[j]).bits)
                && entity_index_contents(self.by_ent)[self.ents@[j].bits] == j by {
                if j < n {
                    assert(self.ents@[j] == mid.ents@[j]);
                    assert(self.ents@[j] != *ent);
                }
            }
        }
        let ghost o = *old(self);
        assert(self.key_to_entity() =~= (if o.entity_to_key().contains_key(*ent) {
            o.key_to_entity().remove(o.entity_to_key()[*ent])
        } else {
            o.key_to_entity()
        }).insert(*key, *ent));
        assert(self.entity_to_key() =~= (if o.key_to_entity().contains_key(*key) {
            o.entity_to_key().remove(o.key_to_entity()[*key])
        } else {
            o.entity_to_key()
        }).insert(*ent, *key));
        match by_ent {
            Some(c) => Some((c, *ent)),
            None => match by_key {
                Some(e) => Some((*key, e)),
                None => None,
            },
        }
    }
}

/// Whatever inserts and removals a chunk map went through, each stored
/// coordinate names an entity that names that same coordinate back, and
/// each stored entity names a coordinate that names it back.
pub proof fn lemma_chunk_map_bijection(m: &ChunkMap)
    requires
        m.wf(),
    ensures
        inverse_maps(m.key_to_entity(), m.entity_to_key()),
{
    lemma_paired_inverse(m.keys@, m.ents@);
}

} // verus!
