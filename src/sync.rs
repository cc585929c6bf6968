use vstd::prelude::*;

use crate::access::{MapReader, TileMapWriter};
use crate::chunk::Chunk;
use crate::chunk_map::{ChunkMap, EntityId};
use crate::coord_table::{
    lemma_index_of_unique, lemma_table_prepend, lemma_table_push, lemma_table_update, table_map,
};
use crate::tile::ChunkCoord;

verus! {

/// The render resource derived from a chunk; `B` is the buffer type of the
/// rendering backend.
pub enum TilingBuffer<B> {
    /// A placeholder to be filled at the next opportunity.
    Unloaded,
    /// The chunk's raw bytes, not meshed yet.
    Unmeshed(B),
    /// A built mesh.
    Meshed { mesh: B, unrendered_count: usize },
}

/// Placed on render-side entities to point back at their chunk.
#[derive(Copy, Clone, Debug, PartialEq, Eq, Structural)]
pub struct RenderKey(pub ChunkCoord);

/// One render-side chunk: its entity, its resource and its chunk.
pub type RenderEntry<B> = (EntityId, (TilingBuffer<B>, RenderKey));

pub open spec fn entities_of<B>(s: Seq<RenderEntry<B>>) -> Seq<EntityId> {
    s.map_values(|p: RenderEntry<B>| p.0)
}

pub open spec fn payloads_of<B>(s: Seq<RenderEntry<B>>) -> Seq<(TilingBuffer<B>, RenderKey)> {
    s.map_values(|p: RenderEntry<B>| p.1)
}

/// The render-side chunks, one per entity. The host rebuilds this set from
/// nothing every cycle.
pub struct RenderChunks<B> {
    entries: Vec<RenderEntry<B>>,
}

impl<B> View for RenderChunks<B> {
    type V = Map<EntityId, (TilingBuffer<B>, RenderKey)>;

    closed spec fn view(&self) -> Map<EntityId, (TilingBuffer<B>, RenderKey)> {
        table_map(entities_of(self.entries@), payloads_of(self.entries@))
    }
}

impl<B> RenderChunks<B> {
    pub closed spec fn wf(&self) -> bool {
        entities_of(self.entries@).no_duplicates()
    }

    /// The entries in the order in which they were added.
    pub closed spec fn entries(&self) -> Seq<RenderEntry<B>> {
        self.entries@
    }

    pub fn new() -> (r: Self)
        ensures
            r.wf(),
            r@ == Map::<EntityId, (TilingBuffer<B>, RenderKey)>::empty(),
            r.entries() == Seq::<RenderEntry<B>>::empty(),
    {
        let r = RenderChunks { entries: Vec::new() };
        assert(r@ =~= Map::<EntityId, (TilingBuffer<B>, RenderKey)>::empty());
        r
    }

    pub fn len(&self) -> (r: usize)
        requires
            self.wf(),
        ensures
            r == self@.dom().len(),
    {
        proof {
            self.lemma_len();
        }
        self.entries.len()
    }

    proof fn lemma_len(&self)
        requires
            self.wf(),
        ensures
            self@.dom().len() == self.entries@.len(),
    {
        let ks = entities_of(self.entries@);
        assert(self@.dom() =~= ks.to_set());
        ks.unique_seq_to_set();
    }

    fn find(&self, ent: &EntityId) -> (r: Option<usize>)
        ensures
            match r {
                Some(i) => i < self.entries.len() && self.entries@[i as int].0 == *ent,
                None => !entities_of(self.entries@).contains(*ent),
            },
    {
        let mut i: usize = 0;
        while i < self.entries.len()
            invariant
                i <= self.entries.len(),
                forall|j: int| 0 <= j < i ==> self.entries@[j].0 != *ent,
            decreases self.entries.len() - i,
        {
            if self.entries[i].0 == *ent {
                return Some(i);
            }
            i = i + 1;
        }
        None
    }

    /// The resource and chunk of `ent`.
    pub fn get(&self, ent: &EntityId) -> (r: Option<&(TilingBuffer<B>, RenderKey)>)
        requires
            self.wf(),
        ensures
            r == (if self@.contains_key(*ent) {
                Some(&self@[*ent])
            } else {
                None
            }),
    {
        match self.find(ent) {
            Some(i) => {
                proof {
                    lemma_index_of_unique(entities_of(self.entries@), i as int);
                }
                Some(&self.entries[i].1)
            },
            None => None,
        }
    }

    /// Gives `ent` the resource `buffer` for chunk `key`, replacing what it
    /// had.
    pub fn upsert(&mut self, ent: EntityId, buffer: TilingBuffer<B>, key: RenderKey)
        requires
            old(self).wf(),
        ensures
            final(self).wf(),
            final(self)@ == old(self)@.insert(ent, (buffer, key)),
    {
        let ghost ks = entities_of(self.entries@);
        let ghost ps = payloads_of(self.entries@);
        match self.find(&ent) {
            Some(i) => {
                proof {
                    lemma_table_update(ks, ps, i as int);
                }
                self.entries.set(i, (ent, (buffer, key)));
                assert(entities_of(self.entries@) =~= ks);
                assert(payloads_of(self.entries@) =~= ps.update(i as int, (buffer, key)));
            },
            None => {
                proof {
                    lemma_table_push(ks, ps, ent, (buffer, key));
                }
                self.entries.push((ent, (buffer, key)));
                assert(entities_of(self.entries@) =~= ks.push(ent));
                assert(payloads_of(self.entries@) =~= ps.push((buffer, key)));
            },
        }
    }
}

/// Render-side chunks carried from the end of one cycle into the next.
pub struct TilingCache<B> {
    cache: Vec<RenderEntry<B>>,
}

impl<B> View for TilingCache<B> {
    type V = Seq<RenderEntry<B>>;

    closed spec fn view(&self) -> Seq<RenderEntry<B>> {
        self.cache@
    }
}

impl<B> Default for TilingCache<B> {
    fn default() -> (r: Self)
        ensures
            r@ == Seq::<RenderEntry<B>>::empty(),
    {
        TilingCache { cache: Vec::new() }
    }
}

impl<B> TilingCache<B> {
    pub fn len(&self) -> (r: usize)
        ensures
            r == self@.len(),
    {
        self.cache.len()
    }
}

/// Snapshots every render-side chunk into the cache and empties the render
/// side, as the host does at the end of a cycle.
pub fn cache_tile_rendering_entities<B>(cache: &mut TilingCache<B>, world: &mut RenderChunks<B>)
    requires
        old(world).wf(),
    ensures
        final(cache)@ == old(cache)@ + old(world).entries(),
        final(world).wf(),
        final(world)@ == Map::<EntityId, (TilingBuffer<B>, RenderKey)>::empty(),
{
    let mut taken: Vec<RenderEntry<B>> = Vec::new();
    std::mem::swap(&mut taken, &mut world.entries);
    cache.cache.append(&mut taken);
    assert(world@ =~= Map::<EntityId, (TilingBuffer<B>, RenderKey)>::empty());
}

/// Whether a cached entry's chunk still exists.
pub open spec fn survives<B>(e: RenderEntry<B>, tiles: Map<ChunkCoord, Chunk>) -> bool {
    tiles.contains_key((e.1).1.0)
}

/// The render side after the entries of `s` whose chunk still exists were
/// put back into `m`, the last one first.
pub open spec fn replayed<B>(
    m: Map<EntityId, (TilingBuffer<B>, RenderKey)>,
    s: Seq<RenderEntry<B>>,
    tiles: Map<ChunkCoord, Chunk>,
) -> Map<EntityId, (TilingBuffer<B>, RenderKey)>
    decreases s.len(),
{
    if s.len() == 0 {
        m
    } else {
        let rest = replayed(m, s.drop_first(), tiles);
        if survives(s[0], tiles) {
            rest.insert(s[0].0, s[0].1)
        } else {
            rest
        }
    }
}

/// The changes after every surviving entry of `s` whose resource is still
/// a placeholder has marked its chunk dirty.
pub open spec fn marked<B>(
    u: Map<ChunkCoord, Set<u8>>,
    s: Seq<RenderEntry<B>>,
    tiles: Map<ChunkCoord, Chunk>,
) -> Map<ChunkCoord, Set<u8>>
    decreases s.len(),
{
    if s.len() == 0 {
        u
    } else {
        let rest = marked(u, s.drop_first(), tiles);
        let key = (s[0].1).1.0;
        if survives(s[0], tiles) && (s[0].1).0 is Unloaded && !rest.contains_key(key) {
            rest.insert(key, Set::empty())
        } else {
            rest
        }
    }
}

/// Replays the cache into the render side at the start of a cycle. Entries
/// whose chunk is gone are dropped; the others are put back as they were,
/// and those still holding a placeholder mark their chunk dirty so that it
/// is regenerated this cycle. The cache is left empty.
pub fn extract<B>(cache: &mut TilingCache<B>, writer: &mut TileMapWriter, world: &mut RenderChunks<B>)
    requires
        old(writer).reader_wf(),
        old(world).wf(),
    ensures
        final(cache)@ == Seq::<RenderEntry<B>>::empty(),
        final(writer).reader_wf(),
        final(writer).tiles_view() == old(writer).tiles_view(),
        final(writer).updates_view() == marked(
            old(writer).updates_view(),
            old(cache)@,
            old(writer).tiles_view(),
        ),
        final(world).wf(),
        final(world)@ == replayed(old(world)@, old(cache)@, old(writer).tiles_view()),
{
    let mut entries: Vec<RenderEntry<B>> = Vec::new();
    std::mem::swap(&mut entries, &mut cache.cache);
    let ghost all = entries@;
    let ghost tiles = writer.tiles_view();
    let ghost u0 = writer.updates_view();
    let ghost w0 = world@;
    while entries.len() > 0
        invariant
            entries@ == all.subrange(0, entries@.len() as int),
            entries@.len() <= all.len(),
            writer.reader_wf(),
            writer.tiles_view() == tiles,
            writer.updates_view() == marked(u0, all.subrange(entries@.len() as int, all.len() as int), tiles),
            world.wf(),
            world@ == replayed(w0, all.subrange(entries@.len() as int, all.len() as int), tiles),
        decreases entries.len(),
    {
        let ghost k = entries@.len() - 1;
        let ghost done = all.subrange(k + 1, all.len() as int);
        let e = entries.pop().unwrap();
        let (ent, (buffer, key)) = e;
        proof {
            assert(all.subrange(k, all.len() as int).drop_first() =~= done);
            assert(all.subrange(k, all.len() as int)[0] == e);
        }
        if writer.get_chunk(&key.0).is_some() {
            if !writer.is_chunk_updated(&key.0) {
                if let TilingBuffer::Unloaded = buffer {
                    writer.mark_chunk_updated(&key.0);
                }
            }
            world.upsert(ent, buffer, key);
        }
        assert(entries@ =~= all.subrange(0, entries@.len() as int));
    }
    assert(all.subrange(0, all.len() as int) =~= all);
}

/// The chunk entities, in the order given, whose chunk is dirty and must get
/// a new resource from its current bytes, each with its chunk. Entities
/// that the chunk map does not know, or whose chunk is gone, are passed over.
pub open spec fn regeneration_plan(
    ents: Seq<EntityId>,
    chunk_of: Map<EntityId, ChunkCoord>,
    updates: Map<ChunkCoord, Set<u8>>,
    tiles: Map<ChunkCoord, Chunk>,
) -> Seq<(EntityId, ChunkCoord)>
    decreases ents.len(),
{
    if ents.len() == 0 {
        Seq::empty()
    } else {
        let rest = regeneration_plan(ents.drop_last(), chunk_of, updates, tiles);
        let e = ents.last();
        if chunk_of.contains_key(e) && updates.contains_key(chunk_of[e]) && tiles.contains_key(
            chunk_of[e],
        ) {
            rest.push((e, chunk_of[e]))
        } else {
            rest
        }
    }
}

/// Which chunk entities need a fresh resource this cycle, and for which
/// chunk: the dirty ones. The caller builds each resource from the chunk's
/// byte view and stores it with `RenderChunks::upsert`.
pub fn regeneration_requests<R: MapReader>(
    reader: &R,
    chunk_map: &ChunkMap,
    chunk_entities: &Vec<EntityId>,
) -> (r: Vec<(EntityId, ChunkCoord)>)
    requires
        reader.reader_wf(),
        chunk_map.wf(),
    ensures
        r@ == regeneration_plan(
            chunk_entities@,
            chunk_map.entity_to_key(),
            reader.updates_view(),
            reader.tiles_view(),
        ),
{
    let mut out: Vec<(EntityId, ChunkCoord)> = Vec::new();
    let mut i: usize = 0;
    while i < chunk_entities.len()
        invariant
            i <= chunk_entities.len(),
            reader.reader_wf(),
            chunk_map.wf(),
            out@ == regeneration_plan(
                chunk_entities@.subrange(0, i as int),
                chunk_map.entity_to_key(),
                reader.updates_view(),
                reader.tiles_view(),
            ),
        decreases chunk_entities.len() - i,
    {
        let ent = chunk_entities[i];
        proof {
            assert(chunk_entities@.subrange(0, i + 1).drop_last() =~= chunk_entities@.subrange(0, i as int));
        }
        match chunk_map.get_chunk_index(&ent) {
            Some(key) => {
                if reader.is_chunk_updated(key) && reader.get_chunk(key).is_some() {
                    out.push((ent, *key));
                }
            },
            None => {},
        }
        i = i + 1;
    }
    assert(chunk_entities@.subrange(0, chunk_entities@.len() as int) =~= chunk_entities@);
    out
}

/// The dirty chunks that have no entity yet, each once.
pub fn unmapped_updates<R: MapReader>(reader: &R, chunk_map: &ChunkMap) -> (r: Vec<ChunkCoord>)
    requires
        reader.reader_wf(),
        chunk_map.wf(),
    ensures
        r@.no_duplicates(),
        forall|c: ChunkCoord| #[trigger]
            r@.contains(c) <==> reader.updates_view().contains_key(c)
                && !chunk_map.key_to_entity().contains_key(c),
{
    let dirty = reader.get_chunk_updates();
    let mut out: Vec<ChunkCoord> = Vec::new();
    let mut i: usize = 0;
    while i < dirty.len()
        invariant
            i <= dirty.len(),
            chunk_map.wf(),
            dirty@.no_duplicates(),
            out@.no_duplicates(),
            forall|c: ChunkCoord| #[trigger]
                out@.contains(c) <==> dirty@.subrange(0, i as int).contains(c)
                    && !chunk_map.key_to_entity().contains_key(c),
        decreases dirty.len() - i,
    {
        let c = dirty[i];
        proof {
            assert forall|d: ChunkCoord| #[trigger] dirty@.subrange(0, i + 1).contains(d) <==> (
            dirty@.subrange(0, i as int).contains(d) || d == c) by {
                if dirty@.subrange(0, i + 1).contains(d) {
                    let j = dirty@.subrange(0, i + 1).index_of(d);
                    if j < i {
                        assert(dirty@.subrange(0, i as int)[j] == d);
                    }
                }
                if dirty@.subrange(0, i as int).contains(d) {
                    let j = dirty@.subrange(0, i as int).index_of(d);
                    assert(dirty@.subrange(0, i + 1)[j] == d);
                }
                assert(dirty@.subrange(0, i + 1)[i as int] == c);
            }
            assert(!dirty@.subrange(0, i as int).contains(c));
        }
        if chunk_map.get_chunk_entity(&c).is_none() {
            proof {
                assert forall|d: ChunkCoord| #[trigger] out@.push(c).contains(d) <==> (out@.contains(d) || d == c) by {
                    if out@.push(c).contains(d) && d != c {
                        let j = out@.push(c).index_of(d);
                        assert(out@[j] == d);
                    }
                    if out@.contains(d) {
                        let j = out@.index_of(d);
                        assert(out@.push(c)[j] == d);
                    }
                    assert(out@.push(c)[out@.len() as int] == c);
                }
                assert forall|a: int, b: int| 0 <= a < out@.len() + 1 && 0 <= b < out@.len() + 1 && a != b
                    implies out@.push(c)[a] != out@.push(c)[b] by {
                    if a == out@.len() {
                        assert(out@.contains(out@.push(c)[b]));
                    } else if b == out@.len() {
                        assert(out@.contains(out@.push(c)[a]));
                    }
                }
            }
            out.push(c);
        }
        i = i + 1;
    }
    assert(dirty@.subrange(0, dirty@.len() as int) =~= dirty@);
    out
}

proof fn lemma_replay_all<B>(s: Seq<RenderEntry<B>>, tiles: Map<ChunkCoord, Chunk>)
    requires
        entities_of(s).no_duplicates(),
        forall|i: int| 0 <= i < s.len() ==> #[trigger] survives(s[i], tiles),
    ensures
        replayed(Map::empty(), s, tiles) == table_map(entities_of(s), payloads_of(s)),
    decreases s.len(),
{
    if s.len() == 0 {
        assert(table_map(entities_of(s), payloads_of(s)) =~= Map::empty());
    } else {
        let rest = s.drop_first();
        assert(entities_of(rest) =~= entities_of(s).drop_first());
        assert(payloads_of(rest) =~= payloads_of(s).drop_first());
        lemma_table_prepend(entities_of(s), payloads_of(s));
        assert forall|i: int| 0 <= i < rest.len() implies #[trigger] survives(rest[i], tiles) by {
            assert(rest[i] == s[i + 1]);
        }
        lemma_replay_all(rest, tiles);
        assert(survives(s[0], tiles));
    }
}

/// Caching the render side and replaying it while every chunk it points at
/// still exists gives back the same render side: resources of unchanged
/// chunks come back from the cache, none is rebuilt.
pub proof fn lemma_cache_round_trip<B>(world: &RenderChunks<B>, tiles: Map<ChunkCoord, Chunk>)
    requires
        world.wf(),
        forall|e: EntityId| #[trigger] world@.contains_key(e) ==> tiles.contains_key(world@[e].1.0),
    ensures
        replayed(Map::empty(), world.entries(), tiles) == world@,
{
    let s = world.entries@;
    assert forall|i: int| 0 <= i < s.len() implies #[trigger] survives(s[i], tiles) by {
        lemma_index_of_unique(entities_of(s), i);
        assert(entities_of(s)[i] == s[i].0);
        assert(world@.contains_key(s[i].0));
        assert(payloads_of(s)[i] == s[i].1);
    }
    lemma_replay_all(s, tiles);
}

} // verus!
