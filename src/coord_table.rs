use vstd::prelude::*;

use crate::chunk_index::{index_contents, ChunkIndex};
use crate::tile::ChunkCoord;

verus! {

/// Arena of values addressed by chunk coordinate: `coords[i]` is the key of
/// `vals[i]`, no coordinate appears twice, and `index` gives the position of
/// each coordinate.
pub struct CoordTable<V> {
    coords: Vec<ChunkCoord>,
    vals: Vec<V>,
    index: ChunkIndex,
}

/// The key under which a coordinate is indexed.
pub open spec fn key_of(c: ChunkCoord) -> (i32, i32, i32) {
    (c.x, c.y, c.z)
}

impl<V> View for CoordTable<V> {
    type V = Map<ChunkCoord, V>;

    closed spec fn view(&self) -> Map<ChunkCoord, V> {
        table_map(self.coords@, self.vals@)
    }
}

/// The map that pairs `keys[i]` with `vals[i]`.
pub open spec fn table_map<K, V>(keys: Seq<K>, vals: Seq<V>) -> Map<K, V> {
    Map::new(|k: K| keys.contains(k), |k: K| vals[keys.index_of(k)])
}

/// In a sequence without duplicates, the element at `i` is found at `i`.
pub proof fn lemma_index_of_unique<K>(s: Seq<K>, i: int)
    requires
        s.no_duplicates(),
        0 <= i < s.len(),
    ensures
        s.contains(s[i]),
        s.index_of(s[i]) == i,
{
    assert(s.contains(s[i]));
}

/// Overwriting the value at `i` overwrites the value of `keys[i]`.
pub proof fn lemma_table_update<K, V>(keys: Seq<K>, vals: Seq<V>, i: int)
    requires
        keys.no_duplicates(),
        keys.len() == vals.len(),
        0 <= i < keys.len(),
    ensures
        forall|x: V| #[trigger]
            table_map(keys, vals.update(i, x)) == table_map(keys, vals).insert(keys[i], x),
{
    assert forall|x: V| #[trigger]
        table_map(keys, vals.update(i, x)) == table_map(keys, vals).insert(keys[i], x) by {
        lemma_index_of_unique(keys, i);
        assert forall|k: K| #[trigger] keys.contains(k) && k != keys[i] implies keys.index_of(k)
            != i by {}
        assert(table_map(keys, vals.update(i, x)) =~= table_map(keys, vals).insert(keys[i], x));
    }
}

/// Appending a new key adds its pair and keeps the keys distinct.
pub proof fn lemma_table_push<K, V>(keys: Seq<K>, vals: Seq<V>, k: K, v: V)
    requires
        keys.no_duplicates(),
        keys.len() == vals.len(),
        !keys.contains(k),
    ensures
        keys.push(k).no_duplicates(),
        table_map(keys.push(k), vals.push(v)) == table_map(keys, vals).insert(k, v),
{
    let nk = keys.push(k);
    let nv = vals.push(v);
    assert forall|a: int, b: int|
        0 <= a < nk.len() && 0 <= b < nk.len() && a != b implies nk[a] != nk[b] by {
        if a < keys.len() && b < keys.len() {
        } else if a < keys.len() {
            assert(keys[a] == nk[a]);
        } else {
            assert(keys[b] == nk[b]);
        }
    }
    assert forall|q: K| #[trigger] keys.contains(q) implies nk.index_of(q) == keys.index_of(q)
        && nv[nk.index_of(q)] == vals[keys.index_of(q)] by {
        let j = keys.index_of(q);
        lemma_index_of_unique(nk, j);
    }
    lemma_index_of_unique(nk, keys.len() as int);
    assert forall|q: K| #[trigger] nk.contains(q) <==> (q == k || keys.contains(q)) by {
        if keys.contains(q) {
            let j = keys.index_of(q);
            assert(nk[j] == q);
        }
        if nk.contains(q) && q != k {
            let j = nk.index_of(q);
            assert(keys[j] == q);
        }
    }
    assert(table_map(nk, nv) =~= table_map(keys, vals).insert(k, v));
}

/// A table is its first pair added to the table of the rest.
pub proof fn lemma_table_prepend<K, V>(keys: Seq<K>, vals: Seq<V>)
    requires
        keys.no_duplicates(),
        keys.len() == vals.len(),
        keys.len() > 0,
    ensures
        keys.drop_first().no_duplicates(),
        table_map(keys, vals) == table_map(keys.drop_first(), vals.drop_first()).insert(keys[0], vals[0]),
{
    let nk = keys.drop_first();
    let nv = vals.drop_first();
    assert forall|a: int, b: int|
        0 <= a < nk.len() && 0 <= b < nk.len() && a != b implies nk[a] != nk[b] by {
        assert(nk[a] == keys[a + 1] && nk[b] == keys[b + 1]);
    }
    lemma_index_of_unique(keys, 0);
    assert forall|q: K| #[trigger] nk.contains(q) implies keys.contains(q) && q != keys[0]
        && nv[nk.index_of(q)] == vals[keys.index_of(q)] by {
        let j = nk.index_of(q);
        assert(keys[j + 1] == q);
        lemma_index_of_unique(keys, j + 1);
    }
    assert forall|q: K| #[trigger] keys.contains(q) && q != keys[0] implies nk.contains(q) by {
        let j = keys.index_of(q);
        assert(j != 0);
        assert(nk[j - 1] == q);
    }
    assert(table_map(keys, vals) =~= table_map(nk, nv).insert(keys[0], vals[0]));
}

/// Moving the last pair into position `i` and dropping the last position
/// removes `keys[i]` and keeps the keys distinct.
pub proof fn lemma_table_swap_remove<K, V>(keys: Seq<K>, vals: Seq<V>, i: int)
    requires
        keys.no_duplicates(),
        keys.len() == vals.len(),
        0 <= i < keys.len(),
    ensures
        keys.update(i, keys.last()).drop_last().no_duplicates(),
        table_map(keys.update(i, keys.last()).drop_last(), vals.update(i, vals.last()).drop_last())
            == table_map(keys, vals).remove(keys[i]),
{
    let n = keys.len() as int;
    let nc = keys.update(i, keys.last()).drop_last();
    let nv = vals.update(i, vals.last()).drop_last();
    let c = keys[i];
    assert forall|a: int, b: int|
        0 <= a < nc.len() && 0 <= b < nc.len() && a != b implies nc[a] != nc[b] by {
        let a0 = if a == i { n - 1 } else { a };
        let b0 = if b == i { n - 1 } else { b };
        assert(nc[a] == keys[a0] && nc[b] == keys[b0]);
    }
    assert forall|q: K| #[trigger] nc.contains(q) implies keys.contains(q) && q != c
        && nv[nc.index_of(q)] == vals[keys.index_of(q)] by {
        let jn = nc.index_of(q);
        let j = if jn == i { n - 1 } else { jn };
        assert(keys[j] == q);
        lemma_index_of_unique(keys, j);
        lemma_index_of_unique(keys, i);
    }
    assert forall|q: K| #[trigger] keys.contains(q) && q != c implies nc.contains(q) by {
        let j = keys.index_of(q);
        lemma_index_of_unique(keys, i);
        let jn = if j == n - 1 { i } else { j };
        assert(nc[jn] == q);
    }
    assert(table_map(nc, nv) =~= table_map(keys, vals).remove(c));
}

impl<V> CoordTable<V> {
    pub closed spec fn wf(&self) -> bool {
        &&& self.coords.len() == self.vals.len()
        &&& self.coords@.no_duplicates()
        &&& forall|i: int|
            0 <= i < self.coords.len() ==> index_contents(self.index).contains_key(
                key_of(#[trigger] self.coords@[i]),
            ) && index_contents(self.index)[key_of(self.coords@[i])] == i
        &&& forall|k: (i32, i32, i32)| #[trigger]
            index_contents(self.index).contains_key(k) ==> index_contents(self.index)[k]
                < self.coords.len() && key_of(self.coords@[index_contents(self.index)[k] as int]) == k
    }

    /// The stored coordinates, in the order in which they were first added.
    pub closed spec fn order(&self) -> Seq<ChunkCoord> {
        self.coords@
    }

    pub proof fn lemma_order(&self)
        requires
            self.wf(),
        ensures
            self.order().no_duplicates(),
            forall|c: ChunkCoord| #[trigger]
                self@.contains_key(c) <==> self.order().contains(c),
    {
    }

    pub fn new() -> (r: Self)
        ensures
            r.wf(),
            r@ == Map::<ChunkCoord, V>::empty(),
            r.order() == Seq::<ChunkCoord>::empty(),
    {
        let r = CoordTable { coords: Vec::new(), vals: Vec::new(), index: ChunkIndex::new() };
        assert(r@ =~= Map::<ChunkCoord, V>::empty());
        r
    }

    fn find(&self, c: &ChunkCoord) -> (r: Option<usize>)
        requires
            self.wf(),
        ensures
            match r {
                Some(i) => i < self.coords.len() && self.coords@[i as int] == *c
                    && self.coords@.index_of(*c) == i,
                None => !self.coords@.contains(*c),
            },
    {
        let r = self.index.get((c.x, c.y, c.z));
        proof {
            match r {
                Some(i) => {
                    assert(key_of(self.coords@[i as int]) == key_of(*c));
                    lemma_index_of_unique(self.coords@, i as int);
                },
                None => {
                    if self.coords@.contains(*c) {
                        let j = self.coords@.index_of(*c);
                        assert(index_contents(self.index).contains_key(key_of(self.coords@[j])));
                    }
                },
            }
        }
        r
    }

    pub fn contains_key(&self, c: &ChunkCoord) -> (r: bool)
        requires
            self.wf(),
        ensures
            r == self@.contains_key(*c),
    {
        self.find(c).is_some()
    }

    pub fn get(&self, c: &ChunkCoord) -> (r: Option<&V>)
        requires
            self.wf(),
        ensures
            r == (if self@.contains_key(*c) {
                Some(&self@[*c])
            } else {
                None
            }),
    {
        match self.find(c) {
            Some(i) => Some(&self.vals[i]),
            None => None,
        }
    }

    pub fn get_mut(&mut self, c: &ChunkCoord) -> (r: Option<&mut V>)
        requires
            old(self).wf(),
        ensures
            final(self).wf(),
            final(self).order() == old(self).order(),
            !old(self)@.contains_key(*c) ==> r is None && final(self)@ == old(self)@,
            old(self)@.contains_key(*c) ==> r is Some && *r.unwrap() == old(self)@[*c]
                && final(self)@ == old(self)@.insert(*c, *final(r.unwrap())),
    {
        match self.find(c) {
            Some(i) => {
                proof {
                    lemma_table_update(self.coords@, self.vals@, i as int);
                }
                Some(&mut self.vals[i])
            },
            None => None,
        }
    }
    /// Adds a value under a coordinate that is not stored yet.
    pub fn insert_new(&mut self, c: ChunkCoord, v: V)
        requires
            old(self).wf(),
            !old(self)@.contains_key(c),
        ensures
            final(self).wf(),
            final(self)@ == old(self)@.insert(c, v),
            final(self).order() == old(self).order().push(c),
    {
        proof {
            lemma_table_push(self.coords@, self.vals@, c, v);
        }
        let ghost old_index = index_contents(self.index);
        let n = self.coords.len();
        self.index.insert((c.x, c.y, c.z), n);
        self.coords.push(c);
        self.vals.push(v);
        proof {
            assert forall|i: int| 0 <= i < self.coords.len() implies index_contents(self.index).contains_key(
                key_of(#[trigger] self.coords@[i]),
            ) && index_contents(self.index)[key_of(self.coords@[i])] == i by {
                if i < n {
                    assert(self.coords@[i] == old(self).coords@[i]);
                    assert(self.coords@[i] != c);
                }
            }
        }
    }

    /// Removes the value stored under `c`, if any, and returns it. The last
    /// entry takes its place in the arena.
    pub fn remove(&mut self, c: &ChunkCoord) -> (r: Option<V>)
        requires
            old(self).wf(),
        ensures
            final(self).wf(),
            final(self)@ == old(self)@.remove(*c),
            r == (if old(self)@.contains_key(*c) {
                Some(old(self)@[*c])
            } else {
                None
            }),
    {
        match self.find(c) {
            Some(i) => {
                proof {
                    lemma_table_swap_remove(self.coords@, self.vals@, i as int);
                }
                let last = self.coords.len() - 1;
                let moved = self.coords[last];
                if i != last {
                    self.index.insert((moved.x, moved.y, moved.z), i);
                }
                self.index.remove((c.x, c.y, c.z));
                self.coords.swap_remove(i);
                let v = self.vals.swap_remove(i);
                proof {
                    let oc = old(self).coords@;
                    assert forall|j: int| 0 <= j < self.coords.len() implies index_contents(
                        self.index,
                    ).contains_key(key_of(#[trigger] self.coords@[j]))
                        && index_contents(self.index)[key_of(self.coords@[j])] == j by {
                        if j == i {
                            assert(self.coords@[j] == oc[last as int]);
                            assert(oc[last as int] != oc[i as int]);
                        } else {
                            assert(self.coords@[j] == oc[j]);
                            assert(oc[j] != oc[i as int]);
                            assert(oc[j] != oc[last as int]);
                        }
                    }
                    assert forall|k: (i32, i32, i32)| #[trigger]
                        index_contents(self.index).contains_key(k) implies index_contents(
                        self.index,
                    )[k] < self.coords.len() && key_of(
                        self.coords@[index_contents(self.index)[k] as int],
                    ) == k by {
                        if i != last && k == key_of(moved) {
                        } else {
                            let p = index_contents(old(self).index)[k];
                            assert(key_of(oc[p as int]) == k);
                            if p == last {
                                assert(k == key_of(moved));
                            }
                            assert(p != i);
                        }
                    }
                }
                Some(v)
            },
            None => {
                assert(old(self)@.remove(*c) =~= old(self)@);
                None
            },
        }
    }

    /// Removes every entry.
    pub fn clear(&mut self)
        requires
            old(self).wf(),
        ensures
            final(self).wf(),
            final(self)@ == Map::<ChunkCoord, V>::empty(),
            final(self).order() == Seq::<ChunkCoord>::empty(),
    {
        self.coords.clear();
        self.vals.clear();
        self.index.clear();
        assert(self@ =~= Map::<ChunkCoord, V>::empty());
    }

    /// The stored coordinates, in the order in which they were first added.
    pub fn keys(&self) -> (r: Vec<ChunkCoord>)
        requires
            self.wf(),
        ensures
            r@ == self.order(),
    {
        let mut out: Vec<ChunkCoord> = Vec::new();
        let mut i: usize = 0;
        while i < self.coords.len()
            invariant
                i <= self.coords.len(),
                out@ == self.coords@.subrange(0, i as int),
            decreases self.coords.len() - i,
        {
            out.push(self.coords[i]);
            assert(out@ =~= self.coords@.subrange(0, i + 1));
            i = i + 1;
        }
        assert(out@ =~= self.coords@);
        out
    }
}

} // verus!
