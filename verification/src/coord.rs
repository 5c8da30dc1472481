//! Chunk coordinates and hash containers keyed by them.

use crate::sort;
use std::collections::hash_map::Entry;
use std::collections::HashMap;
use vstd::prelude::*;

verus! {

broadcast use vstd::std_specs::hash::group_hash_axioms;

/// Chunk coordinates `(cx, cy)`.
pub type ChunkCoord = (i32, i32);

/// The coordinate as one hash key: `cx` in the upper half, `cy` in the lower.
pub open spec fn key_of(c: ChunkCoord) -> u64 {
    ((c.0 as u32 as u64) << 32) | (c.1 as u32 as u64)
}

/// The coordinate that a key stands for.
pub open spec fn coord_of(k: u64) -> ChunkCoord {
    ((k >> 32) as u32 as i32, (k & 0xffff_ffff) as u32 as i32)
}

pub proof fn lemma_key_roundtrip(c: ChunkCoord)
    ensures
        coord_of(key_of(c)) == c,
{
    let x = c.0;
    let y = c.1;
    let k = key_of(c);
    assert((k >> 32) as u32 as i32 == x && (k & 0xffff_ffff) as u32 as i32 == y) by (bit_vector)
        requires
            k == ((x as u32 as u64) << 32) | (y as u32 as u64),
    ;
}

pub proof fn lemma_coord_roundtrip(k: u64)
    ensures
        key_of(coord_of(k)) == k,
{
    assert((((k >> 32) as u32 as i32 as u32 as u64) << 32) | ((k & 0xffff_ffff) as u32 as i32 as u32
        as u64) == k) by (bit_vector);
}

/// The key of a coordinate.
pub fn pack(c: ChunkCoord) -> (k: u64)
    ensures
        k == key_of(c),
{
    ((c.0 as u32 as u64) << 32) | (c.1 as u32 as u64)
}

/// The coordinate of a key.
pub fn unpack(k: u64) -> (c: ChunkCoord)
    ensures
        c == coord_of(k),
{
    ((k >> 32) as u32 as i32, (k & 0xffff_ffff) as u32 as i32)
}

/// The map from coordinates that a map from keys stands for.
pub open spec fn by_coord<V>(m: Map<u64, V>) -> Map<ChunkCoord, V> {
    Map::new(|c: ChunkCoord| m.contains_key(key_of(c)), |c: ChunkCoord| m[key_of(c)])
}

proof fn lemma_by_coord_size<V>(m: Map<u64, V>)
    requires
        m.dom().finite(),
    ensures
        by_coord(m).dom().finite(),
        by_coord(m).dom().len() == m.dom().len(),
{
    let f = |k: u64| coord_of(k);
    m.dom().lemma_map_finite(f);
    assert forall|k: u64| #[trigger] m.dom().contains(k) implies by_coord(m).dom().contains(
        f(k),
    ) by {
        lemma_coord_roundtrip(k);
    }
    assert forall|c: ChunkCoord| #[trigger] by_coord(m).dom().contains(c) implies exists|k: u64|
        m.dom().contains(k) && f(k) == c by {
        lemma_key_roundtrip(c);
        assert(m.dom().contains(key_of(c)) && f(key_of(c)) == c);
    }
    assert forall|j: u64, k: u64|
        m.dom().contains(j) && m.dom().contains(k) && f(j) == f(k) implies j == k by {
        lemma_coord_roundtrip(j);
        lemma_coord_roundtrip(k);
    }
    assert(m.dom().map(f) =~= by_coord(m).dom());
    vstd::set_lib::lemma_map_size(m.dom(), by_coord(m).dom(), f);
}

proof fn lemma_by_coord_insert<V>(m: Map<u64, V>, c: ChunkCoord, v: V)
    ensures
        by_coord(m.insert(key_of(c), v)) == by_coord(m).insert(c, v),
        by_coord(m.remove(key_of(c))) == by_coord(m).remove(c),
{
    lemma_key_roundtrip(c);
    assert forall|d: ChunkCoord| key_of(d) == key_of(c) implies d == c by {
        lemma_key_roundtrip(d);
    }
    assert(by_coord(m.insert(key_of(c), v)) =~= by_coord(m).insert(c, v));
    assert(by_coord(m.remove(key_of(c))) =~= by_coord(m).remove(c));
}

/// A hash map keyed by chunk coordinates.
#[derive(Debug)]
pub struct CoordMap<V> {
    inner: HashMap<u64, V>,
}

impl<V> View for CoordMap<V> {
    type V = Map<ChunkCoord, V>;

    closed spec fn view(&self) -> Map<ChunkCoord, V> {
        by_coord(self.inner@)
    }
}

impl<V: Clone> Clone for CoordMap<V> {
    fn clone(&self) -> (m: Self)
        ensures
            m@.dom() == self@.dom(),
            forall|c: ChunkCoord| #[trigger]
                self@.contains_key(c) ==> cloned::<V>(self@[c], m@[c]),
    {
        let coords = self.keys();
        let mut m: CoordMap<V> = CoordMap::new();
        let mut i: usize = 0;
        while i < coords.len()
            invariant
                i <= coords.len(),
                coords@.no_duplicates(),
                coords@.to_set() == self@.dom(),
                forall|c: ChunkCoord| #[trigger]
                    m@.contains_key(c) <==> coords@.take(i as int).contains(c),
                forall|c: ChunkCoord| #[trigger]
                    m@.contains_key(c) ==> cloned::<V>(self@[c], m@[c]),
            decreases coords.len() - i,
        {
            let c = coords[i];
            proof {
                assert(coords@.to_set().contains(c));
                assert(coords@.take(i + 1) =~= coords@.take(i as int).push(c));
                sort::lemma_push_contains(coords@.take(i as int), c);
            }
            if let Some(v) = self.get(&c) {
                m.insert(c, v.clone());
            }
            i = i + 1;
        }
        proof {
            assert(coords@.take(i as int) =~= coords@);
            assert forall|c: ChunkCoord| #[trigger] m@.dom().contains(c) == self@.dom().contains(
                c,
            ) by {
                assert(coords@.to_set().contains(c) == coords@.contains(c));
                assert(m@.contains_key(c) == m@.dom().contains(c));
            }
            assert(m@.dom() =~= self@.dom());
            assert forall|c: ChunkCoord| #[trigger] self@.contains_key(c) implies cloned::<V>(
                self@[c],
                m@[c],
            ) by {
                assert(m@.dom().contains(c));
            }
        }
        m
    }
}

impl<V> Default for CoordMap<V> {
    fn default() -> (m: Self)
        ensures
            m@ == Map::<ChunkCoord, V>::empty(),
    {
        Self::new()
    }
}

impl<V> CoordMap<V> {
    pub fn new() -> (m: Self)
        ensures
            m@ == Map::<ChunkCoord, V>::empty(),
    {
        let m = Self { inner: HashMap::new() };
        assert(m@ =~= Map::<ChunkCoord, V>::empty());
        m
    }

    pub fn len(&self) -> (n: usize)
        ensures
            n == self@.len(),
            self@.dom().finite(),
    {
        proof {
            lemma_by_coord_size(self.inner@);
        }
        self.inner.len()
    }

    pub fn is_empty(&self) -> (e: bool)
        ensures
            e == (self@ == Map::<ChunkCoord, V>::empty()),
            self@.dom().finite(),
    {
        let n = self.len();
        proof {
            if n == 0 {
                self@.dom().lemma_len0_is_empty();
                assert(self@ =~= Map::<ChunkCoord, V>::empty());
            }
        }
        n == 0
    }

    pub fn contains_key(&self, c: &ChunkCoord) -> (b: bool)
        ensures
            b == self@.contains_key(*c),
    {
        self.inner.contains_key(&pack(*c))
    }

    pub fn get(&self, c: &ChunkCoord) -> (v: Option<&V>)
        ensures
            match v {
                Some(v) => self@.contains_key(*c) && *v == self@[*c],
                None => !self@.contains_key(*c),
            },
    {
        self.inner.get(&pack(*c))
    }

    /// Store `v` under `c`. Returns what was there before.
    pub fn insert(&mut self, c: ChunkCoord, v: V) -> (r: Option<V>)
        ensures
            final(self)@ == old(self)@.insert(c, v),
            r == (if old(self)@.contains_key(c) {
                Some(old(self)@[c])
            } else {
                None
            }),
    {
        proof {
            lemma_by_coord_insert(self.inner@, c, v);
        }
        self.inner.insert(pack(c), v)
    }

    /// Take out what is stored under `c`.
    pub fn remove(&mut self, c: &ChunkCoord) -> (r: Option<V>)
        ensures
            final(self)@ == old(self)@.remove(*c),
            r == (if old(self)@.contains_key(*c) {
                Some(old(self)@[*c])
            } else {
                None
            }),
    {
        let ghost before = self.inner@;
        let r = self.inner.remove(&pack(*c));
        proof {
            if before.contains_key(key_of(*c)) {
                lemma_by_coord_insert(before, *c, before[key_of(*c)]);
            } else {
                assert(before.remove(key_of(*c)) =~= before);
                assert(by_coord(before).remove(*c) =~= by_coord(before));
            }
        }
        r
    }

    pub fn clear(&mut self)
        ensures
            final(self)@ == Map::<ChunkCoord, V>::empty(),
    {
        self.inner.clear();
        assert(self@ =~= Map::<ChunkCoord, V>::empty());
    }

    /// The value under `c`, for change in place; `v` is put there first if nothing is.
    pub fn slot(&mut self, c: ChunkCoord, v: V) -> (r: &mut V)
        ensures
            *r == (if old(self)@.contains_key(c) {
                old(self)@[c]
            } else {
                v
            }),
            final(self)@ == old(self)@.insert(c, *final(r)),
    {
        let ghost before = self.inner@;
        let r = self.inner.entry(pack(c)).or_insert(v);
        proof {
            lemma_by_coord_insert(before, c, *final(r));
        }
        r
    }

    /// The value under `c`, for change in place.
    pub fn get_mut(&mut self, c: &ChunkCoord) -> (r: Option<&mut V>)
        ensures
            match r {
                Some(r) => old(self)@.contains_key(*c) && *r == old(self)@[*c] && final(self)@
                    == old(self)@.insert(*c, *final(r)),
                None => !old(self)@.contains_key(*c) && final(self)@ == old(self)@,
            },
    {
        let ghost before = self.inner@;
        match self.inner.entry(pack(*c)) {
            Entry::Occupied(o) => {
                let r = o.into_mut();
                proof {
                    lemma_by_coord_insert(before, *c, *final(r));
                }
                Some(r)
            },
            Entry::Vacant(_) => {
                assert(before.remove(key_of(*c)) =~= before);
                None
            },
        }
    }

    /// All coordinates that have a value, each once.
    pub fn keys(&self) -> (r: Vec<ChunkCoord>)
        ensures
            r@.no_duplicates(),
            r@.to_set() == self@.dom(),
            r@.len() == self@.len(),
            self@.dom().finite(),
    {
        proof {
            lemma_by_coord_size(self.inner@);
        }
        let mut r: Vec<ChunkCoord> = Vec::new();
        for k in it: self.inner.keys()
            invariant
                r@.len() == it.index(),
                it.seq().unref().to_set() == self.inner@.dom(),
                it.seq().no_duplicates(),
                it.seq().len() == self.inner@.dom().len(),
                forall|i: int| 0 <= i < r.len() ==> #[trigger] r@[i] == coord_of(*it.seq()[i]),
        {
            r.push(unpack(*k));
        }
        proof {
            let ks = vstd::std_specs::iter::IteratorSpec::remaining(
                &vstd::std_specs::hash::spec_keys_iter(&self.inner),
            );
            assert forall|i: int, j: int|
                0 <= i < r@.len() && 0 <= j < r@.len() && i != j implies r@[i] != r@[j] by {
                lemma_coord_roundtrip(*ks[i]);
                lemma_coord_roundtrip(*ks[j]);
                assert(ks[i] != ks[j]);
            }
            assert forall|c: ChunkCoord| #[trigger] self@.dom().contains(c) implies r@.contains(
                c,
            ) by {
                lemma_key_roundtrip(c);
                assert(ks.unref().to_set().contains(key_of(c)));
                let i = choose|i: int| 0 <= i < ks.unref().len() && ks.unref()[i] == key_of(c);
                assert(r@[i] == c);
            }
            assert forall|c: ChunkCoord| #[trigger] r@.contains(c) implies self@.dom().contains(
                c,
            ) by {
                let i = choose|i: int| 0 <= i < r@.len() && r@[i] == c;
                lemma_coord_roundtrip(*ks[i]);
                assert(ks.unref()[i] == *ks[i]);
                assert(ks.unref().to_set().contains(*ks[i]));
            }
            assert(r@.to_set() =~= self@.dom());
        }
        r
    }
}

} // verus!
