//! Chunks that are stepped together, apart from the rest of the world.

use crate::chunk::{Chunk, EdgeBundle};
use crate::coord::{ChunkCoord, CoordMap};
use crate::sort;
use crate::world;
use vstd::prelude::*;

verus! {

/// The chunks of `m` one step on, with nothing alive around them.
pub open spec fn advanced(m: Map<ChunkCoord, Chunk>, own: Set<ChunkCoord>) -> Map<
    ChunkCoord,
    Chunk,
> {
    Map::new(
        |c: ChunkCoord| m.contains_key(c),
        |c: ChunkCoord| m[c].stepped(world::plane(m, own, c)),
    )
}

/// The chunks of `m` `n` steps on, with nothing alive around them.
pub open spec fn evolved(m: Map<ChunkCoord, Chunk>, own: Set<ChunkCoord>, n: nat) -> Map<
    ChunkCoord,
    Chunk,
>
    decreases n,
{
    if n == 0 {
        m
    } else {
        advanced(evolved(m, own, (n - 1) as nat), own)
    }
}

/// No chunk of `m` has a live cell next to a chunk that is not of `m`.
pub open spec fn enclosed(m: Map<ChunkCoord, Chunk>) -> bool {
    forall|c: ChunkCoord, d: ChunkCoord|
        m.contains_key(c) && #[trigger] world::adjacent(c, d) && !m.contains_key(d)
            ==> !m[c].touches(d.0 - c.0, d.1 - c.1)
}

/// Whether the chunks of `m` can be run apart from the rest of the world for `period` steps, and
/// are as before after them.
pub open spec fn recurs(m: Map<ChunkCoord, Chunk>, own: Set<ChunkCoord>, period: nat) -> bool {
    &&& forall|k: nat| k < period ==> enclosed(#[trigger] evolved(m, own, k))
    &&& evolved(m, own, period) == m
}

/// Stepping makes and drops no chunk, and leaves alone which cells are frozen.
pub proof fn lemma_evolved(m: Map<ChunkCoord, Chunk>, own: Set<ChunkCoord>, n: nat)
    ensures
        evolved(m, own, n).dom() == m.dom(),
        forall|c: ChunkCoord| #[trigger]
            m.contains_key(c) ==> evolved(m, own, n)[c].frozen == m[c].frozen,
    decreases n,
{
    if n > 0 {
        lemma_evolved(m, own, (n - 1) as nat);
        assert(evolved(m, own, n).dom() =~= m.dom());
        assert forall|c: ChunkCoord| #[trigger] m.contains_key(c) implies evolved(
            m,
            own,
            n,
        )[c].frozen == m[c].frozen by {
            assert(evolved(m, own, (n - 1) as nat).dom().contains(c));
        }
    }
}

/// Step chunks together, with nothing alive around them.
fn step_together(m: &CoordMap<Chunk>, own: &CoordMap<()>) -> (next: CoordMap<Chunk>)
    requires
        forall|c: ChunkCoord| #[trigger] m@.contains_key(c) ==> world::interior(c),
    ensures
        next@ == advanced(m@, own@.dom()),
{
    let edges: CoordMap<EdgeBundle> = world::edges_of(m);
    let coords = m.keys();
    let ghost want = advanced(m@, own@.dom());
    let mut next: CoordMap<Chunk> = CoordMap::new();
    let mut i: usize = 0;
    while i < coords.len()
        invariant
            i <= coords.len(),
            coords@.to_set() == m@.dom(),
            world::cached(edges@, m@),
            want == advanced(m@, own@.dom()),
            forall|c: ChunkCoord| #[trigger] m@.contains_key(c) ==> world::interior(c),
            forall|c: ChunkCoord| #[trigger]
                next@.contains_key(c) <==> coords@.take(i as int).contains(c),
            forall|c: ChunkCoord| #[trigger]
                next@.contains_key(c) ==> want.contains_key(c) && next@[c] == want[c],
        decreases coords.len() - i,
    {
        let c = coords[i];
        proof {
            assert(coords@.to_set().contains(c));
            assert(m@.contains_key(c));
            assert(coords@.take(i + 1) =~= coords@.take(i as int).push(c));
            sort::lemma_push_contains(coords@.take(i as int), c);
            assert forall|d: ChunkCoord| world::adjacent(c, d) implies #[trigger] world::cached_at(
                edges@,
                m@,
                d,
            ) by {
                world::lemma_cached(edges@, m@, d);
            }
        }
        let halo = world::assemble_halo(c, &edges, own, Ghost(m@));
        if let Some(ch) = m.get(&c) {
            let r = ch.step(&halo);
            proof {
                world::lemma_own_cells(m@, own@.dom(), c);
                ch.lemma_stepped(halo, world::plane(m@, own@.dom(), c), r);
            }
            next.insert(c, r.into_chunk(ch));
        }
        i = i + 1;
    }
    proof {
        assert(coords@.take(i as int) =~= coords@);
        assert forall|c: ChunkCoord| #[trigger] next@.contains_key(c) == want.contains_key(c) by {
            assert(coords@.to_set().contains(c) == m@.dom().contains(c));
        }
        assert(next@ =~= want);
    }
    next
}

/// Whether no chunk of `m` has a live cell next to a chunk that is not of `m`.
fn is_enclosed(m: &CoordMap<Chunk>) -> (r: bool)
    requires
        forall|c: ChunkCoord| #[trigger] m@.contains_key(c) ==> world::interior(c),
    ensures
        r == enclosed(m@),
{
    let coords = m.keys();
    let mut i: usize = 0;
    while i < coords.len()
        invariant
            i <= coords.len(),
            coords@.to_set() == m@.dom(),
            forall|c: ChunkCoord| #[trigger] m@.contains_key(c) ==> world::interior(c),
            forall|c: ChunkCoord, d: ChunkCoord|
                coords@.take(i as int).contains(c) && #[trigger] world::adjacent(c, d)
                    && !m@.contains_key(d) ==> !m@[c].touches(d.0 - c.0, d.1 - c.1),
        decreases coords.len() - i,
    {
        let c = coords[i];
        proof {
            assert(coords@.to_set().contains(c));
            assert(m@.contains_key(c));
            assert(coords@.take(i + 1) =~= coords@.take(i as int).push(c));
            sort::lemma_push_contains(coords@.take(i as int), c);
        }
        let around = world::neighbors_of(c);
        if let Some(ch) = m.get(&c) {
            let mut j: usize = 0;
            while j < 8
                invariant
                    j <= 8,
                    m@.contains_key(c),
                    *ch == m@[c],
                    forall|k: int| 0 <= k < 8 ==> world::adjacent(c, #[trigger] around[k]),
                    forall|k: int|
                        0 <= k < j && !m@.contains_key(#[trigger] around[k]) ==> !ch.touches(
                            around[k].0 - c.0,
                            around[k].1 - c.1,
                        ),
                decreases 8 - j,
            {
                let d = around[j];
                assert(world::adjacent(c, d));
                if !m.contains_key(&d) && ch.has_edge_toward(d.0 - c.0, d.1 - c.1) {
                    return false;
                }
                j = j + 1;
            }
        }
        assert forall|d: ChunkCoord| #[trigger] world::adjacent(c, d) && !m@.contains_key(
            d,
        ) implies !m@[c].touches(d.0 - c.0, d.1 - c.1) by {
            let k = choose|k: int| 0 <= k < 8 && #[trigger] around[k] == d;
            assert(!m@.contains_key(around[k]));
        }
        i = i + 1;
    }
    assert(coords@.take(i as int) =~= coords@);
    assert forall|c: ChunkCoord, d: ChunkCoord|
        m@.contains_key(c) && #[trigger] world::adjacent(c, d) && !m@.contains_key(d) implies !m@[c].touches(
        d.0 - c.0,
        d.1 - c.1,
    ) by {
        assert(coords@.to_set().contains(c));
    }
    true
}

/// Whether the same chunks have the same cells.
fn same_chunks(a: &CoordMap<Chunk>, b: &CoordMap<Chunk>) -> (r: bool)
    requires
        a@.dom() == b@.dom(),
        forall|c: ChunkCoord| #[trigger] a@.contains_key(c) ==> a@[c].frozen == b@[c].frozen,
    ensures
        r == (a@ == b@),
{
    let coords = a.keys();
    let mut i: usize = 0;
    while i < coords.len()
        invariant
            i <= coords.len(),
            coords@.to_set() == a@.dom(),
            a@.dom() == b@.dom(),
            forall|c: ChunkCoord| #[trigger] a@.contains_key(c) ==> a@[c].frozen == b@[c].frozen,
            forall|j: int| 0 <= j < i ==> a@[#[trigger] coords@[j]] == b@[coords@[j]],
        decreases coords.len() - i,
    {
        let c = coords[i];
        assert(coords@.to_set().contains(c));
        assert(a@.contains_key(c) && b@.dom().contains(c));
        if let Some(x) = a.get(&c) {
            if let Some(y) = b.get(&c) {
                if !world::same_rows(&x.rows, &y.rows) {
                    assert(a@[c] != b@[c]);
                    return false;
                }
                assert(*x == *y);
            }
        }
        i = i + 1;
    }
    assert forall|c: ChunkCoord| #[trigger] a@.contains_key(c) implies a@[c] == b@[c] by {
        assert(coords@.to_set().contains(c));
        let j = choose|j: int| 0 <= j < coords@.len() && coords@[j] == c;
        assert(a@[coords@[j]] == b@[coords@[j]]);
    }
    assert(a@ =~= b@);
    true
}

/// What chunks hold in each of `period` steps, if they can be run apart from the rest of the world
/// for that long and are as before after it.
pub(crate) fn cycle(start: CoordMap<Chunk>, own: &CoordMap<()>, period: u8) -> (r: Option<
    Vec<CoordMap<Chunk>>,
>)
    requires
        period >= 1,
        forall|c: ChunkCoord| #[trigger] start@.contains_key(c) ==> world::interior(c),
    ensures
        match r {
            Some(p) => {
                &&& recurs(start@, own@.dom(), period as nat)
                &&& p@.len() == period
                &&& forall|k: int|
                    0 <= k < period ==> (#[trigger] p@[k])@ == evolved(
                        start@,
                        own@.dom(),
                        k as nat,
                    )
            },
            None => !recurs(start@, own@.dom(), period as nat),
        },
{
    let ghost m = start@;
    let ghost o = own@.dom();
    let mut phases: Vec<CoordMap<Chunk>> = Vec::new();
    let mut cur = start;
    let mut k: u8 = 0;
    while k < period
        invariant
            k <= period,
            m == start@,
            o == own@.dom(),
            forall|c: ChunkCoord| #[trigger] m.contains_key(c) ==> world::interior(c),
            cur@ == evolved(m, o, k as nat),
            phases@.len() == k,
            forall|j: int|
                0 <= j < k ==> (#[trigger] phases@[j])@ == evolved(m, o, j as nat) && enclosed(
                    phases@[j]@,
                ),
        decreases period - k,
    {
        proof {
            lemma_evolved(m, o, k as nat);
            assert forall|c: ChunkCoord| #[trigger] cur@.contains_key(c) implies world::interior(
                c,
            ) by {
                assert(m.dom().contains(c));
            }
        }
        if !is_enclosed(&cur) {
            assert(!enclosed(evolved(m, o, k as nat)));
            return None;
        }
        let next = step_together(&cur, own);
        phases.push(cur);
        cur = next;
        k = k + 1;
    }
    proof {
        lemma_evolved(m, o, period as nat);
        assert(phases@[0]@ == m);
        assert forall|c: ChunkCoord| #[trigger] cur@.contains_key(c) implies cur@[c].frozen
            == phases@[0]@[c].frozen by {
            assert(m.dom().contains(c));
        }
    }
    if !same_chunks(&cur, &phases[0]) {
        return None;
    }
    assert forall|j: nat| j < period implies enclosed(#[trigger] evolved(m, o, j)) by {
        assert(enclosed(phases@[j as int]@));
    }
    Some(phases)
}

} // verus!
