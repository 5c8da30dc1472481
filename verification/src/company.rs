//! Chunks that are paused together.

use crate::bits;
use crate::cells;
use crate::chunk;
use crate::chunk::Chunk;
use crate::coord::ChunkCoord;
use crate::ensemble;
use crate::group;
use crate::oscillator::DetectorState;
use crate::sim::SimState;
use crate::world;
use crate::world::WorldState;
use vstd::prelude::*;

verus! {

/// Whether a chunk has a live cell on the side, or in the corner, toward the neighbor `(dx, dy)`
/// chunks away.
pub open spec fn faces(c: Chunk, dx: int, dy: int) -> bool {
    exists|x: int, y: int|
        0 <= x < 64 && 0 <= y < 64 && (dx == -1 ==> x == 0) && (dx == 1 ==> x == 63) && (dy == -1
            ==> y == 0) && (dy == 1 ==> y == 63) && #[trigger] cells::set_in(c.rows[y], x)
}

/// Whether `c` and `d` are two different chunks that share a side or a corner.
pub open spec fn beside(c: ChunkCoord, d: ChunkCoord) -> bool {
    c != d && -1 <= d.0 - c.0 <= 1 && -1 <= d.1 - c.1 <= 1
}

/// Whether `c` and `d` lie beside each other, and one of them, awake, has a live cell next to the
/// other.
pub open spec fn tied(w: WorldState, c: ChunkCoord, d: ChunkCoord) -> bool {
    &&& beside(c, d)
    &&& (w.chunks.contains_key(c) && faces(w.chunks[c], d.0 - c.0, d.1 - c.1)) || (
    w.chunks.contains_key(d) && faces(w.chunks[d], c.0 - d.0, c.1 - d.1))
}

/// Whether `set` holds with each chunk all that it is tied to.
pub open spec fn closed(w: WorldState, set: Set<ChunkCoord>) -> bool {
    forall|c: ChunkCoord, d: ChunkCoord|
        set.contains(c) && #[trigger] tied(w, c, d) ==> set.contains(d)
}

proof fn lemma_tied(w: WorldState, c: ChunkCoord, d: ChunkCoord)
    ensures
        tied(w, c, d) == w.linked(c, d),
{
    if beside(c, d) {
        if w.chunks.contains_key(c) {
            cells::law_touching_is_by_the_side(w.chunks[c], d.0 - c.0, d.1 - c.1);
        }
        if w.chunks.contains_key(d) {
            cells::law_touching_is_by_the_side(w.chunks[d], c.0 - d.0, c.1 - d.1);
        }
    }
}

/// The group around a chunk is the least set that holds it and with each chunk all that it is tied
/// to. It is a group exactly if these are two chunks or more, and at most as many as allowed, and
/// all of them are awake, observed by nobody, and off the rim of the coordinate range.
pub proof fn law_groups_hang_together(
    w: WorldState,
    watched: Set<ChunkCoord>,
    seed: ChunkCoord,
    max: nat,
    g: Seq<ChunkCoord>,
)
    ensures
        w.groups(watched, seed, max, g) <==> {
            &&& g.no_duplicates()
            &&& 2 <= g.len() <= max
            &&& g.contains(seed)
            &&& closed(w, g.to_set())
            &&& forall|set: Set<ChunkCoord>|
                #![trigger closed(w, set)]
                set.contains(seed) && closed(w, set) ==> forall|c: ChunkCoord| #[trigger]
                    g.contains(c) ==> set.contains(c)
            &&& forall|c: ChunkCoord| #[trigger]
                g.contains(c) ==> w.chunks.contains_key(c) && !watched.contains(c) && -0x8000_0000
                    < c.0 < 0x7fff_ffff && -0x8000_0000 < c.1 < 0x7fff_ffff
        },
{
    assert forall|c: ChunkCoord, d: ChunkCoord| #[trigger] tied(w, c, d) == w.linked(c, d) by {
        lemma_tied(w, c, d);
    }
    assert forall|c: ChunkCoord| #[trigger] g.to_set().contains(c) == g.contains(c) by {}
    assert(w.leads(seq![seed], seed, seed));
    assert(w.joined(seed, seed));
    if w.groups(watched, seed, max, g) {
        assert(closed(w, g.to_set())) by {
            assert forall|c: ChunkCoord, d: ChunkCoord|
                g.to_set().contains(c) && #[trigger] tied(w, c, d) implies g.to_set().contains(
                d,
            ) by {
                assert(g.contains(c));
                group::lemma_joined_on(w, seed, c, d);
                assert(g.contains(d));
            }
        }
        assert forall|set: Set<ChunkCoord>|
            #![trigger closed(w, set)]
            set.contains(seed) && closed(w, set) implies forall|c: ChunkCoord| #[trigger]
            g.contains(c) ==> set.contains(c) by {
            assert forall|a: ChunkCoord, b: ChunkCoord|
                set.contains(a) && #[trigger] w.linked(a, b) implies set.contains(b) by {
                assert(tied(w, a, b));
            }
            assert forall|c: ChunkCoord| #[trigger] g.contains(c) implies set.contains(c) by {
                group::lemma_closed(w, seed, c, set);
            }
        }
        assert forall|c: ChunkCoord| #[trigger] g.contains(c) implies w.chunks.contains_key(c)
            && !watched.contains(c) && -0x8000_0000 < c.0 < 0x7fff_ffff && -0x8000_0000 < c.1
            < 0x7fff_ffff by {
            assert(w.groupable(watched, c));
        }
    }
    if g.no_duplicates() && 2 <= g.len() <= max && g.contains(seed) && closed(w, g.to_set()) && (
    forall|set: Set<ChunkCoord>|
        #![trigger closed(w, set)]
        set.contains(seed) && closed(w, set) ==> forall|c: ChunkCoord| #[trigger]
            g.contains(c) ==> set.contains(c)) && (forall|c: ChunkCoord| #[trigger]
        g.contains(c) ==> w.chunks.contains_key(c) && !watched.contains(c) && -0x8000_0000 < c.0
            < 0x7fff_ffff && -0x8000_0000 < c.1 < 0x7fff_ffff) {
        let all = Set::new(|c: ChunkCoord| w.joined(seed, c));
        assert(closed(w, all)) by {
            assert forall|c: ChunkCoord, d: ChunkCoord|
                all.contains(c) && #[trigger] tied(w, c, d) implies all.contains(d) by {
                assert(w.linked(c, d));
                group::lemma_joined_on(w, seed, c, d);
            }
        }
        let set = g.to_set();
        assert forall|a: ChunkCoord, b: ChunkCoord|
            set.contains(a) && #[trigger] w.linked(a, b) implies set.contains(b) by {
            assert(tied(w, a, b));
        }
        assert forall|c: ChunkCoord| #[trigger] g.contains(c) <==> w.joined(seed, c) by {
            if w.joined(seed, c) {
                group::lemma_closed(w, seed, c, set);
            }
            if g.contains(c) {
                assert(all.contains(c));
            }
        }
        assert forall|c: ChunkCoord| #[trigger] g.contains(c) implies w.groupable(watched, c) by {}
    }
}

/// What cell `(u, v)` of the plane adds to the neighbors that a cell of chunk `c` counts, where the
/// chunks of `m` are run by themselves: one if it is alive, unless `c` is owned and its chunk is
/// not.
pub open spec fn adds_in(
    m: Map<ChunkCoord, Chunk>,
    own: Set<ChunkCoord>,
    c: ChunkCoord,
    u: int,
    v: int,
) -> int {
    let d = ((u / 64) as i32, (v / 64) as i32);
    if m.contains_key(d) && (own.contains(c) ==> own.contains(d)) && cells::set_in(
        m[d].rows[v % 64],
        u % 64,
    ) {
        1
    } else {
        0
    }
}

proof fn lemma_adds_in(
    m: Map<ChunkCoord, Chunk>,
    own: Set<ChunkCoord>,
    c: ChunkCoord,
    x: int,
    y: int,
)
    requires
        -1 <= x <= 64,
        -1 <= y <= 64,
        -0x8000_0000 < c.0 < 0x7fff_ffff,
        -0x8000_0000 < c.1 < 0x7fff_ffff,
    ensures
        adds_in(m, own, c, 64 * c.0 + x, 64 * c.1 + y) == chunk::count(
            world::plane(m, own, c)(x, y),
        ),
{
    let u = 64 * c.0 + x;
    let v = 64 * c.1 + y;
    let d = world::shift(c, world::side(x), world::side(y));
    assert(u / 64 == c.0 + world::side(x) && u % 64 == x - 64 * world::side(x));
    assert(v / 64 == c.1 + world::side(y) && v % 64 == y - 64 * world::side(y));
    assert(d == ((u / 64) as i32, (v / 64) as i32));
    if !m.contains_key(d) {
        let z = world::lookup(m, d);
        assert(z.rows@[v % 64] == 0);
        bits::lemma_bit_zero(u % 64);
    }
}

/// Chunks that are run by themselves follow Conway's rule on the plane of their cells, across all
/// borders between them.
pub proof fn law_groups_follow_the_rule(
    m: Map<ChunkCoord, Chunk>,
    own: Set<ChunkCoord>,
    k: nat,
    c: ChunkCoord,
    x: int,
    y: int,
)
    requires
        m.contains_key(c),
        m[c].frozen is None,
        -0x8000_0000 < c.0 < 0x7fff_ffff,
        -0x8000_0000 < c.1 < 0x7fff_ffff,
        0 <= x < 64,
        0 <= y < 64,
    ensures
        ensemble::evolved(m, own, 0) == m,
        ensemble::evolved(m, own, k).dom() == m.dom(),
        ({
            let a = ensemble::evolved(m, own, k);
            let b = ensemble::evolved(m, own, k + 1);
            let u = 64 * c.0 + x;
            let v = 64 * c.1 + y;
            let n = adds_in(a, own, c, u - 1, v - 1) + adds_in(a, own, c, u, v - 1) + adds_in(
                a,
                own,
                c,
                u + 1,
                v - 1,
            ) + adds_in(a, own, c, u - 1, v) + adds_in(a, own, c, u + 1, v) + adds_in(
                a,
                own,
                c,
                u - 1,
                v + 1,
            ) + adds_in(a, own, c, u, v + 1) + adds_in(a, own, c, u + 1, v + 1);
            cells::set_in(b[c].rows[y], x) == (n == 3 || (n == 2 && cells::set_in(
                a[c].rows[y],
                x,
            )))
        }),
{
    ensemble::lemma_evolved(m, own, k);
    let a = ensemble::evolved(m, own, k);
    let b = ensemble::evolved(m, own, k + 1);
    assert(a.dom().contains(c));
    assert(a[c].frozen is None);
    let p = world::plane(a, own, c);
    assert(b[c] == a[c].stepped(p));
    a[c].lemma_next(p);
    lemma_adds_in(a, own, c, x - 1, y - 1);
    lemma_adds_in(a, own, c, x, y - 1);
    lemma_adds_in(a, own, c, x + 1, y - 1);
    lemma_adds_in(a, own, c, x - 1, y);
    lemma_adds_in(a, own, c, x, y);
    lemma_adds_in(a, own, c, x + 1, y);
    lemma_adds_in(a, own, c, x - 1, y + 1);
    lemma_adds_in(a, own, c, x, y + 1);
    lemma_adds_in(a, own, c, x + 1, y + 1);
    assert(p(x, y) == a[c].cell(x, y));
    if a[c].blank() && chunk::quiet(p) {
        assert forall|s: int, t: int| -1 <= s <= 64 && -1 <= t <= 64 implies !#[trigger] p(s, t) by {
            if 0 <= s < 64 && 0 <= t < 64 {
                assert(world::shift(c, world::side(s), world::side(t)) == c);
                assert(!a[c].cell(s, t));
            } else {
                assert(chunk::on_rim(s, t));
            }
        }
        assert(b[c] == a[c]);
        assert(!a[c].cell(x, y));
        assert(!p(x - 1, y - 1) && !p(x, y - 1) && !p(x + 1, y - 1) && !p(x - 1, y));
        assert(!p(x + 1, y) && !p(x - 1, y + 1) && !p(x, y + 1) && !p(x + 1, y + 1));
    } else {
        assert(b[c].cell(x, y) == a[c].next_cell(p, x, y));
    }
}

/// Chunks are paused together, for a period of one to five ticks, exactly if all are awake, with
/// nothing frozen and off the rim of the coordinate range, no other chunk has a live cell next to
/// one of them that it takes notice of, none of them ever has a live cell next to another chunk,
/// and run by themselves they are after the period what they were.
pub proof fn law_groups_are_paused(w: WorldState, s: Set<ChunkCoord>, period: u8)
    ensures
        w.pausable_together(s, period) <==> {
            let m = w.chunks.restrict(s);
            let own = w.owned.intersect(s);
            &&& 1 <= period <= 5
            &&& forall|c: ChunkCoord| #[trigger]
                s.contains(c) ==> w.chunks.contains_key(c) && w.chunks[c].frozen is None
                    && -0x8000_0000 < c.0 < 0x7fff_ffff && -0x8000_0000 < c.1 < 0x7fff_ffff
            &&& forall|c: ChunkCoord, d: ChunkCoord|
                s.contains(c) && !s.contains(d) && #[trigger] beside(c, d) ==> !(
                w.chunks.contains_key(d) && faces(w.chunks[d], c.0 - d.0, c.1 - d.1) && (
                w.owned.contains(c) ==> w.owned.contains(d))) && !w.leans_on(d, c)
            &&& forall|k: nat, c: ChunkCoord, d: ChunkCoord|
                #![trigger ensemble::evolved(m, own, k), beside(c, d)]
                k < period && s.contains(c) && !s.contains(d) && beside(c, d) ==> !faces(
                    ensemble::evolved(m, own, k)[c],
                    d.0 - c.0,
                    d.1 - c.1,
                )
            &&& ensemble::evolved(m, own, period as nat) == m
        },
{
    let m = w.chunks.restrict(s);
    let own = w.owned.intersect(s);
    assert forall|c: Chunk, dx: int, dy: int| -1 <= dx <= 1 && -1 <= dy <= 1 implies #[trigger] faces(
        c,
        dx,
        dy,
    ) == c.touches(dx, dy) by {
        cells::law_touching_is_by_the_side(c, dx, dy);
    }
    if forall|c: ChunkCoord| #[trigger] s.contains(c) ==> w.chunks.contains_key(c) {
        assert(m.dom() =~= s);
        assert forall|k: nat| #[trigger] ensemble::evolved(m, own, k).dom() == s by {
            ensemble::lemma_evolved(m, own, k);
        }
        if w.pausable_together(s, period) {
            assert forall|c: ChunkCoord| #[trigger] s.contains(c) implies w.chunks.contains_key(c)
                && w.chunks[c].frozen is None && -0x8000_0000 < c.0 < 0x7fff_ffff && -0x8000_0000
                < c.1 < 0x7fff_ffff by {
                assert(w.sociable(c));
            }
            assert forall|c: ChunkCoord, d: ChunkCoord|
                s.contains(c) && !s.contains(d) && #[trigger] beside(c, d) implies !(
            w.chunks.contains_key(d) && faces(w.chunks[d], c.0 - d.0, c.1 - d.1) && (
            w.owned.contains(c) ==> w.owned.contains(d))) && !w.leans_on(d, c) by {
                assert(!w.intrudes(d, c));
            }
            assert forall|k: nat, c: ChunkCoord, d: ChunkCoord|
                #![trigger ensemble::evolved(m, own, k), beside(c, d)]
                k < period && s.contains(c) && !s.contains(d) && beside(c, d) implies !faces(
                ensemble::evolved(m, own, k)[c],
                d.0 - c.0,
                d.1 - c.1,
            ) by {
                let e = ensemble::evolved(m, own, k);
                assert(ensemble::enclosed(e));
                assert(e.dom() == s);
                assert(e.dom().contains(c) && !e.dom().contains(d));
                assert(world::adjacent(c, d));
            }
        }
        if lawful(w, s, period) {
            assert forall|c: ChunkCoord| #[trigger] s.contains(c) implies w.sociable(c) by {}
            assert forall|c: ChunkCoord, d: ChunkCoord|
                s.contains(c) && !s.contains(d) implies !#[trigger] w.intrudes(d, c) by {
                if world::adjacent(c, d) {
                    assert(beside(c, d));
                }
            }
            assert forall|k: nat| k < period implies ensemble::enclosed(
                #[trigger] ensemble::evolved(m, own, k),
            ) by {
                let e = ensemble::evolved(m, own, k);
                assert forall|c: ChunkCoord, d: ChunkCoord|
                    e.contains_key(c) && #[trigger] world::adjacent(c, d) && !e.contains_key(
                        d,
                    ) implies !e[c].touches(d.0 - c.0, d.1 - c.1) by {
                    assert(e.dom() == s);
                    assert(e.dom().contains(c) && !e.dom().contains(d));
                    assert(beside(c, d));
                    assert(!faces(e[c], d.0 - c.0, d.1 - c.1));
                }
            }
            assert(w.pausable_together(s, period));
        }
    } else if w.pausable_together(s, period) {
        assert forall|c: ChunkCoord| #[trigger] s.contains(c) implies w.chunks.contains_key(c) by {
            assert(w.sociable(c));
        }
    }
}

/// What chunks that are to be paused together must be like.
spec fn lawful(w: WorldState, s: Set<ChunkCoord>, period: u8) -> bool {
    let m = w.chunks.restrict(s);
    let own = w.owned.intersect(s);
    &&& 1 <= period <= 5
    &&& forall|c: ChunkCoord| #[trigger]
        s.contains(c) ==> w.chunks.contains_key(c) && w.chunks[c].frozen is None && -0x8000_0000
            < c.0 < 0x7fff_ffff && -0x8000_0000 < c.1 < 0x7fff_ffff
    &&& forall|c: ChunkCoord, d: ChunkCoord|
        s.contains(c) && !s.contains(d) && #[trigger] beside(c, d) ==> !(w.chunks.contains_key(d)
            && faces(w.chunks[d], c.0 - d.0, c.1 - d.1) && (w.owned.contains(c) ==> w.owned.contains(
            d,
        ))) && !w.leans_on(d, c)
    &&& forall|k: nat, c: ChunkCoord, d: ChunkCoord|
        #![trigger ensemble::evolved(m, own, k), beside(c, d)]
        k < period && s.contains(c) && !s.contains(d) && beside(c, d) ==> !faces(
            ensemble::evolved(m, own, k)[c],
            d.0 - c.0,
            d.1 - c.1,
        )
    &&& ensemble::evolved(m, own, period as nat) == m
}

/// Where groups have led: each chunk is as it was, or was paused as it was with a group; the first
/// group that was given is paused if it can be.
pub proof fn law_first_group_is_paused(
    s: SimState,
    detector: DetectorState,
    groups: Seq<(Vec<ChunkCoord>, u8)>,
    c: ChunkCoord,
)
    ensures
        ({
            let next = s.gathering(detector, groups).world;
            &&& next.tick == s.world.tick
            &&& next.owned == s.world.owned
            &&& next.chunks.contains_key(c) ==> s.world.chunks.contains_key(c) && next.chunks[c]
                == s.world.chunks[c]
            &&& s.world.chunks.contains_key(c) && !next.chunks.contains_key(c) ==> {
                &&& next.oscillators.contains_key(c)
                &&& next.oscillators[c].chunk == s.world.chunks[c]
                &&& next.oscillators[c].paused_at_tick == s.world.tick
                &&& exists|i: int|
                    0 <= i < groups.len() && (#[trigger] groups[i]).0@.contains(c) && groups[i].1
                        == next.oscillators[c].period
            }
            &&& s.world.oscillators.contains_key(c) ==> next.oscillators.contains_key(c)
            &&& groups.len() > 0 && groups[0].0@.contains(c) && s.world.pausable_together(
                groups[0].0@.to_set(),
                groups[0].1,
            ) ==> next.oscillators.contains_key(c) && !next.chunks.contains_key(c)
        }),
    decreases groups.len(),
{
    if groups.len() > 0 {
        let init = groups.drop_last();
        let g = groups.last();
        let p = s.gathering(detector, init);
        let set = g.0@.to_set();
        law_first_group_is_paused(s, detector, init, c);
        assert forall|i: int| 0 <= i < init.len() implies init[i] == #[trigger] groups[i] by {}
        let next = s.gathering(detector, groups).world;
        if s.world.chunks.contains_key(c) && !next.chunks.contains_key(c) {
            if !p.world.chunks.contains_key(c) {
                let i = choose|i: int|
                    0 <= i < init.len() && (#[trigger] init[i]).0@.contains(c) && init[i].1
                        == p.world.oscillators[c].period;
                assert(groups[i].0@.contains(c));
                if set.contains(c) && set.disjoint(p.paused) && p.world.pausable_together(
                    set,
                    g.1,
                ) {
                    assert(p.world.sociable(c));
                }
            } else {
                assert(set.contains(c));
                assert(groups[groups.len() - 1].0@.contains(c));
            }
        }
        if groups.len() == 1 {
            assert(groups[0] == g);
            assert(p.paused =~= Set::<ChunkCoord>::empty());
            if g.0@.contains(c) {
                assert(set.contains(c));
            }
        } else {
            assert(init[0] == groups[0]);
            if set.disjoint(p.paused) && p.world.pausable_together(set, g.1) && set.contains(c) {
                assert(p.world.sociable(c));
            }
        }
    }
}

/// The detector forgets exactly the chunks that were paused with groups, and these are counted.
pub proof fn law_paused_groups_are_forgotten(
    s: SimState,
    detector: DetectorState,
    groups: Seq<(Vec<ChunkCoord>, u8)>,
    c: ChunkCoord,
)
    ensures
        ({
            let p = s.gathering(detector, groups);
            &&& p.paused.contains(c) <==> s.world.chunks.contains_key(c)
                && !p.world.chunks.contains_key(c)
            &&& p.detector.rings.contains_key(c) <==> detector.rings.contains_key(c)
                && !p.paused.contains(c)
            &&& p.detector.rings.contains_key(c) ==> p.detector.rings[c] == detector.rings[c]
            &&& p.detector.pending == detector.pending
        }),
    decreases groups.len(),
{
    if groups.len() > 0 {
        let init = groups.drop_last();
        let g = groups.last();
        let p = s.gathering(detector, init);
        let set = g.0@.to_set();
        law_paused_groups_are_forgotten(s, detector, init, c);
        law_first_group_is_paused(s, detector, init, c);
        if set.disjoint(p.paused) && p.world.pausable_together(set, g.1) && set.contains(c) {
            assert(p.world.sociable(c));
        }
    }
}

/// A chunk that is paused with a group leans on a neighbor exactly if, in the phase that the group
/// has come to, it has a live cell along the side or at the corner that faces the neighbor. One that
/// is paused by itself, or awake, does not.
pub proof fn law_leaning_is_by_the_side(w: WorldState, d: ChunkCoord, c: ChunkCoord)
    requires
        w.wf(),
    ensures
        w.leans_on(d, c) <==> w.oscillators.contains_key(d) && beside(c, d) && (
        w.oscillators[d].group matches Some(g) && faces(
            g.phases[if w.tick < w.oscillators[d].paused_at_tick {
                0int
            } else {
                (w.tick - w.oscillators[d].paused_at_tick) % (w.oscillators[d].period as int)
            }][d],
            c.0 - d.0,
            c.1 - d.1,
        )),
{
    let o = w.oscillators[d];
    assert(world::adjacent(c, d) == beside(c, d));
    if w.oscillators.contains_key(d) && o.group is Some && beside(c, d) {
        let k = if w.tick < o.paused_at_tick {
            0int
        } else {
            (w.tick - o.paused_at_tick) % (o.period as int)
        };
        assert(o.phase(w.tick) == k);
        assert(o.resumed(d, w.tick) == o.group->0.phases[k][d]);
        cells::law_touching_is_by_the_side(o.resumed(d, w.tick), c.0 - d.0, c.1 - d.1);
    }
}

} // verus!
