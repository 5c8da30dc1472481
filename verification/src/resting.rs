//! Which chunks come to be paused, and when.

use crate::bits;
use crate::cells;
use crate::chunk;
use crate::chunk::Chunk;
use crate::coord::ChunkCoord;
use crate::life;
use crate::oscillator;
use crate::oscillator::{DetectorState, HashReport, PromoteRequest};
use crate::sim;
use crate::sim::{SimEvent, SimState, Ticked};
use crate::sort;
use crate::wire;
use crate::world;
use crate::world::{TickOutcome, WorldState};
use vstd::prelude::*;

verus! {

/// One more report.
proof fn lemma_observing_push(d: DetectorState, reports: Seq<HashReport>, r: HashReport)
    ensures
        d.observing(reports.push(r)) == d.observing(reports).observed(r),
    decreases reports.len(),
{
    let all = reports.push(r);
    if reports.len() == 0 {
        reveal_with_fuel(DetectorState::observing, 2);
        assert(all.drop_first() =~= Seq::<HashReport>::empty());
    } else {
        assert(all.drop_first() =~= reports.drop_first().push(r));
        lemma_observing_push(d.observed(reports[0]), reports.drop_first(), r);
    }
}

/// Whether the latest hashes of `reports` repeat with period `p`: each of the last `2 * p` is the
/// one `p` before it.
pub open spec fn cycles_with(reports: Seq<HashReport>, p: int) -> bool {
    forall|i: int|
        reports.len() - 2 * p <= i < reports.len() ==> (#[trigger] reports[i]).hash == reports[i
            - p].hash
}

/// A report of a chunk with live cells around it discards what was known of the chunk. One without
/// adds its hash to those of the chunk, of which the latest fifteen are kept; with fifteen, the
/// chunk is queued behind all others, unless it is in the queue already. What is known of other
/// chunks stays as it is.
pub proof fn law_reports_are_remembered(d: DetectorState, r: HashReport)
    ensures
        ({
            let next = d.observed(r);
            let was_queued = d.rings.contains_key(r.coord) && d.rings[r.coord].in_pending;
            let old_hashes = if d.rings.contains_key(r.coord) {
                d.rings[r.coord].recent
            } else {
                Seq::empty()
            };
            &&& next.rings.contains_key(r.coord)
            &&& next.rings[r.coord].last_tick == r.tick
            &&& next.rings[r.coord].poisoned == !r.halo_was_zero
            &&& next.rings[r.coord].in_pending == (was_queued || (r.halo_was_zero
                && next.rings[r.coord].recent.len() == 15))
            &&& next.pending == (if !was_queued && next.rings[r.coord].in_pending {
                d.pending.push(r.coord)
            } else {
                d.pending
            })
            &&& !r.halo_was_zero ==> next.rings[r.coord].recent.len() == 0 && next.pending
                == d.pending
            &&& r.halo_was_zero && old_hashes.len() < 15 ==> next.rings[r.coord].recent
                == old_hashes.push(r.hash)
            &&& r.halo_was_zero && old_hashes.len() == 15 ==> next.rings[r.coord].recent
                == old_hashes.subrange(1, 15).push(r.hash)
            &&& forall|c: ChunkCoord|
                c != r.coord ==> #[trigger] next.rings.contains_key(c) == d.rings.contains_key(c)
                    && next.rings[c] == d.rings[c]
        }),
{
    let old_hashes = if d.rings.contains_key(r.coord) {
        d.rings[r.coord].recent
    } else {
        Seq::empty()
    };
    if old_hashes.len() == 15 {
        assert(old_hashes.drop_first() =~= old_hashes.subrange(1, 15));
    }
}

/// What is known of a chunk after reports of it alone.
proof fn lemma_recent(d: DetectorState, c: ChunkCoord, reports: Seq<HashReport>)
    requires
        !d.rings.contains_key(c),
        d.pending.len() == 0,
        forall|i: int|
            0 <= i < reports.len() ==> (#[trigger] reports[i]).coord == c
                && reports[i].halo_was_zero,
    ensures
        ({
            let e = d.observing(reports);
            let n = reports.len() as int;
            let k = if n < 15 {
                n
            } else {
                15
            };
            &&& n == 0 ==> e == d
            &&& n > 0 ==> e.rings.contains_key(c) && !e.rings[c].poisoned && e.rings[c].recent.len()
                == k
            &&& n > 0 ==> forall|i: int|
                0 <= i < k ==> #[trigger] e.rings[c].recent[i] == reports[n - k + i].hash
            &&& n > 0 ==> e.rings[c].in_pending == (n >= 15)
            &&& e.pending == (if n >= 15 {
                seq![c]
            } else {
                Seq::empty()
            })
        }),
    decreases reports.len(),
{
    if reports.len() > 0 {
        let init = reports.drop_last();
        let r = reports.last();
        assert(reports =~= init.push(r));
        assert forall|i: int| 0 <= i < init.len() implies (#[trigger] init[i]).coord == c
            && init[i].halo_was_zero by {
            assert(reports[i].coord == c);
        }
        assert(reports[reports.len() - 1].coord == c);
        lemma_recent(d, c, init);
        lemma_observing_push(d, init, r);
        let a = d.observing(init);
        let e = d.observing(reports);
        assert(e == a.observed(r));
        if reports.len() == 15 {
            assert(a.pending =~= Seq::<ChunkCoord>::empty());
            assert(e.pending =~= seq![c]);
        }
    } else {
        assert(d.pending =~= Seq::<ChunkCoord>::empty());
    }
}

/// A chunk that nothing was known of, and that is reported fifteen times or more with nothing alive
/// around it and hashes that repeat with a period of at most five, is proposed by the next scan,
/// with the least such period. One whose hashes do not repeat, or that was reported fewer times, is
/// not proposed.
pub proof fn law_repeating_chunks_are_proposed(
    d: DetectorState,
    c: ChunkCoord,
    reports: Seq<HashReport>,
    budget: nat,
    p: int,
)
    requires
        !d.rings.contains_key(c),
        d.pending.len() == 0,
        budget > 0,
        forall|i: int|
            0 <= i < reports.len() ==> (#[trigger] reports[i]).coord == c
                && reports[i].halo_was_zero,
    ensures
        reports.len() >= 15 && 1 <= p <= 5 && cycles_with(reports, p) && (forall|q: int|
            1 <= q < p ==> !#[trigger] cycles_with(reports, q)) ==> d.observing(reports).scanned(
            budget,
        ).1 == seq![PromoteRequest { coord: c, period: p as u8 }],
        reports.len() < 15 ==> d.observing(reports).scanned(budget).1.len() == 0,
        reports.len() >= 15 && (forall|q: int| 1 <= q <= 5 ==> !#[trigger] cycles_with(reports, q))
            ==> d.observing(reports).scanned(budget).1.len() == 0,
{
    lemma_recent(d, c, reports);
    let e = d.observing(reports);
    if reports.len() >= 15 {
        let recent = e.rings[c].recent;
        let n = reports.len() as int;
        assert forall|q: int| 1 <= q <= 5 implies #[trigger] cycles_with(reports, q)
            == oscillator::repeats(recent, q) by {
            assert forall|i: int| 0 <= i < 15 implies #[trigger] recent[i] == reports[n - 15
                + i].hash by {}
            if cycles_with(reports, q) {
                assert forall|i: int|
                    #![trigger recent[recent.len() - 1 - i]]
                    0 <= i < 2 * q implies recent[recent.len() - 1 - i] == recent[recent.len() - 1
                    - i - q] by {
                    assert(reports[n - 1 - i].hash == reports[n - 1 - i - q].hash);
                    assert(recent[14 - i] == reports[n - 15 + (14 - i)].hash);
                    assert(recent[14 - i - q] == reports[n - 15 + (14 - i - q)].hash);
                }
            }
            if oscillator::repeats(recent, q) {
                assert forall|i: int| n - 2 * q <= i < n implies (#[trigger] reports[i]).hash
                    == reports[i - q].hash by {
                    let k = n - 1 - i;
                    assert(recent[recent.len() - 1 - k] == recent[recent.len() - 1 - k - q]);
                    assert(recent[14 - k] == reports[n - 15 + (14 - k)].hash);
                    assert(recent[14 - k - q] == reports[n - 15 + (14 - k - q)].hash);
                }
            }
        }
        oscillator::law_period_is_least(recent, 1);
        let (next, found) = e.judged();
        assert(e.pending[0] == c);
        assert(next.pending.len() == 0);
        let left = (budget - 1) as nat;
        assert(next.scanned(left).1 == Seq::<PromoteRequest>::empty());
        if 1 <= p <= 5 && cycles_with(reports, p) && (forall|q: int|
            1 <= q < p ==> !#[trigger] cycles_with(reports, q)) {
            assert(oscillator::repeats(recent, p));
            match oscillator::least_period(recent, 1) {
                Some(k) => {
                    if k < p {
                        assert(cycles_with(reports, k as int));
                    } else if k > p {
                        assert(!oscillator::repeats(recent, p));
                    }
                    assert(k == p);
                },
                None => {},
            }
            assert(seq![found->0] + next.scanned(left).1 =~= seq![
                PromoteRequest { coord: c, period: p as u8 },
            ]);
        }
        if forall|q: int| 1 <= q <= 5 ==> !#[trigger] cycles_with(reports, q) {
            match oscillator::least_period(recent, 1) {
                Some(k) => {
                    assert(cycles_with(reports, k as int));
                },
                None => {},
            }
        }
    }
}

/// A scan takes what is queued from the front: where the first chunk of the queue is known to
/// repeat, it is the first to be proposed, and is forgotten.
pub proof fn law_queue_is_judged_in_order(d: DetectorState, budget: nat, p: int)
    requires
        budget > 0,
        d.pending.len() > 0,
        d.rings.contains_key(d.pending[0]),
        d.rings[d.pending[0]].in_pending,
        !d.rings[d.pending[0]].poisoned,
        d.rings[d.pending[0]].recent.len() == 15,
        1 <= p <= 5,
        forall|i: int|
            15 - 2 * p <= i < 15 ==> #[trigger] d.rings[d.pending[0]].recent[i]
                == d.rings[d.pending[0]].recent[i - p],
    ensures
        d.scanned(budget).1.len() > 0,
        d.scanned(budget).1[0].coord == d.pending[0],
        1 <= d.scanned(budget).1[0].period <= p,
        !d.scanned(budget).0.rings.contains_key(d.pending[0]),
{
    let c = d.pending[0];
    let recent = d.rings[c].recent;
    assert(oscillator::repeats(recent, p)) by {
        assert forall|i: int|
            #![trigger recent[recent.len() - 1 - i]]
            0 <= i < 2 * p implies recent[recent.len() - 1 - i] == recent[recent.len() - 1 - i
            - p] by {
            assert(recent[14 - i] == recent[14 - i - p]);
        }
    }
    oscillator::law_period_is_least(recent, 1);
    oscillator::law_scan_is_honest(d, budget);
    let (next, found) = d.judged();
    assert(found is Some);
    let rest = next.scanned((budget - 1) as nat).1;
    assert(d.scanned(budget).1 == seq![found->0] + rest);
    assert(d.scanned(budget).1[0] == found->0);
}

/// Whether cell `(x, y)` of the plane lies just outside chunk `c`.
pub open spec fn outside(c: ChunkCoord, x: int, y: int) -> bool {
    &&& 64 * c.0 - 1 <= x <= 64 * c.0 + 64
    &&& 64 * c.1 - 1 <= y <= 64 * c.1 + 64
    &&& !(64 * c.0 <= x < 64 * c.0 + 64 && 64 * c.1 <= y < 64 * c.1 + 64)
}

/// Whether cell `(x, y)` is alive in a chunk that is awake, and chunk `c` takes notice of it.
pub open spec fn stirs(w: WorldState, c: ChunkCoord, x: int, y: int) -> bool {
    let d = ((x / 64) as i32, (y / 64) as i32);
    &&& w.chunks.contains_key(d)
    &&& w.owned.contains(c) ==> w.owned.contains(d)
    &&& (w.chunks[d].rows[y % 64] >> ((x % 64) as u64)) & 1 == 1
}

/// Whether a cell on the rim of a chunk is alive.
pub open spec fn rim_lit(c: Chunk) -> bool {
    exists|i: int| 0 <= i < 64 && #[trigger] rim_lit_at(c, i)
}

/// Whether the cell at `i` along one of the four sides of a chunk is alive.
pub open spec fn rim_lit_at(c: Chunk, i: int) -> bool {
    ||| cells::set_in(c.rows[0], i)
    ||| cells::set_in(c.rows[63], i)
    ||| cells::set_in(c.rows[i], 0)
    ||| cells::set_in(c.rows[i], 63)
}

proof fn lemma_rim_lit(c: Chunk)
    ensures
        world::sealed(c) == !rim_lit(c),
{
    if rim_lit(c) {
        let i = choose|i: int| 0 <= i < 64 && #[trigger] rim_lit_at(c, i);
        if cells::set_in(c.rows[0], i) {
            assert(c.cell(i, 0));
            assert(chunk::facing(i, 0) && chunk::facing(0, -1));
            assert(c.touches(0, -1));
        } else if cells::set_in(c.rows[63], i) {
            assert(c.cell(i, 63));
            assert(chunk::facing(i, 0) && chunk::facing(63, 1));
            assert(c.touches(0, 1));
        } else if cells::set_in(c.rows[i], 0) {
            assert(c.cell(0, i));
            assert(chunk::facing(0, -1) && chunk::facing(i, 0));
            assert(c.touches(-1, 0));
        } else {
            assert(c.cell(63, i));
            assert(chunk::facing(63, 1) && chunk::facing(i, 0));
            assert(c.touches(1, 0));
        }
    }
    if !world::sealed(c) {
        let (dx, dy) = choose|dx: int, dy: int|
            -1 <= dx <= 1 && -1 <= dy <= 1 && (dx != 0 || dy != 0) && #[trigger] c.touches(dx, dy);
        let (x, y) = choose|x: int, y: int|
            chunk::facing(x, dx) && chunk::facing(y, dy) && #[trigger] c.cell(x, y);
        if dy != 0 {
            assert(rim_lit_at(c, x));
        } else {
            assert(rim_lit_at(c, y));
        }
    }
}

/// A chunk is paused by itself, for a period of one to five ticks, exactly if it is awake, nothing
/// in it is frozen, it takes notice of no live cell just outside, no chunk that is paused with a
/// group has a live cell next to it, and in no tick of the period, left to itself, it has a live
/// cell on its rim.
pub proof fn law_lone_chunks_are_paused(w: WorldState, c: ChunkCoord, period: u8)
    requires
        -0x8000_0000 < c.0 < 0x7fff_ffff,
        -0x8000_0000 < c.1 < 0x7fff_ffff,
    ensures
        w.pausable(c, period) <==> {
            &&& 1 <= period <= 5
            &&& w.chunks.contains_key(c)
            &&& w.chunks[c].frozen is None
            &&& forall|x: int, y: int| outside(c, x, y) ==> !#[trigger] stirs(w, c, x, y)
            &&& !(exists|d: ChunkCoord| w.leans_on(d, c))
            &&& forall|k: nat| k < period ==> !rim_lit(#[trigger] world::coast(w.chunks[c], k))
        },
{
    lemma_quiet(w, c);
    if w.chunks.contains_key(c) {
        assert forall|k: nat| #[trigger] rim_lit(world::coast(w.chunks[c], k)) == !world::sealed(
            world::coast(w.chunks[c], k),
        ) by {
            lemma_rim_lit(world::coast(w.chunks[c], k));
        }
    }
}

/// Whether nothing that a chunk takes notice of is alive just outside of it.
pub proof fn lemma_quiet(w: WorldState, c: ChunkCoord)
    requires
        -0x8000_0000 < c.0 < 0x7fff_ffff,
        -0x8000_0000 < c.1 < 0x7fff_ffff,
    ensures
        chunk::quiet(world::plane(w.chunks, w.owned, c)) <==> forall|x: int, y: int|
            outside(c, x, y) ==> !#[trigger] stirs(w, c, x, y),
{
    let p = world::plane(w.chunks, w.owned, c);
    assert forall|x: int, y: int| outside(c, x, y) implies #[trigger] stirs(w, c, x, y) == p(
        x - 64 * c.0,
        y - 64 * c.1,
    ) by {
        lemma_stirs(w, c, x - 64 * c.0, y - 64 * c.1);
    }
    assert(chunk::quiet(p) <==> forall|x: int, y: int|
        outside(c, x, y) ==> !#[trigger] stirs(w, c, x, y)) by {
        if chunk::quiet(p) {
            assert forall|x: int, y: int| outside(c, x, y) implies !#[trigger] stirs(w, c, x, y) by {
                assert(chunk::on_rim(x - 64 * c.0, y - 64 * c.1));
                assert(!p(x - 64 * c.0, y - 64 * c.1));
            }
        } else {
            let (x, y) = choose|x: int, y: int| chunk::on_rim(x, y) && #[trigger] p(x, y);
            let u = x + 64 * c.0;
            let v = y + 64 * c.1;
            assert(outside(c, u, v));
            assert(u - 64 * c.0 == x && v - 64 * c.1 == y);
            assert(stirs(w, c, u, v));
        }
    }
}

proof fn lemma_stirs(w: WorldState, c: ChunkCoord, x: int, y: int)
    requires
        chunk::on_rim(x, y),
        -0x8000_0000 < c.0 < 0x7fff_ffff,
        -0x8000_0000 < c.1 < 0x7fff_ffff,
    ensures
        stirs(w, c, 64 * c.0 + x, 64 * c.1 + y) == world::plane(w.chunks, w.owned, c)(x, y),
{
    let u = 64 * c.0 + x;
    let v = 64 * c.1 + y;
    let d = world::shift(c, world::side(x), world::side(y));
    assert(u / 64 == c.0 + world::side(x) && u % 64 == x - 64 * world::side(x));
    assert(v / 64 == c.1 + world::side(y) && v % 64 == y - 64 * world::side(y));
    assert(d == ((u / 64) as i32, (v / 64) as i32));
    if !w.chunks.contains_key(d) {
        let z = world::lookup(w.chunks, d);
        assert(z.rows@[v % 64] == 0);
        bits::lemma_bit_zero(u % 64);
    }
}

/// Whether local cell `(x, y)` of a chunk is alive; nothing outside is.
pub open spec fn inside_lit(c: Chunk, x: int, y: int) -> int {
    if 0 <= x < 64 && 0 <= y < 64 && cells::set_in(c.rows[y], x) {
        1
    } else {
        0
    }
}

/// A chunk that is left to itself follows Conway's rule, with nothing alive outside of it; cells
/// that are frozen take the value that they are pinned to, where anything is alive.
pub proof fn law_coasting_follows_the_rule(c: Chunk, k: nat, x: int, y: int)
    requires
        0 <= x < 64,
        0 <= y < 64,
        c.frozen is None,
    ensures
        world::coast(c, 0) == c,
        world::coast(c, k).frozen is None,
        ({
            let a = world::coast(c, k);
            let b = world::coast(c, k + 1);
            let n = inside_lit(a, x - 1, y - 1) + inside_lit(a, x, y - 1) + inside_lit(
                a,
                x + 1,
                y - 1,
            ) + inside_lit(a, x - 1, y) + inside_lit(a, x + 1, y) + inside_lit(a, x - 1, y + 1)
                + inside_lit(a, x, y + 1) + inside_lit(a, x + 1, y + 1);
            cells::set_in(b.rows[y], x) == (n == 3 || (n == 2 && cells::set_in(a.rows[y], x)))
        }),
{
    life::lemma_coast_frozen(c, k);
    let a = world::coast(c, k);
    let b = world::coast(c, k + 1);
    let p = world::alone(a);
    assert(b == a.stepped(p));
    a.lemma_next(p);
    assert forall|u: int, v: int| inside_lit(a, u, v) == #[trigger] chunk::count(p(u, v)) by {}
    if a.blank() && chunk::quiet(p) {
        assert forall|u: int, v: int| #[trigger] inside_lit(a, u, v) == 0 by {
            if 0 <= u < 64 && 0 <= v < 64 {
                assert(!a.cell(u, v));
            }
        }
        assert(!a.cell(x, y));
    } else {
        assert(b.cell(x, y) == a.next_cell(p, x, y));
        assert(inside_lit(a, x - 1, y - 1) == chunk::count(p(x - 1, y - 1)));
        assert(inside_lit(a, x, y - 1) == chunk::count(p(x, y - 1)));
        assert(inside_lit(a, x + 1, y - 1) == chunk::count(p(x + 1, y - 1)));
        assert(inside_lit(a, x - 1, y) == chunk::count(p(x - 1, y)));
        assert(inside_lit(a, x + 1, y) == chunk::count(p(x + 1, y)));
        assert(inside_lit(a, x - 1, y + 1) == chunk::count(p(x - 1, y + 1)));
        assert(inside_lit(a, x, y + 1) == chunk::count(p(x, y + 1)));
        assert(inside_lit(a, x + 1, y + 1) == chunk::count(p(x + 1, y + 1)));
    }
}

/// A chunk that can be paused still can once another was paused by itself.
proof fn lemma_still_pausable(w: WorldState, c: ChunkCoord, p: u8, d: ChunkCoord, q: u8)
    requires
        w.pausable(c, p),
        w.pausable(d, q),
        c != d,
    ensures
        w.pausing(d, q).pausable(c, p),
{
    let next = w.pausing(d, q);
    let a = world::plane(w.chunks, w.owned, c);
    let b = world::plane(next.chunks, next.owned, c);
    assert forall|x: int, y: int| chunk::on_rim(x, y) implies !#[trigger] b(x, y) by {
        assert(!a(x, y));
        let e = world::shift(c, world::side(x), world::side(y));
        if e == d {
            let z = world::lookup(next.chunks, e);
            assert(z.rows@[y - 64 * world::side(y)] == 0);
            bits::lemma_bit_zero(x - 64 * world::side(x));
        } else {
            assert(world::lookup(next.chunks, e) == world::lookup(w.chunks, e));
        }
    }
    assert forall|e: ChunkCoord| !next.leans_on(e, c) by {
        assert(!w.leans_on(e, c));
    }
}

/// Where promote requests have led: each chunk is as it was, or was paused as it was, for a period
/// that was asked for.
pub proof fn law_promote_requests_are_met(
    s: SimState,
    reqs: Seq<PromoteRequest>,
    c: ChunkCoord,
    i: int,
)
    ensures
        ({
            let next = s.promoting(reqs).world;
            &&& next.tick == s.world.tick
            &&& next.owned == s.world.owned
            &&& s.watched.contains(c) ==> next.chunks.contains_key(c) == s.world.chunks.contains_key(
                c,
            ) && next.oscillators.contains_key(c) == s.world.oscillators.contains_key(c)
            &&& next.chunks.contains_key(c) ==> s.world.chunks.contains_key(c) && next.chunks[c]
                == s.world.chunks[c] && next.oscillators.contains_key(c)
                == s.world.oscillators.contains_key(c)
            &&& s.world.chunks.contains_key(c) && !next.chunks.contains_key(c) ==> {
                &&& next.oscillators.contains_key(c)
                &&& next.oscillators[c].chunk == s.world.chunks[c]
                &&& next.oscillators[c].paused_at_tick == s.world.tick
                &&& next.oscillators[c].group is None
                &&& reqs.contains(
                    PromoteRequest { coord: c, period: next.oscillators[c].period },
                )
            }
            &&& 0 <= i < reqs.len() && !s.watched.contains(reqs[i].coord) && s.world.pausable(
                reqs[i].coord,
                reqs[i].period,
            ) ==> next.oscillators.contains_key(reqs[i].coord) && !next.chunks.contains_key(
                reqs[i].coord,
            )
        }),
    decreases reqs.len(),
{
    if reqs.len() > 0 {
        let init = reqs.drop_last();
        let q = reqs.last();
        let a = s.promoting(init).world;
        law_promote_requests_are_met(s, init, c, i);
        law_promote_requests_are_met(s, init, q.coord, i);
        assert(reqs =~= init.push(q));
        sort::lemma_push_contains(init, q);
        if 0 <= i < reqs.len() && !s.watched.contains(reqs[i].coord) && s.world.pausable(
            reqs[i].coord,
            reqs[i].period,
        ) {
            if i < init.len() {
                assert(init[i] == reqs[i]);
            } else {
                assert(reqs[i] == q);
                lemma_promoting_keeps_pausable(s, init, q.coord, q.period);
            }
        }
    }
}

/// A chunk that can be paused still can after promote requests, unless it was.
proof fn lemma_promoting_keeps_pausable(
    s: SimState,
    reqs: Seq<PromoteRequest>,
    c: ChunkCoord,
    period: u8,
)
    requires
        s.world.pausable(c, period),
    ensures
        ({
            let next = s.promoting(reqs).world;
            next.pausable(c, period) || (next.oscillators.contains_key(c)
                && !next.chunks.contains_key(c))
        }),
    decreases reqs.len(),
{
    if reqs.len() > 0 {
        let init = reqs.drop_last();
        let q = reqs.last();
        let a = s.promoting(init).world;
        lemma_promoting_keeps_pausable(s, init, c, period);
        if !s.watched.contains(q.coord) && a.pausable(q.coord, q.period) && q.coord != c
            && a.pausable(c, period) {
            lemma_still_pausable(a, c, period, q.coord, q.period);
        }
    }
}

/// Coming to observe chunks wakes exactly those of them that nobody observed and that are paused;
/// all others stay as they are.
pub proof fn law_observing_wakes_chunks(s: SimState, coords: Set<ChunkCoord>, c: ChunkCoord)
    ensures
        ({
            let next = s.world.woken(s.unwatched(coords));
            let wakes = coords.contains(c) && !s.watched.contains(c)
                && s.world.oscillators.contains_key(c);
            &&& wakes ==> next.chunks.contains_key(c) && !next.oscillators.contains_key(c)
                && next.chunks[c] == s.world.oscillators[c].resumed(c, s.world.tick)
            &&& !wakes ==> next.chunks.contains_key(c) == s.world.chunks.contains_key(c)
                && next.oscillators.contains_key(c) == s.world.oscillators.contains_key(c)
            &&& !wakes && next.chunks.contains_key(c) ==> next.chunks[c] == s.world.chunks[c]
            &&& next.oscillators.contains_key(c) ==> next.oscillators[c] == s.world.oscillators[c]
            &&& next.tick == s.world.tick
            &&& next.owned == s.world.owned
        }),
{
}

/// What is dropped from the world is gone, and nothing else is.
pub proof fn law_reaped_chunks_are_gone(w: WorldState, coords: Seq<ChunkCoord>, c: ChunkCoord)
    ensures
        ({
            let next = w.without(coords.to_set());
            &&& next.chunks.contains_key(c) <==> w.chunks.contains_key(c) && !coords.contains(c)
            &&& next.chunks.contains_key(c) ==> next.chunks[c] == w.chunks[c]
            &&& next.oscillators.contains_key(c) <==> w.oscillators.contains_key(c)
                && !coords.contains(c)
            &&& next.oscillators.contains_key(c) ==> next.oscillators[c] == w.oscillators[c]
            &&& next.tick == w.tick
            &&& next.owned == w.owned
        }),
{
    assert(coords.to_set().contains(c) == coords.contains(c));
}

/// What the detector forgets is gone from it, and nothing else is.
pub proof fn law_forgetting_is_exact(d: DetectorState, s: Set<ChunkCoord>, c: ChunkCoord)
    ensures
        d.forgetting(s).rings.contains_key(c) <==> d.rings.contains_key(c) && !s.contains(c),
        d.forgetting(s).rings.contains_key(c) ==> d.forgetting(s).rings[c] == d.rings[c],
        d.forgetting(s).pending == d.pending,
        d.forgotten(c).rings == d.rings.remove(c),
{
}

/// An event that tells of chunks tells of those of them that are there, in their order and as
/// readers see them: the bit of each cell, the mask of frozen cells, and the number of live ones. It
/// also tells how many chunks there are, awake or paused.
pub proof fn law_events_show_chunks(
    e: SimEvent,
    w: WorldState,
    coords: Seq<ChunkCoord>,
    i: int,
    x: int,
    y: int,
)
    requires
        sim::tells(e, w, coords),
        0 <= i < e.changed@.len(),
        0 <= x < 64,
        0 <= y < 64,
    ensures
        e.tick == w.tick,
        !e.initial,
        w.chunks.len() + w.oscillators.len() <= usize::MAX ==> e.live_count == w.chunks.len()
            + w.oscillators.len(),
        ({
            let there = coords.filter(
                |c: ChunkCoord| w.chunks.contains_key(c) || w.oscillators.contains_key(c),
            );
            let c = there[i];
            let ch = if w.chunks.contains_key(c) {
                w.chunks[c]
            } else {
                w.oscillators[c].chunk
            };
            let s = e.changed@[i];
            &&& e.changed@.len() == there.len()
            &&& s.coord == c
            &&& wire::bit_of_bytes(s.bits@, x, y) == cells::set_in(ch.rows[y], x)
            &&& s.frozen_mask is Some <==> ch.frozen is Some
            &&& ch.frozen is Some ==> wire::bit_of_bytes(s.frozen_mask->0@, x, y) == cells::set_in(
                ch.frozen->0.mask[y],
                x,
            )
            &&& s.live_count == cells::lit_among(ch.rows@, 4096)
        }),
{
    let f = |c: ChunkCoord| w.visible(c) is Some;
    let g = |c: ChunkCoord| w.chunks.contains_key(c) || w.oscillators.contains_key(c);
    assert forall|c: ChunkCoord| #[trigger] f(c) == g(c) by {}
    assert(f =~= g);
    let there = coords.filter(g);
    assert(sim::snap_of(there[i], w.visible(there[i])->0, e.changed@[i]));
    sort::lemma_filter_members(coords, g);
    assert(there.contains(there[i]));
    assert(g(there[i]));
    let ch = w.visible(there[i])->0;
    wire::law_packed_layout(ch.rows@, x, y);
    if ch.frozen is Some {
        wire::law_packed_layout(ch.frozen->0.mask@, x, y);
    }
    cells::law_live_cells_are_counted(ch.rows@, 64);
}

/// Judging a chunk of the queue that is not known any more, or was judged since, costs nothing and
/// changes nothing but the queue.
pub proof fn law_stale_entries_are_free(d: DetectorState, budget: nat)
    requires
        budget > 0,
        d.pending.len() > 0,
        !d.rings.contains_key(d.pending[0]) || !d.rings[d.pending[0]].in_pending,
    ensures
        d.scanned(budget) == (DetectorState {
            pending: d.pending.subrange(1, d.pending.len() as int),
            ..d
        }).scanned(budget),
{
    assert(d.pending.drop_first() =~= d.pending.subrange(1, d.pending.len() as int));
}

/// A chunk of the queue that does not repeat, or is not known well enough, is taken from the queue,
/// and kept for when it is reported again.
pub proof fn law_judged_chunks_are_kept(d: DetectorState)
    requires
        d.pending.len() > 0,
        d.rings.contains_key(d.pending[0]),
        d.rings[d.pending[0]].in_pending,
        d.rings[d.pending[0]].poisoned || d.rings[d.pending[0]].recent.len() < 15 || (forall|p: int|
            1 <= p <= 5 ==> !#[trigger] oscillator::repeats(d.rings[d.pending[0]].recent, p)),
    ensures
        ({
            let (next, found) = d.judged();
            let c = d.pending[0];
            &&& found is None
            &&& next.rings.contains_key(c)
            &&& !next.rings[c].in_pending
            &&& next.rings[c].recent == d.rings[c].recent
            &&& next.rings[c].poisoned == d.rings[c].poisoned
            &&& next.pending == d.pending.subrange(1, d.pending.len() as int)
        }),
{
    oscillator::law_period_is_least(d.rings[d.pending[0]].recent, 1);
    assert(d.pending.drop_first() =~= d.pending.subrange(1, d.pending.len() as int));
}

/// A promote request for a chunk that nobody observes is met, or is among those that could not be.
/// What could not be met was asked for.
pub proof fn law_unmet_requests_are_kept(s: SimState, reqs: Seq<PromoteRequest>, q: PromoteRequest)
    ensures
        reqs.contains(q) && !s.watched.contains(q.coord) ==> s.promoting(reqs).failed.contains(q)
            || s.promoting(reqs).world.oscillators.contains_key(q.coord),
        s.promoting(reqs).failed.contains(q) ==> reqs.contains(q) && !s.watched.contains(q.coord),
        s.promoting(reqs).failed.len() + s.promoting(reqs).count <= reqs.len(),
        s.world.chunks.dom().finite() ==> s.promoting(reqs).world.chunks.dom().finite()
            && s.promoting(reqs).count + s.promoting(reqs).world.chunks.len()
            == s.world.chunks.len(),
    decreases reqs.len(),
{
    if reqs.len() > 0 {
        let init = reqs.drop_last();
        let last = reqs.last();
        let a = s.promoting(init);
        law_unmet_requests_are_kept(s, init, q);
        assert(reqs =~= init.push(last));
        sort::lemma_push_contains(init, last);
        sort::lemma_push_contains(a.failed, last);
        if !s.watched.contains(last.coord) && a.world.pausable(last.coord, last.period) {
            let next = a.world.pausing(last.coord, last.period);
            assert(next.chunks.dom() =~= a.world.chunks.dom().remove(last.coord));
        }
    }
}

/// Around every request that could not be met, the group is found if there is one, with the period
/// that was asked for.
pub proof fn law_groups_are_found(
    w: WorldState,
    watched: Set<ChunkCoord>,
    max: nat,
    failed: Seq<PromoteRequest>,
    found: Seq<(Vec<ChunkCoord>, u8)>,
    q: PromoteRequest,
    g: Seq<ChunkCoord>,
    k: int,
)
    requires
        sim::grouped(w, watched, max, failed, found),
    ensures
        failed.contains(q) && w.groups(watched, q.coord, max, g) ==> exists|k: int|
            0 <= k < found.len() && (#[trigger] found[k]).1 == q.period && w.groups(
                watched,
                q.coord,
                max,
                found[k].0@,
            ),
        0 <= k < found.len() ==> exists|r: PromoteRequest| #[trigger]
            failed.contains(r) && r.period == found[k].1 && w.groups(
                watched,
                r.coord,
                max,
                found[k].0@,
            ),
{
    let f = |q: PromoteRequest| w.has_group(watched, q.coord, max);
    let with = failed.filter(f);
    sort::lemma_filter_members(failed, f);
    if failed.contains(q) && w.groups(watched, q.coord, max, g) {
        assert(f(q));
        assert(with.contains(q));
        let k = choose|k: int| 0 <= k < with.len() && with[k] == q;
        assert(found[k].1 == with[k].period);
    }
    if 0 <= k < found.len() {
        let r = with[k];
        assert(with.contains(r));
        assert(failed.contains(r));
        assert(found[k].1 == with[k].period);
    }
}

/// A tick has the detector forget the chunks that it dropped, and then learn of all that it
/// reported, in order; what it dropped is told, and how many chunks it woke.
pub proof fn law_ticks_teach_the_detector(
    s: SimState,
    next: SimState,
    out: TickOutcome,
    r: Ticked,
    before: DetectorState,
    after: DetectorState,
)
    requires
        s.ticked(next, out, r, before, after),
    ensures
        r.event.removed@ == out.removed@,
        r.event.tick == next.world.tick,
        r.wakes == out.perturbation_wakes,
        after == (DetectorState {
            rings: before.rings.remove_keys(out.removed@.to_set()),
            pending: before.pending,
        }).observing(out.hash_reports@),
        exists|order: Seq<ChunkCoord>| s.world.reports(order, out),
        sim::tells(r.event, next.world, out.changed@),
{
}

/// Reports are taken in one after the other.
pub proof fn law_reports_are_taken_in_order(
    d: DetectorState,
    reports: Seq<HashReport>,
    r: HashReport,
)
    ensures
        d.observing(Seq::empty()) == d,
        d.observing(reports.push(r)) == d.observing(reports).observed(r),
{
    lemma_observing_push(d, reports, r);
}

} // verus!
