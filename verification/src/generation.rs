//! One generation of the world, cell by cell.

use crate::bits;
use crate::cells;
use crate::chunk;
use crate::chunk::Chunk;
use crate::coord::ChunkCoord;
use crate::life;
use crate::oscillator::{Ensemble, Paused};
use crate::resting;
use crate::sort;
use crate::world;
use crate::world::{TickOutcome, WorldState};
use vstd::prelude::*;

verus! {

impl WorldState {
    /// What cell `(u, v)` adds to the neighbors that cell `(x, y)` counts: one if it is alive,
    /// unless the chunk of `(x, y)` is owned and that of `(u, v)` is not.
    pub open spec fn adds(self, x: int, y: int, u: int, v: int) -> int {
        if self.alive(u, v) && (self.owned.contains(((x / 64) as i32, (y / 64) as i32))
            ==> self.owned.contains(((u / 64) as i32, (v / 64) as i32))) {
            1
        } else {
            0
        }
    }

    /// One if cell `(u, v)` is alive.
    pub open spec fn lit(self, u: int, v: int) -> int {
        if self.alive(u, v) {
            1
        } else {
            0
        }
    }
}

/// In a tick every cell that is not frozen counts its eight neighbors, whichever chunks they lie
/// in; a cell of an owned chunk counts only those in owned chunks. It is alive afterwards exactly
/// if it counted three, or two and was alive. A frozen cell stays as it is.
pub proof fn law_cells_count_neighbors(w: WorldState, next: WorldState, x: int, y: int)
    requires
        w.sound(),
        w.can_tick(),
        w.ticks_to(next),
        -0x8000_0000 <= x / 64 <= 0x7fff_ffff,
        -0x8000_0000 <= y / 64 <= 0x7fff_ffff,
    ensures
        w.frozen(x, y) ==> next.alive(x, y) == w.alive(x, y),
        !w.frozen(x, y) ==> ({
            let n = w.adds(x, y, x - 1, y - 1) + w.adds(x, y, x, y - 1) + w.adds(x, y, x + 1, y - 1)
                + w.adds(x, y, x - 1, y) + w.adds(x, y, x + 1, y) + w.adds(x, y, x - 1, y + 1)
                + w.adds(x, y, x, y + 1) + w.adds(x, y, x + 1, y + 1);
            next.alive(x, y) == (n == 3 || (n == 2 && w.alive(x, y)))
        }),
        next.frozen(x, y) == w.frozen(x, y),
        next.tick == w.tick + 1,
        next.owned == w.owned,
{
    life::law_tick_is_life(w, next);
    assert(world::addressable(x, y));
    let c = world::home_coord(x, y);
    let f = w.field(c);
    assert forall|u: int, v: int| #[trigger] w.adds(x, y, u, v) == chunk::count(f(u, v)) by {
        assert(f(u, v) == (w.alive(u, v) && w.noticed(c, u, v)));
    }
    assert(next.alive(x, y) == (if w.frozen(x, y) {
        w.alive(x, y)
    } else {
        chunk::life(w.alive(x, y), chunk::neighbors(f, x, y))
    }));
    assert(next.frozen(x, y) == w.frozen(x, y));
}

/// Claimed chunks live as one: where all live cells lie in owned chunks, the cells of owned chunks
/// follow Conway's rule on the whole plane of live cells, across all borders between them. So do
/// the cells of chunks that are not owned, wherever the live cells lie.
pub proof fn law_owned_chunks_live_as_one(w: WorldState, next: WorldState, x: int, y: int)
    requires
        w.sound(),
        w.can_tick(),
        w.ticks_to(next),
        -0x8000_0000 <= x / 64 <= 0x7fff_ffff,
        -0x8000_0000 <= y / 64 <= 0x7fff_ffff,
        !w.frozen(x, y),
        !w.owned.contains(((x / 64) as i32, (y / 64) as i32)) || forall|u: int, v: int| #[trigger]
            w.alive(u, v) ==> w.owned.contains(((u / 64) as i32, (v / 64) as i32)),
    ensures
        ({
            let n = w.lit(x - 1, y - 1) + w.lit(x, y - 1) + w.lit(x + 1, y - 1) + w.lit(x - 1, y)
                + w.lit(x + 1, y) + w.lit(x - 1, y + 1) + w.lit(x, y + 1) + w.lit(x + 1, y + 1);
            next.alive(x, y) == (n == 3 || (n == 2 && w.alive(x, y)))
        }),
{
    law_cells_count_neighbors(w, next, x, y);
    assert forall|u: int, v: int| #[trigger] w.adds(x, y, u, v) == w.lit(u, v) by {}
}

/// What is alive and frozen in the plane is what the rows of the chunks hold: the cell `i` cells
/// right and `j` cells below the first cell of an awake chunk is bit `i` of row `j`. Where there
/// is no chunk, nothing is alive or frozen.
pub proof fn law_cells_are_bits(w: WorldState, c: ChunkCoord, i: int, j: int)
    requires
        0 <= i < 64,
        0 <= j < 64,
    ensures
        w.chunks.contains_key(c) ==> w.alive(64 * c.0 + i, 64 * c.1 + j) == ((w.chunks[c].rows[j]
            >> (i as u64)) & 1 == 1),
        w.chunks.contains_key(c) ==> w.frozen(64 * c.0 + i, 64 * c.1 + j) == (
        w.chunks[c].frozen is Some && (w.chunks[c].frozen->0.mask[j] >> (i as u64)) & 1 == 1),
        !w.chunks.contains_key(c) && !w.oscillators.contains_key(c) ==> !w.alive(
            64 * c.0 + i,
            64 * c.1 + j,
        ) && !w.frozen(64 * c.0 + i, 64 * c.1 + j),
{
    let x = 64 * c.0 + i;
    let y = 64 * c.1 + j;
    assert(x / 64 == c.0 && x % 64 == i);
    assert(y / 64 == c.1 && y % 64 == j);
    assert(world::home_coord(x, y) == c);
    assert(world::addressable(x, y));
    if !w.chunks.contains_key(c) && !w.oscillators.contains_key(c) {
        let ch = world::lookup(w.chunks, c);
        assert(ch.rows@[j] == 0);
        bits::lemma_bit_zero(i);
    }
}

/// Where nothing is paused, all chunks are awake and none is woken.
proof fn lemma_all_awake(w: WorldState)
    requires
        w.oscillators == Map::<ChunkCoord, Paused>::empty(),
    ensures
        w.awake() == w.chunks,
        forall|c: ChunkCoord| !#[trigger] w.perturbed(c),
{
    assert(w.awake() =~= w.chunks);
}

/// Where nothing is paused, a tick tells of exactly the chunks that it made or whose cells it
/// changed, and of exactly the chunks that it dropped, each once.
pub proof fn law_ticks_tell_of_changes(
    w: WorldState,
    next: WorldState,
    order: Seq<ChunkCoord>,
    out: TickOutcome,
    c: ChunkCoord,
)
    requires
        w.oscillators == Map::<ChunkCoord, Paused>::empty(),
        w.ticks_to(next),
        w.reports(order, out),
    ensures
        out.changed@.contains(c) <==> next.chunks.contains_key(c) && (!w.chunks.contains_key(c)
            || w.chunks[c].rows != next.chunks[c].rows),
        out.removed@.contains(c) <==> w.chunks.contains_key(c) && !next.chunks.contains_key(c),
        out.changed@.no_duplicates(),
        out.removed@.no_duplicates(),
        out.perturbation_wakes == 0,
        next.oscillators == w.oscillators,
{
    lemma_all_awake(w);
    let woken = choose|woken: Seq<ChunkCoord>| #[trigger]
        sort::ascending(woken) && woken.no_duplicates() && (forall|c: ChunkCoord| #[trigger]
            woken.contains(c) <==> w.perturbed(c)) && out.changed@ == woken + order.filter(
            |c: ChunkCoord| w.changes(c),
        ) && out.perturbation_wakes == woken.len();
    assert(woken.len() == 0) by {
        if woken.len() > 0 {
            assert(woken.contains(woken[0]));
        }
    }
    let f = |c: ChunkCoord| w.changes(c);
    let g = |c: ChunkCoord| w.drops(c);
    assert(out.changed@ =~= order.filter(f));
    sort::lemma_filter_members(order, f);
    sort::lemma_filter_members(order, g);
    sort::lemma_filter_distinct(order, f);
    sort::lemma_filter_distinct(order, g);
    assert(out.changed@.contains(c) <==> w.active(c) && w.changes(c)) by {
        assert(order.filter(f).contains(c) <==> order.contains(c) && f(c));
    }
    assert(out.removed@.contains(c) <==> w.active(c) && w.drops(c)) by {
        assert(order.filter(g).contains(c) <==> order.contains(c) && g(c));
    }
    assert(world::entry(next.chunks, c) == w.outcome_at(c));
    assert(next.oscillators =~= w.oscillators);
}

/// Where nothing is paused, what a tick reports of a chunk is the hash of what it made of it, and
/// whether nothing was alive just outside that the chunk takes notice of. Every chunk that is left
/// of one with live cells is reported.
pub proof fn law_ticks_report_hashes(
    w: WorldState,
    next: WorldState,
    order: Seq<ChunkCoord>,
    out: TickOutcome,
    i: int,
    c: ChunkCoord,
)
    requires
        w.oscillators == Map::<ChunkCoord, Paused>::empty(),
        w.can_tick(),
        w.ticks_to(next),
        w.reports(order, out),
    ensures
        0 <= i < out.hash_reports@.len() ==> ({
            let h = out.hash_reports@[i];
            &&& h.tick == w.tick
            &&& next.chunks.contains_key(h.coord) ==> h.hash == chunk::hash_rows(
                next.chunks[h.coord].rows@,
                64,
            )
            &&& h.halo_was_zero <==> forall|x: int, y: int|
                resting::outside(h.coord, x, y) ==> !#[trigger] resting::stirs(w, h.coord, x, y)
        }),
        next.chunks.contains_key(c) && w.chunks.contains_key(c) && (exists|x: int, y: int|
            0 <= x < 64 && 0 <= y < 64 && #[trigger] cells::set_in(w.chunks[c].rows[y], x))
            ==> exists|k: int|
            0 <= k < out.hash_reports@.len() && (#[trigger] out.hash_reports@[k]).coord == c,
{
    lemma_all_awake(w);
    let f = |c: ChunkCoord| !w.vanishes(c);
    let kept = order.filter(f);
    sort::lemma_filter_members(order, f);
    assert(out.hash_reports@.len() == kept.len());
    if 0 <= i < out.hash_reports@.len() {
        let d = kept[i];
        assert(out.hash_reports@[i] == w.report(d));
        assert(kept.contains(d));
        assert(order.contains(d) && f(d));
        assert(w.active(d));
        assert(world::interior(d));
        assert(world::entry(next.chunks, d) == w.outcome_at(d));
        resting::lemma_quiet(w, d);
    }
    if next.chunks.contains_key(c) && w.chunks.contains_key(c) && (exists|x: int, y: int|
        0 <= x < 64 && 0 <= y < 64 && #[trigger] cells::set_in(w.chunks[c].rows[y], x)) {
        cells::law_empty_has_no_bit(w.chunks[c]);
        let (x, y) = choose|x: int, y: int|
            0 <= x < 64 && 0 <= y < 64 && #[trigger] cells::set_in(w.chunks[c].rows[y], x);
        assert(w.chunks[c].cell(x, y));
        assert(!w.chunks[c].blank());
        assert(w.active(c));
        assert(world::entry(next.chunks, c) == w.outcome_at(c));
        assert(!w.vanishes(c));
        assert(order.contains(c) && f(c));
        assert(kept.contains(c));
        let k = choose|k: int| 0 <= k < kept.len() && kept[k] == c;
        assert(out.hash_reports@[k] == w.report(kept[k]));
    }
}

/// A tick can be made wherever all chunks lie two chunks or more off the end of the coordinate
/// range, the tick can be counted, and so can the paused chunks.
pub proof fn law_ticks_can_be_made(w: WorldState)
    requires
        w.tick < 0xffff_ffff_ffff_ffff,
        w.oscillators.len() <= 0xffff_ffff,
        forall|c: ChunkCoord| #[trigger]
            w.chunks.contains_key(c) ==> -0x8000_0000 + 1 < c.0 < 0x7fff_ffff - 1 && -0x8000_0000
                + 1 < c.1 < 0x7fff_ffff - 1,
        forall|c: ChunkCoord| #[trigger]
            w.oscillators.contains_key(c) ==> -0x8000_0000 + 1 < c.0 < 0x7fff_ffff - 1
                && -0x8000_0000 + 1 < c.1 < 0x7fff_ffff - 1,
    ensures
        w.can_tick(),
        w.ready(),
{
    assert forall|c: ChunkCoord| #[trigger] w.active(c) implies world::interior(c) by {
        if w.perturbed(c) {
            assert(w.oscillators.contains_key(c));
        } else if !world::lookup(w.awake(), c).blank() {
            if !w.awake().contains_key(c) {
                let z = world::lookup(w.awake(), c);
                assert forall|x: int, y: int| 0 <= x < 64 && 0 <= y < 64 implies !#[trigger] z.cell(
                    x,
                    y,
                ) by {
                    assert(z.rows@[y] == 0);
                    bits::lemma_bit_zero(x);
                }
            }
            assert(w.awake().contains_key(c));
        } else {
            let d = choose|d: ChunkCoord| world::reaches(w.awake(), w.owned, d, c);
            assert(w.awake().contains_key(d));
            if w.perturbed(d) {
                assert(w.oscillators.contains_key(d));
            } else {
                assert(w.chunks.contains_key(d));
            }
        }
    }
}

/// Running is ticking, as many times as asked for, or as many as can be done.
pub proof fn law_running_is_ticking(w: WorldState, next: WorldState, n: nat)
    requires
        w.ticks_to(next),
    ensures
        w.run(0) == (w, true),
        w.ready() ==> w.run(n + 1) == next.run(n),
        !w.ready() ==> w.run(n + 1) == (w, false),
{
    w.lemma_after_tick(next);
}

/// Readers see a chunk that is awake as it is, and else one that is paused as it was then.
pub proof fn law_readers_see_awake_first(w: WorldState, c: ChunkCoord)
    ensures
        w.chunks.contains_key(c) ==> w.visible(c) == Some(w.chunks[c]),
        !w.chunks.contains_key(c) && w.oscillators.contains_key(c) ==> w.visible(c) == Some(
            w.oscillators[c].chunk,
        ),
        !w.chunks.contains_key(c) && !w.oscillators.contains_key(c) ==> w.visible(c) is None,
        w.chunks.len() + w.oscillators.len() <= usize::MAX ==> w.counted() == w.chunks.len()
            + w.oscillators.len(),
{
}

/// A new world holds nothing, owns nothing, and is at tick zero.
pub proof fn law_new_worlds_are_empty(c: ChunkCoord)
    ensures
        !WorldState::void().chunks.contains_key(c),
        !WorldState::void().oscillators.contains_key(c),
        !WorldState::void().owned.contains(c),
        WorldState::void().tick == 0,
{
}

/// A list of all chunks has each chunk that is awake once, as it is, and each that is paused once,
/// as it was then, and no other.
pub proof fn law_lists_are_complete(
    w: WorldState,
    s: Seq<(ChunkCoord, Chunk)>,
    c: ChunkCoord,
    i: int,
    j: int,
)
    requires
        w.lists(s),
        forall|d: ChunkCoord| #[trigger] w.chunks.contains_key(d) ==> !w.oscillators.contains_key(d),
    ensures
        w.chunks.contains_key(c) ==> s.contains((c, w.chunks[c])),
        w.oscillators.contains_key(c) ==> s.contains((c, w.oscillators[c].chunk)),
        0 <= i < s.len() ==> (w.chunks.contains_key(s[i].0) && s[i].1 == w.chunks[s[i].0]) || (
        w.oscillators.contains_key(s[i].0) && s[i].1 == w.oscillators[s[i].0].chunk),
        0 <= i < j < s.len() ==> s[i].0 != s[j].0,
{
    let (a, b) = choose|a: Seq<ChunkCoord>, b: Seq<ChunkCoord>| #[trigger] w.lists_as(a, b, s);
    assert forall|k: int| 0 <= k < a.len() implies w.chunks.contains_key(#[trigger] a[k]) by {
        assert(a.to_set().contains(a[k]));
    }
    assert forall|k: int| 0 <= k < b.len() implies w.oscillators.contains_key(#[trigger] b[k]) by {
        assert(b.to_set().contains(b[k]));
    }
    if w.chunks.contains_key(c) {
        assert(a.to_set().contains(c));
        let k = choose|k: int| 0 <= k < a.len() && a[k] == c;
        assert(s[k] == (c, w.chunks[c]));
    }
    if w.oscillators.contains_key(c) {
        assert(b.to_set().contains(c));
        let k = choose|k: int| 0 <= k < b.len() && b[k] == c;
        assert(s[a.len() + k] == (c, w.oscillators[c].chunk));
    }
    let n = a.len() as int;
    if 0 <= i < s.len() {
        if i < n {
            assert(s[i] == (a[i], w.chunks[a[i]]));
        } else {
            assert(s[i] == (b[i - n], w.oscillators[b[i - n]].chunk));
        }
    }
    if 0 <= i < j < s.len() {
        if j < n {
            assert(s[j] == (a[j], w.chunks[a[j]]));
        } else {
            assert(s[j] == (b[j - n], w.oscillators[b[j - n]].chunk));
        }
    }
}

/// A chunk with live cells is left by a tick only if it has live cells afterwards, or frozen ones;
/// a chunk is made only where cells are born.
pub proof fn law_emptied_chunks_are_dropped(w: WorldState, next: WorldState, c: ChunkCoord)
    requires
        w.oscillators == Map::<ChunkCoord, Paused>::empty(),
        w.ticks_to(next),
        next.chunks.contains_key(c),
        !w.chunks.contains_key(c) || (exists|x: int, y: int|
            0 <= x < 64 && 0 <= y < 64 && #[trigger] cells::set_in(w.chunks[c].rows[y], x)),
    ensures
        (w.chunks.contains_key(c) && w.chunks[c].frozen is Some) || exists|x: int, y: int|
            0 <= x < 64 && 0 <= y < 64 && #[trigger] cells::set_in(next.chunks[c].rows[y], x),
{
    lemma_all_awake(w);
    assert(world::entry(next.chunks, c) == w.outcome_at(c));
    if w.chunks.contains_key(c) {
        cells::law_empty_has_no_bit(w.chunks[c]);
        let (x, y) = choose|x: int, y: int|
            0 <= x < 64 && 0 <= y < 64 && #[trigger] cells::set_in(w.chunks[c].rows[y], x);
        assert(w.chunks[c].cell(x, y));
        assert(!w.chunks[c].blank());
    }
    assert(!w.vanishes(c));
    assert(next.chunks[c] == w.successor(c));
    cells::law_empty_has_no_bit(next.chunks[c]);
}

/// Whether an awake neighbor has a live cell just outside chunk `c` that `c` takes notice of.
pub open spec fn disturbed(w: WorldState, c: ChunkCoord) -> bool {
    exists|x: int, y: int| resting::outside(c, x, y) && #[trigger] resting::stirs(w, c, x, y)
}

proof fn lemma_disturbed(w: WorldState, c: ChunkCoord)
    requires
        -0x8000_0000 < c.0 < 0x7fff_ffff,
        -0x8000_0000 < c.1 < 0x7fff_ffff,
    ensures
        disturbed(w, c) == world::reached(w.chunks, w.owned, c),
{
    if disturbed(w, c) {
        let (x, y) = choose|x: int, y: int|
            resting::outside(c, x, y) && #[trigger] resting::stirs(w, c, x, y);
        let d = ((x / 64) as i32, (y / 64) as i32);
        assert(world::adjacent(c, d));
        assert(w.chunks[d].cell(x % 64, y % 64));
        assert(chunk::facing(x % 64, c.0 - d.0) && chunk::facing(y % 64, c.1 - d.1));
        assert(world::reaches(w.chunks, w.owned, d, c));
    }
    if world::reached(w.chunks, w.owned, c) {
        let d = choose|d: ChunkCoord| world::reaches(w.chunks, w.owned, d, c);
        let (i, j) = choose|i: int, j: int|
            chunk::facing(i, c.0 - d.0) && chunk::facing(j, c.1 - d.1)
                && #[trigger] w.chunks[d].cell(i, j);
        lemma_facing_cell(w, c, d, i, j);
    }
}

proof fn lemma_facing_cell(w: WorldState, c: ChunkCoord, d: ChunkCoord, i: int, j: int)
    requires
        world::reaches(w.chunks, w.owned, d, c),
        chunk::facing(i, c.0 - d.0),
        chunk::facing(j, c.1 - d.1),
        w.chunks[d].cell(i, j),
    ensures
        disturbed(w, c),
{
    let x = 64 * d.0 + i;
    let y = 64 * d.1 + j;
    assert(x / 64 == d.0 && x % 64 == i);
    assert(y / 64 == d.1 && y % 64 == j);
    assert(resting::outside(c, x, y));
    assert(resting::stirs(w, c, x, y));
}

/// A chunk that was paused by itself stays paused through a tick exactly if no awake neighbor has a
/// live cell just outside of it that it takes notice of.
pub proof fn law_undisturbed_chunks_stay_paused(w: WorldState, next: WorldState, c: ChunkCoord)
    requires
        w.ticks_to(next),
        w.oscillators.contains_key(c),
        w.oscillators[c].group is None,
        -0x8000_0000 < c.0 < 0x7fff_ffff,
        -0x8000_0000 < c.1 < 0x7fff_ffff,
    ensures
        next.oscillators.contains_key(c) <==> !disturbed(w, c),
        next.oscillators.contains_key(c) ==> next.oscillators[c] == w.oscillators[c],
{
    lemma_disturbed(w, c);
    assert(!w.stirred(c)) by {
        assert forall|d: ChunkCoord| !(#[trigger] w.oscillators[c].members().contains(d)) by {}
    }
}

/// A group that was paused together stays paused through a tick exactly if all of it is still
/// paused together, each chunk is owned or not as it was, and no awake neighbor has a live cell
/// just outside of one that it takes notice of.
pub proof fn law_undisturbed_groups_stay_paused(
    w: WorldState,
    next: WorldState,
    c: ChunkCoord,
    g: Ensemble,
)
    requires
        w.ticks_to(next),
        w.oscillators.contains_key(c),
        w.oscillators[c].group == Some(g),
        g.phases[0].contains_key(c),
        forall|d: ChunkCoord| #[trigger]
            g.phases[0].contains_key(d) ==> -0x8000_0000 < d.0 < 0x7fff_ffff && -0x8000_0000 < d.1
                < 0x7fff_ffff,
    ensures
        next.oscillators.contains_key(c) <==> forall|d: ChunkCoord| #[trigger]
            g.phases[0].contains_key(d) ==> w.oscillators.contains_key(d) && (
            w.oscillators[d].group matches Some(h) && h.phases[0].contains_key(c))
                && w.owned.contains(d) == g.owned.contains(d) && !disturbed(w, d),
        next.oscillators.contains_key(c) ==> next.oscillators[c] == w.oscillators[c],
{
    assert forall|d: ChunkCoord| #[trigger] g.phases[0].contains_key(d) implies disturbed(w, d)
        == world::reached(w.chunks, w.owned, d) by {
        lemma_disturbed(w, d);
    }
    assert forall|d: ChunkCoord| #[trigger] w.oscillators[c].members().contains(d)
        == g.phases[0].contains_key(d) by {}
    if w.stirred(c) {
        let d = choose|d: ChunkCoord| #[trigger]
            w.oscillators[c].members().contains(d) && (!w.holds(c, d) || world::reached(
                w.chunks,
                w.owned,
                d,
            ));
        assert(g.phases[0].contains_key(d));
    } else {
        assert forall|d: ChunkCoord| #[trigger] g.phases[0].contains_key(d) implies
            w.oscillators.contains_key(d) && (w.oscillators[d].group matches Some(h)
            && h.phases[0].contains_key(c)) && w.owned.contains(d) == g.owned.contains(d) by {
            assert(w.oscillators[c].members().contains(d));
            assert(w.holds(c, d));
        }
    }
}

} // verus!
