//! What commands and runs of ticks do to the plane of cells.

use crate::bits;
use crate::chunk;
use crate::chunk::Chunk;
use crate::coord::ChunkCoord;
use crate::life;
use crate::oscillator::DetectorState;
use crate::protocol;
use crate::protocol::EditCell;
use crate::region;
use crate::region::EntryModel;
use crate::sim;
use crate::sim::SimState;
use crate::wal;
use crate::world;
use crate::world::WorldState;
use crate::CHUNK_SIZE;
use vstd::prelude::*;

verus! {

/// Waking any paused chunks changes no cell.
pub proof fn law_rousing_keeps_cells(w: WorldState, s: Set<ChunkCoord>)
    requires
        w.coherent(),
    ensures
        w.woken(s).coherent(),
        w.sound() ==> w.woken(s).sound(),
        w.woken(s).looks_like(w),
{
    let next = w.woken(s);
    assert forall|c: ChunkCoord| #[trigger] w.oscillators.contains_key(c) implies
        w.oscillators[c].resumed(c, w.tick).frozen is None && w.oscillators[c].resumed(c, w.tick,
    ).pins_hold() by {
        life::lemma_resumed(c, w.oscillators[c], w.tick);
    }
    assert forall|c: ChunkCoord| #[trigger] next.current(c) == w.current(c) by {
        if w.chunks.contains_key(c) {
            assert(!w.oscillators.contains_key(c));
        }
    }
    life::lemma_same_current(next, w);
    assert forall|c: ChunkCoord| #[trigger] next.chunks.contains_key(c) implies
        !next.oscillators.contains_key(c) && (w.sound() ==> next.chunks[c].pins_hold()) by {
        if w.chunks.contains_key(c) {
            assert(!w.oscillators.contains_key(c));
        } else {
            assert(w.oscillators.contains_key(c));
        }
    }
    life::lemma_fewer_paused(w, next);
}

/// Whether a cell that was `was` is alive after edits.
pub open spec fn edited_cell(cells: Seq<EditCell>, x: int, y: int, was: bool) -> bool
    decreases cells.len(),
{
    if cells.len() == 0 {
        was
    } else {
        let c = cells[0];
        edited_cell(
            cells.drop_first(),
            x,
            y,
            if wal::cell_x(c) == x && wal::cell_y(c) == y {
                c.alive
            } else {
                was
            },
        )
    }
}

/// There is a chunk with a cell set.
proof fn lemma_setting_exists(c: Chunk, x: int, y: int, alive: bool)
    ensures
        c.sets(x, y, alive, c.setting(x, y, alive)),
{
    let want = |i: int, j: int|
        if i == x && j == y && !c.frozen_at(i, j) {
            alive
        } else {
            c.cell(i, j)
        };
    let f = |j: int| bits::word_of(|i: int| want(i, j), CHUNK_SIZE as nat);
    let next = Chunk { rows: chunk::rows_of(f, CHUNK_SIZE as nat), frozen: c.frozen };
    assert forall|i: int, j: int|
        0 <= i < CHUNK_SIZE && 0 <= j < CHUNK_SIZE implies #[trigger] next.cell(i, j) == want(
        i,
        j,
    ) by {
        chunk::lemma_rows_of(f, CHUNK_SIZE as nat, j);
        bits::lemma_word_of(|i: int| want(i, j), CHUNK_SIZE as nat, i);
    }
    assert(c.sets(x, y, alive, next));
}

/// Edits of chunks that are not paused set the cells that they name, the last edit of each, unless
/// they are frozen, and no others.
proof fn lemma_edits_set_cells(w: WorldState, cells: Seq<EditCell>)
    requires
        w.sound(),
        forall|i: int|
            0 <= i < cells.len() ==> protocol::in_chunk(#[trigger] cells[i])
                && !w.oscillators.contains_key((cells[i].cx, cells[i].cy)),
    ensures
        wal::edited_all(w, cells).sound(),
        forall|x: int, y: int| #[trigger]
            wal::edited_all(w, cells).alive(x, y) == (if w.frozen(x, y) {
                w.alive(x, y)
            } else {
                edited_cell(cells, x, y, w.alive(x, y))
            }),
        forall|x: int, y: int| #[trigger]
            wal::edited_all(w, cells).frozen(x, y) == w.frozen(x, y),
    decreases cells.len(),
{
    if cells.len() > 0 {
        let e = cells[0];
        let c = (e.cx, e.cy);
        let x = wal::cell_x(e);
        let y = wal::cell_y(e);
        let rest = cells.drop_first();
        let mid = w.edited(x, y, e.alive);
        let next = wal::edited_all(w, cells);
        assert(protocol::in_chunk(cells[0]));
        assert(world::home(x, y) == (e.cx as int, e.cy as int));
        assert(world::home_coord(x, y) == c);
        lemma_setting_exists(
            world::lookup(w.chunks, c),
            x % CHUNK_SIZE as int,
            y % CHUNK_SIZE as int,
            e.alive,
        );
        assert(mid.chunks =~= w.chunks.insert(c, mid.chunks[c]));
        life::law_edit_sets_one_cell(w, mid, x, y, e.alive);
        assert forall|i: int| 0 <= i < rest.len() implies protocol::in_chunk(#[trigger] rest[i])
            && !mid.oscillators.contains_key((rest[i].cx, rest[i].cy)) by {
            assert(rest[i] == cells[i + 1]);
        }
        lemma_edits_set_cells(mid, rest);
        assert(next == wal::edited_all(mid, rest));
        assert forall|u: int, v: int| #[trigger] next.alive(u, v) == (if w.frozen(u, v) {
            w.alive(u, v)
        } else {
            edited_cell(cells, u, v, w.alive(u, v))
        }) by {
            assert(mid.frozen(u, v) == w.frozen(u, v));
            assert(mid.alive(u, v) == (if u == x && v == y && !w.frozen(x, y) {
                e.alive
            } else {
                w.alive(u, v)
            }));
        }
        assert forall|u: int, v: int| #[trigger] next.frozen(u, v) == w.frozen(u, v) by {
            assert(mid.frozen(u, v) == w.frozen(u, v));
        }
    }
}

/// Edits set the cells that they name, the last edit of each, unless they are frozen, and no
/// others, whatever is paused.
pub proof fn law_edits_set_cells(w: WorldState, cells: Seq<EditCell>)
    requires
        w.sound(),
        forall|i: int| 0 <= i < cells.len() ==> protocol::in_chunk(#[trigger] cells[i]),
    ensures
        ({
            let next = wal::edited_all(w.woken(sim::homes(cells).to_set()), cells);
            &&& next.sound()
            &&& forall|x: int, y: int| #[trigger]
                next.alive(x, y) == (if w.frozen(x, y) {
                    w.alive(x, y)
                } else {
                    edited_cell(cells, x, y, w.alive(x, y))
                })
            &&& forall|x: int, y: int| #[trigger] next.frozen(x, y) == w.frozen(x, y)
        }),
{
    let homes = sim::homes(cells);
    let up = w.woken(homes.to_set());
    let next = wal::edited_all(up, cells);
    law_rousing_keeps_cells(w, homes.to_set());
    assert forall|i: int| 0 <= i < cells.len() implies protocol::in_chunk(#[trigger] cells[i])
        && !up.oscillators.contains_key((cells[i].cx, cells[i].cy)) by {
        assert(homes[i] == (cells[i].cx, cells[i].cy));
        assert(homes.to_set().contains(homes[i]));
    }
    lemma_edits_set_cells(up, cells);
    assert forall|x: int, y: int| #[trigger] next.alive(x, y) == (if w.frozen(x, y) {
        w.alive(x, y)
    } else {
        edited_cell(cells, x, y, w.alive(x, y))
    }) by {
        assert(up.alive(x, y) == w.alive(x, y));
        assert(up.frozen(x, y) == w.frozen(x, y));
    }
    assert forall|x: int, y: int| #[trigger] next.frozen(x, y) == w.frozen(x, y) by {
        assert(up.frozen(x, y) == w.frozen(x, y));
    }
}

/// Seeding a region sets the cells that its pattern names, `#` to alive and `.` and what lies
/// beyond the end of a line to dead, unless they are frozen, and no others; cells under a space
/// stay as they are. If the region is a frozen one, its cells are frozen after it.
pub proof fn law_regions_set_cells(w: WorldState, e: EntryModel, x: int, y: int)
    requires
        world::addressable(x, y),
        !w.oscillators.contains_key(world::home_coord(x, y)),
    ensures
        w.seeded(e).alive(x, y) == (if e.pattern is Some && e.painted()(x, y) && !w.frozen(x, y) {
            e.lit()(x, y)
        } else {
            w.alive(x, y)
        }),
        w.seeded(e).frozen(x, y) == (w.frozen(x, y) || (region::flags_named(e.flags)
            & protocol::FLAG_FROZEN != 0 && e.cells()(x, y))),
{
    let c = world::home_coord(x, y);
    let i = x % CHUNK_SIZE as int;
    let j = y % CHUNK_SIZE as int;
    let mid = if e.pattern is Some {
        w.stamped(e.painted(), e.lit())
    } else {
        w
    };
    assert(CHUNK_SIZE * c.0 + i == x && CHUNK_SIZE * c.1 + j == y);
    let o = world::lookup(w.chunks, c);
    let m = world::lookup(mid.chunks, c);
    if e.pattern is Some {
        w.lemma_stamped_cells(e.painted(), e.lit());
        assert(world::in_mask(e.painted(), c, i, j) == e.painted()(x, y));
        assert(world::in_mask(e.lit(), c, i, j) == e.lit()(x, y));
        if mid.chunks.contains_key(c) {
            assert(world::stamps(o, c, e.painted(), e.lit(), mid.chunks[c]));
        } else {
            assert(!world::in_mask(e.painted(), c, i, j));
        }
    }
    assert(m.frozen == o.frozen);
    assert(m.cell(i, j) == mid.alive(x, y));
    let next = w.seeded(e);
    if region::flags_named(e.flags) & protocol::FLAG_FROZEN != 0 {
        mid.lemma_pinned_cells(e.cells());
        assert(world::in_mask(e.cells(), c, i, j) == e.cells()(x, y));
        if next.chunks.contains_key(c) {
            assert(world::pins(m, c, e.cells(), next.chunks[c]));
            assert(next.chunks[c].frozen_at(i, j) == (m.frozen_at(i, j) || e.cells()(x, y)));
            assert(next.chunks[c].cell(i, j) == m.cell(i, j));
        } else {
            assert(!world::in_mask(e.cells(), c, i, j));
        }
    }
}

/// A world that can take a tick takes one.
proof fn lemma_tick_exists(w: WorldState)
    requires
        w.can_tick(),
    ensures
        w.ticks_to(w.after_tick()),
{
    let next = WorldState {
        chunks: Map::new(
            |c: ChunkCoord| w.outcome_at(c) is Some,
            |c: ChunkCoord| w.outcome_at(c)->0,
        ),
        oscillators: w.oscillators.remove_keys(Set::new(|c: ChunkCoord| w.perturbed(c))),
        tick: (w.tick + 1) as u64,
        ..w
    };
    assert forall|c: ChunkCoord| #[trigger] world::entry(next.chunks, c) == w.outcome_at(c) by {}
    assert(w.ticks_to(next));
}

/// A coherent world stays coherent however long it runs, and a sound one sound.
pub proof fn law_running_stays_sound(w: WorldState, n: nat)
    requires
        w.coherent(),
    ensures
        w.run(n).0.coherent(),
        w.sound() ==> w.run(n).0.sound(),
    decreases n,
{
    if n > 0 && w.ready() {
        lemma_tick_exists(w);
        life::lemma_tick_keeps(w, w.after_tick());
        law_running_stays_sound(w.after_tick(), (n - 1) as nat);
    }
}

/// Two coherent worlds that look alike and own the same chunks look alike however long they both
/// run, whatever each of them has paused.
pub proof fn law_pauses_never_show(a: WorldState, b: WorldState, n: nat)
    requires
        a.coherent(),
        b.coherent(),
        a.owned == b.owned,
        a.looks_like(b),
        a.run(n).1,
        b.run(n).1,
    ensures
        a.run(n).0.looks_like(b.run(n).0),
    decreases n,
{
    if n > 0 {
        lemma_tick_exists(a);
        lemma_tick_exists(b);
        life::law_pauses_do_not_show(a, b, a.after_tick(), b.after_tick());
        life::lemma_tick_keeps(a, a.after_tick());
        life::lemma_tick_keeps(b, b.after_tick());
        law_pauses_never_show(a.after_tick(), b.after_tick(), (n - 1) as nat);
    }
}

/// A run takes as many ticks as it says.
proof fn lemma_run_ticks(w: WorldState, n: nat)
    requires
        w.run(n).1,
    ensures
        w.run(n).0.tick == w.tick + n,
    decreases n,
{
    if n > 0 {
        lemma_tick_exists(w);
        lemma_run_ticks(w.after_tick(), (n - 1) as nat);
    }
}

/// What looks like a world looks like what that looks like.
proof fn lemma_looks_on(a: WorldState, b: WorldState, c: WorldState)
    requires
        a.looks_like(b),
        b.looks_like(c),
    ensures
        a.looks_like(c),
{
    assert forall|x: int, y: int| #[trigger] a.alive(x, y) == c.alive(x, y) by {
        assert(a.alive(x, y) == b.alive(x, y));
    }
    assert forall|x: int, y: int| #[trigger] a.frozen(x, y) == c.frozen(x, y) by {
        assert(a.frozen(x, y) == b.frozen(x, y));
    }
    assert forall|x: int, y: int| #[trigger] a.pin(x, y) == c.pin(x, y) by {
        assert(a.pin(x, y) == b.pin(x, y));
    }
}

/// Worlds that look alike look alike after they ran, and after chunks of one were woken.
proof fn lemma_paused_run(plain: WorldState, paused: WorldState, s: Set<ChunkCoord>, n: nat)
    requires
        plain.coherent(),
        paused.coherent(),
        paused.owned == plain.owned,
        paused.tick == plain.tick,
        paused.looks_like(plain),
        plain.run(n).1,
        paused.run(n).1,
    ensures
        paused.run(n).0.looks_like(plain.run(n).0),
        paused.run(n).0.woken(s).looks_like(plain.run(n).0),
        paused.run(n).0.tick == plain.run(n).0.tick,
{
    law_pauses_never_show(paused, plain, n);
    law_running_stays_sound(paused, n);
    lemma_run_ticks(paused, n);
    lemma_run_ticks(plain, n);
    let a = paused.run(n).0;
    let b = plain.run(n).0;
    law_rousing_keeps_cells(a, s);
    lemma_looks_on(a.woken(s), a, b);
}

/// Pausing a chunk that does repeat itself is invisible in the result: whether or not a neighbor
/// wakes it on the way, after any number of ticks the world shows the same cells at the same tick
/// as one that ran plainly, before the chunk is woken at the end and after.
pub proof fn law_paused_run_matches_plain_run(
    plain: WorldState,
    c: ChunkCoord,
    period: u8,
    n: nat,
)
    requires
        plain.coherent(),
        plain.pausable(c, period),
        world::coast(plain.chunks[c], period as nat) == plain.chunks[c],
        plain.run(n).1,
        plain.pausing(c, period).run(n).1,
    ensures
        ({
            let a = plain.pausing(c, period).run(n).0;
            let b = plain.run(n).0;
            &&& a.looks_like(b)
            &&& a.woken(set![c]).looks_like(b)
            &&& a.tick == b.tick
            &&& a.woken(set![c]).tick == b.tick
        }),
{
    let paused = plain.pausing(c, period);
    life::law_pausing_keeps_cells(plain, paused, c, period);
    lemma_paused_run(plain, paused, set![c], n);
}

/// A world with chunks paused runs on for as long as one with nothing paused that looks like it,
/// and pauses nothing meanwhile.
proof fn lemma_paused_runs_on(a: WorldState, b: WorldState, n: nat)
    requires
        a.coherent(),
        a.looks_like(b),
        a.owned == b.owned,
        a.tick == b.tick,
        a.oscillators.dom().finite(),
        a.oscillators.len() <= u32::MAX,
        b.oscillators.dom().is_empty(),
        b.run(n).1,
    ensures
        a.run(n).1,
        a.run(n).0.oscillators.dom().subset_of(a.oscillators.dom()),
        b.run(n).0.oscillators.dom().is_empty(),
    decreases n,
{
    if n > 0 {
        assert(b.coherent()) by {
            assert(forall|c: ChunkCoord| !b.oscillators.dom().contains(c));
        }
        life::lemma_can_tick_paused(a, b);
        lemma_tick_exists(a);
        lemma_tick_exists(b);
        let (x, y) = (a.after_tick(), b.after_tick());
        life::law_pauses_do_not_show(a, b, x, y);
        life::lemma_tick_keeps(a, x);
        assert(x.oscillators.dom().subset_of(a.oscillators.dom()));
        vstd::set_lib::lemma_len_subset(x.oscillators.dom(), a.oscillators.dom());
        assert(y.oscillators.dom().is_empty()) by {
            assert forall|c: ChunkCoord| !y.oscillators.dom().contains(c) by {
                assert(!b.oscillators.dom().contains(c));
            }
            assert(y.oscillators.dom() =~= Set::<ChunkCoord>::empty());
        }
        lemma_paused_runs_on(x, y, (n - 1) as nat);
    }
}

/// Take two equal worlds with nothing paused, and pause a chunk of one that comes back to itself
/// after `period` steps. However long the plain one can run, the other can, and after the chunk is
/// woken at the end, unless a neighbor woke it on the way, both hold the same live cells at the
/// same tick, with nothing paused.
pub proof fn law_pausing_is_invisible(plain: WorldState, c: ChunkCoord, period: u8, n: nat)
    requires
        plain.oscillators.dom().is_empty(),
        plain.pausable(c, period),
        world::coast(plain.chunks[c], period as nat).rows == plain.chunks[c].rows,
        plain.run(n).1,
    ensures
        plain.pausing(c, period).run(n).1,
        ({
            let a = plain.pausing(c, period).run(n).0;
            let b = plain.run(n).0;
            let up = if a.oscillators.contains_key(c) {
                WorldState {
                    chunks: a.chunks.insert(c, a.oscillators[c].resumed(c, a.tick)),
                    oscillators: a.oscillators.remove(c),
                    ..a
                }
            } else {
                a
            };
            &&& a.looks_like(b)
            &&& up.looks_like(b)
            &&& up.tick == b.tick
            &&& up.oscillators.dom().is_empty()
            &&& b.oscillators.dom().is_empty()
        }),
{
    let paused = plain.pausing(c, period);
    assert(plain.coherent()) by {
        assert(forall|d: ChunkCoord| !plain.oscillators.dom().contains(d));
    }
    life::lemma_coast_frozen(plain.chunks[c], period as nat);
    life::law_pausing_keeps_cells(plain, paused, c, period);
    assert(paused.oscillators.dom() =~= set![c]);
    lemma_paused_runs_on(paused, plain, n);
    lemma_paused_run(plain, paused, set![c], n);
    law_running_stays_sound(paused, n);
    let a = paused.run(n).0;
    let b = plain.run(n).0;
    if a.oscillators.contains_key(c) {
        let up = WorldState {
            chunks: a.chunks.insert(c, a.oscillators[c].resumed(c, a.tick)),
            oscillators: a.oscillators.remove(c),
            ..a
        };
        life::law_waking_keeps_cells(a, up, c);
        lemma_looks_on(up, a, b);
        assert(up.oscillators.dom() =~= Set::<ChunkCoord>::empty());
    } else {
        assert(a.oscillators.dom() =~= Set::<ChunkCoord>::empty());
    }
}

/// The same of chunks that are paused as a group: it is invisible in the result, whichever of them
/// are woken at the end.
pub proof fn law_paused_group_matches_plain_run(
    plain: WorldState,
    s: Set<ChunkCoord>,
    period: u8,
    n: nat,
    up: Set<ChunkCoord>,
)
    requires
        plain.coherent(),
        plain.pausable_together(s, period),
        plain.run(n).1,
        plain.pausing_together(s, period).run(n).1,
    ensures
        ({
            let a = plain.pausing_together(s, period).run(n).0;
            let b = plain.run(n).0;
            &&& a.looks_like(b)
            &&& a.woken(up).looks_like(b)
            &&& a.tick == b.tick
            &&& a.woken(up).tick == b.tick
        }),
{
    life::law_pausing_together_keeps_cells(plain, s, period);
    lemma_paused_run(plain, plain.pausing_together(s, period), up, n);
}

/// Pausing groups, one after the other, changes no cell.
pub proof fn law_groups_pause_unseen(
    s: SimState,
    detector: DetectorState,
    groups: Seq<(Vec<ChunkCoord>, u8)>,
)
    requires
        s.world.coherent(),
    ensures
        s.gathering(detector, groups).world.coherent(),
        s.gathering(detector, groups).world.looks_like(s.world),
    decreases groups.len(),
{
    if groups.len() > 0 {
        law_groups_pause_unseen(s, detector, groups.drop_last());
        let p = s.gathering(detector, groups.drop_last());
        let members = groups.last().0@.to_set();
        let period = groups.last().1;
        if p.world.pausable_together(members, period) {
            life::law_pausing_together_keeps_cells(p.world, members, period);
            lemma_looks_on(p.world.pausing_together(members, period), p.world, s.world);
        }
    }
}

/// What becomes of owned chunks depends on owned chunks alone: two sound worlds that own the same
/// chunks and show the same cells there show the same cells there after a tick, whatever lies
/// outside.
pub proof fn law_owned_chunks_are_shielded(
    a: WorldState,
    b: WorldState,
    next_a: WorldState,
    next_b: WorldState,
    x: int,
    y: int,
)
    requires
        a.sound(),
        b.sound(),
        a.can_tick(),
        b.can_tick(),
        a.ticks_to(next_a),
        b.ticks_to(next_b),
        a.owned == b.owned,
        forall|u: int, v: int| #[trigger]
            a.owned.contains(world::home_coord(u, v)) ==> a.alive(u, v) == b.alive(u, v)
                && a.frozen(u, v) == b.frozen(u, v),
        a.owned.contains(world::home_coord(x, y)),
    ensures
        next_a.alive(x, y) == next_b.alive(x, y),
        next_a.frozen(x, y) == next_b.frozen(x, y),
{
    life::law_tick_is_life(a, next_a);
    life::law_tick_is_life(b, next_b);
    if world::addressable(x, y) {
        let c = world::home_coord(x, y);
        assert forall|u: int, v: int| #[trigger] a.field(c)(u, v) == b.field(c)(u, v) by {
            assert(a.owned.contains(world::home_coord(u, v)) ==> a.alive(u, v) == b.alive(u, v));
        }
        assert(a.field(c) =~= b.field(c));
        assert(next_a.alive(x, y) == next_a.alive(x, y));
        assert(next_b.alive(x, y) == next_b.alive(x, y));
    }
}

} // verus!
