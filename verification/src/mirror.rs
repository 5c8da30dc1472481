//! How the hub's mirror keeps up with the world.

use crate::chunk::Chunk;
use crate::coord::ChunkCoord;
use crate::hub::{HubState, MirrorEntry};
use crate::life;
use crate::protocol;
use crate::protocol::EditCell;
use crate::sim;
use crate::sim::{ChunkSnap, SimEvent};
use crate::sort;
use crate::wal;
use crate::world;
use crate::world::{TickOutcome, WorldState};
use vstd::prelude::*;

verus! {

/// The mirror entry shows the chunk as it is.
pub open spec fn shows(m: MirrorEntry, c: ChunkCoord, ch: Chunk) -> bool {
    sim::snap_of(
        c,
        ch,
        ChunkSnap {
            coord: c,
            bits: m.bits,
            frozen_mask: m.frozen_mask,
            live_count: m.live_count,
        },
    )
}

impl WorldState {
    /// No chunk is both awake and paused.
    pub open spec fn parted(self) -> bool {
        forall|c: ChunkCoord| #[trigger]
            self.chunks.contains_key(c) ==> !self.oscillators.contains_key(c)
    }
}

/// The mirror has an entry for each chunk of the world and for no other, and shows those that are
/// not paused as they are.
pub open spec fn reflects(m: Map<ChunkCoord, MirrorEntry>, w: WorldState) -> bool {
    &&& forall|c: ChunkCoord| #[trigger] m.contains_key(c) <==> w.visible(c) is Some
    &&& forall|c: ChunkCoord| #[trigger]
        w.chunks.contains_key(c) ==> shows(m[c], c, w.chunks[c])
}

/// What becomes of a mirror that is told of chunks.
proof fn lemma_mirrored(
    m: Map<ChunkCoord, MirrorEntry>,
    there: Seq<ChunkCoord>,
    shown: spec_fn(ChunkCoord) -> Chunk,
    snaps: Seq<ChunkSnap>,
    tick: u64,
)
    requires
        snaps.len() == there.len(),
        forall|i: int|
            0 <= i < snaps.len() ==> sim::snap_of(there[i], shown(there[i]), #[trigger] snaps[i]),
    ensures
        ({
            let next = HubState::mirrored(m, snaps, tick);
            &&& forall|c: ChunkCoord| #[trigger]
                next.contains_key(c) <==> m.contains_key(c) || there.contains(c)
            &&& forall|c: ChunkCoord| #[trigger]
                there.contains(c) ==> shows(next[c], c, shown(c))
            &&& forall|c: ChunkCoord|
                m.contains_key(c) && !there.contains(c) ==> #[trigger] next[c] == m[c]
        }),
    decreases snaps.len(),
{
    if snaps.len() > 0 {
        let rest = there.drop_last();
        assert forall|i: int| 0 <= i < snaps.drop_last().len() implies sim::snap_of(
            rest[i],
            shown(rest[i]),
            #[trigger] snaps.drop_last()[i],
        ) by {
            assert(snaps.drop_last()[i] == snaps[i]);
        }
        lemma_mirrored(m, rest, shown, snaps.drop_last(), tick);
        let c = there.last();
        assert(snaps.last() == snaps[snaps.len() - 1]);
        assert(snaps.last().coord == c);
        assert(there =~= rest.push(c));
        sort::lemma_push_contains(rest, c);
        let before = HubState::mirrored(m, snaps.drop_last(), tick);
        let next = HubState::mirrored(m, snaps, tick);
        assert(next == before.insert(c, HubState::entry_of(snaps.last(), tick)));
        assert forall|d: ChunkCoord| #[trigger] there.contains(d) implies shows(
            next[d],
            d,
            shown(d),
        ) by {
            if d != c {
                assert(rest.contains(d));
                assert(before.contains_key(d));
            }
        }
        assert forall|d: ChunkCoord| m.contains_key(d) && !there.contains(d) implies
            #[trigger] next[d] == m[d] by {
            assert(!rest.contains(d));
            assert(before[d] == m[d]);
            assert(there.contains(c)) by {
                assert(there[there.len() - 1] == c);
            }
        }
    }
}

/// What becomes of a mirror that is told of chunks of a world.
proof fn lemma_told(
    m: Map<ChunkCoord, MirrorEntry>,
    w: WorldState,
    coords: Seq<ChunkCoord>,
    snaps: Seq<ChunkSnap>,
    tick: u64,
)
    requires
        sim::snaps_of(w, coords, snaps),
    ensures
        ({
            let next = HubState::mirrored(m, snaps, tick);
            &&& forall|c: ChunkCoord| #[trigger]
                next.contains_key(c) <==> m.contains_key(c) || (coords.contains(c) && w.visible(
                    c,
                ) is Some)
            &&& forall|c: ChunkCoord| #[trigger]
                coords.contains(c) && w.visible(c) is Some ==> shows(next[c], c, w.visible(c)->0)
            &&& forall|c: ChunkCoord|
                m.contains_key(c) && !(coords.contains(c) && w.visible(c) is Some) ==>
                #[trigger] next[c] == m[c]
        }),
{
    let f = |c: ChunkCoord| w.visible(c) is Some;
    let shown = |c: ChunkCoord| w.visible(c)->0;
    let there = coords.filter(f);
    sort::lemma_filter_members(coords, f);
    lemma_mirrored(m, there, shown, snaps, tick);
    assert forall|c: ChunkCoord| #[trigger] coords.contains(c) && w.visible(c) is Some implies shows(
        HubState::mirrored(m, snaps, tick)[c],
        c,
        w.visible(c)->0,
    ) by {
        assert(there.contains(c));
    }
    assert forall|c: ChunkCoord|
        m.contains_key(c) && !(coords.contains(c) && w.visible(c) is Some) implies
        #[trigger] HubState::mirrored(m, snaps, tick)[c] == m[c] by {
        assert(!there.contains(c));
    }
}

/// The first dump makes an empty mirror reflect the world.
pub proof fn law_first_dump_fills_mirror(
    h: HubState,
    w: WorldState,
    s: Seq<(ChunkCoord, Chunk)>,
    e: SimEvent,
)
    requires
        h.mirror == Map::<ChunkCoord, MirrorEntry>::empty(),
        w.parted(),
        w.lists(s),
        e.changed@.len() == s.len(),
        forall|i: int|
            0 <= i < s.len() ==> sim::snap_of(s[i].0, s[i].1, #[trigger] e.changed@[i]),
        e.removed@.len() == 0,
    ensures
        reflects(h.after_event(e).mirror, w),
{
    let (a, b) = choose|a: Seq<ChunkCoord>, b: Seq<ChunkCoord>| #[trigger] w.lists_as(a, b, s);
    let there = a + b;
    let shown = |c: ChunkCoord| w.visible(c)->0;
    assert forall|i: int| 0 <= i < s.len() implies sim::snap_of(
        there[i],
        shown(there[i]),
        #[trigger] e.changed@[i],
    ) by {
        if i < a.len() {
            assert(a.to_set().contains(a[i]));
            assert(w.chunks.contains_key(a[i]));
        } else {
            assert(b.to_set().contains(b[i - a.len()]));
            assert(w.oscillators.contains_key(b[i - a.len()]));
            assert(!w.chunks.contains_key(b[i - a.len()]));
        }
    }
    let m0 = h.mirror.remove_keys(e.removed@.to_set());
    assert(m0 =~= h.mirror);
    lemma_mirrored(m0, there, shown, e.changed@, e.tick);
    assert forall|c: ChunkCoord| #[trigger] there.contains(c) <==> w.visible(c) is Some by {
        if w.chunks.contains_key(c) {
            assert(a.to_set().contains(c));
            let i = choose|i: int| 0 <= i < a.len() && a[i] == c;
            assert(there[i] == c);
        }
        if w.oscillators.contains_key(c) {
            assert(b.to_set().contains(c));
            let i = choose|i: int| 0 <= i < b.len() && b[i] == c;
            assert(there[a.len() + i] == c);
        }
        if there.contains(c) {
            let i = choose|i: int| 0 <= i < there.len() && there[i] == c;
            if i < a.len() {
                assert(a.to_set().contains(a[i]));
            } else {
                assert(b.to_set().contains(b[i - a.len()]));
            }
        }
    }
    assert forall|c: ChunkCoord| #[trigger] w.chunks.contains_key(c) implies shows(
        h.after_event(e).mirror[c],
        c,
        w.chunks[c],
    ) by {
        assert(there.contains(c));
    }
}

/// What a tick removes and changes.
proof fn lemma_outcome_members(w: WorldState, order: Seq<ChunkCoord>, out: TickOutcome)
    requires
        w.reports(order, out),
    ensures
        forall|c: ChunkCoord| #[trigger] out.removed@.contains(c) <==> w.active(c) && w.drops(c),
        forall|c: ChunkCoord| #[trigger]
            out.changed@.contains(c) <==> w.perturbed(c) || (w.active(c) && w.changes(c)),
{
    let woken = choose|woken: Seq<ChunkCoord>| #[trigger]
        sort::ascending(woken) && woken.no_duplicates() && (forall|c: ChunkCoord| #[trigger]
            woken.contains(c) <==> w.perturbed(c)) && out.changed@ == woken + order.filter(
            |c: ChunkCoord| w.changes(c),
        ) && out.perturbation_wakes == woken.len();
    let f = |c: ChunkCoord| w.changes(c);
    let g = |c: ChunkCoord| w.drops(c);
    sort::lemma_filter_members(order, f);
    sort::lemma_filter_members(order, g);
    let rest = order.filter(f);
    assert forall|c: ChunkCoord| #[trigger] out.changed@.contains(c) <==> w.perturbed(c) || (
    w.active(c) && w.changes(c)) by {
        assert(rest.contains(c) <==> order.contains(c) && f(c));
        if out.changed@.contains(c) {
            let i = choose|i: int| 0 <= i < out.changed@.len() && out.changed@[i] == c;
            if i < woken.len() {
                assert(woken.contains(woken[i]));
            } else {
                assert(rest.contains(rest[i - woken.len()]));
            }
        }
        if w.perturbed(c) {
            let i = choose|i: int| 0 <= i < woken.len() && woken[i] == c;
            assert(woken.contains(c));
            assert(out.changed@[i] == c);
        } else if w.active(c) && w.changes(c) {
            assert(order.contains(c));
            assert(rest.contains(c));
            let i = choose|i: int| 0 <= i < rest.len() && rest[i] == c;
            assert(out.changed@[woken.len() + i] == c);
        }
    }
}

/// A mirror that reflects the world before a tick reflects the world behind it, once told of it:
/// a tick tells of all that it changes.
pub proof fn law_mirror_follows_ticks(
    h: HubState,
    w: WorldState,
    next: WorldState,
    order: Seq<ChunkCoord>,
    out: TickOutcome,
    e: SimEvent,
)
    requires
        w.coherent(),
        w.can_tick(),
        w.ticks_to(next),
        w.reports(order, out),
        sim::tells(e, next, out.changed@),
        e.removed@ == out.removed@,
        reflects(h.mirror, w),
    ensures
        next.coherent(),
        reflects(h.after_event(e).mirror, next),
{
    life::lemma_tick_keeps(w, next);
    let m0 = h.mirror.remove_keys(e.removed@.to_set());
    let m1 = h.after_event(e).mirror;
    lemma_outcome_members(w, order, out);
    lemma_told(m0, next, out.changed@, e.changed@, e.tick);
    assert forall|c: ChunkCoord| #[trigger] m1.contains_key(c) <==> next.visible(c) is Some by {
        lemma_one_follows(h.mirror, w, next, out, m1, e, c);
    }
    assert forall|c: ChunkCoord| #[trigger] next.chunks.contains_key(c) implies shows(
        m1[c],
        c,
        next.chunks[c],
    ) by {
        lemma_one_follows(h.mirror, w, next, out, m1, e, c);
    }
}

proof fn lemma_one_follows(
    m: Map<ChunkCoord, MirrorEntry>,
    w: WorldState,
    next: WorldState,
    out: TickOutcome,
    m1: Map<ChunkCoord, MirrorEntry>,
    e: SimEvent,
    c: ChunkCoord,
)
    requires
        w.parted(),
        next.parted(),
        w.ticks_to(next),
        reflects(m, w),
        e.removed@ == out.removed@,
        out.removed@.contains(c) <==> w.active(c) && w.drops(c),
        out.changed@.contains(c) <==> w.perturbed(c) || (w.active(c) && w.changes(c)),
        ({
            let m0 = m.remove_keys(e.removed@.to_set());
            let told = out.changed@.contains(c) && next.visible(c) is Some;
            &&& m1.contains_key(c) <==> m0.contains_key(c) || told
            &&& told ==> shows(m1[c], c, next.visible(c)->0)
            &&& m0.contains_key(c) && !told ==> m1[c] == m0[c]
        }),
    ensures
        m1.contains_key(c) <==> next.visible(c) is Some,
        next.chunks.contains_key(c) ==> shows(m1[c], c, next.chunks[c]),
{
    let m0 = m.remove_keys(e.removed@.to_set());
    assert(e.removed@.to_set().contains(c) == out.removed@.contains(c));
    assert(m0.contains_key(c) == (m.contains_key(c) && !out.removed@.contains(c)));
    assert(m.contains_key(c) == (w.visible(c) is Some));
    assert(world::entry(next.chunks, c) == w.outcome_at(c));
    assert(next.oscillators.contains_key(c) == (w.oscillators.contains_key(c) && !w.perturbed(c)));
    assert(w.awake().contains_key(c) == (w.chunks.contains_key(c) || w.perturbed(c)));
    if w.perturbed(c) {
        assert(w.active(c));
    }
    if next.chunks.contains_key(c) && !out.changed@.contains(c) {
        assert(!w.perturbed(c));
        if w.active(c) && !w.idle(c) {
            assert(!w.vanishes(c));
            assert(w.awake().contains_key(c));
            assert(w.awake()[c].rows == w.successor(c).rows);
            assert(w.successor(c).frozen == w.awake()[c].frozen);
        }
        assert(next.chunks[c] == w.chunks[c]);
        assert(w.chunks.contains_key(c));
        assert(!out.removed@.contains(c));
    }
}

/// A mirror that reflects the world goes on to do so when chunks are reaped from both.
pub proof fn law_mirror_follows_reaping(
    m: Map<ChunkCoord, MirrorEntry>,
    w: WorldState,
    s: Set<ChunkCoord>,
)
    requires
        reflects(m, w),
    ensures
        reflects(m.remove_keys(s), w.without(s)),
{
    let next = w.without(s);
    assert forall|c: ChunkCoord| #[trigger] m.remove_keys(s).contains_key(c) <==> next.visible(
        c,
    ) is Some by {
        assert(m.contains_key(c) <==> w.visible(c) is Some);
    }
}

/// A mirror that reflects the world goes on to do so when a chunk is paused: the client is told
/// nothing, and needs nothing, until it is woken.
pub proof fn law_mirror_follows_pausing(
    m: Map<ChunkCoord, MirrorEntry>,
    w: WorldState,
    c: ChunkCoord,
    period: u8,
)
    requires
        reflects(m, w),
        w.pausable(c, period),
    ensures
        reflects(m, w.pausing(c, period)),
{
    let next = w.pausing(c, period);
    assert forall|d: ChunkCoord| #[trigger] m.contains_key(d) <==> next.visible(d) is Some by {}
}

/// A mirror that reflects the world goes on to do so when chunks are paused as a group.
pub proof fn law_mirror_follows_pausing_together(
    m: Map<ChunkCoord, MirrorEntry>,
    w: WorldState,
    s: Set<ChunkCoord>,
    period: u8,
)
    requires
        reflects(m, w),
        w.pausable_together(s, period),
    ensures
        reflects(m, w.pausing_together(s, period)),
{
    let next = w.pausing_together(s, period);
    assert forall|c: ChunkCoord| #[trigger] m.contains_key(c) <==> next.visible(c) is Some by {
        if s.contains(c) {
            assert(w.sociable(c));
        }
    }
}

/// A mirror that reflects the world reflects it again once it was told of chunks that were woken.
pub proof fn law_mirror_follows_waking(
    h: HubState,
    w: WorldState,
    fresh: Set<ChunkCoord>,
    order: Seq<ChunkCoord>,
    e: SimEvent,
)
    requires
        reflects(h.mirror, w),
        order.to_set() == fresh.intersect(w.oscillators.dom()),
        sim::tells(e, w.woken(fresh), order),
        e.removed@.len() == 0,
    ensures
        reflects(h.after_event(e).mirror, w.woken(fresh)),
{
    let next = w.woken(fresh);
    let m0 = h.mirror.remove_keys(e.removed@.to_set());
    let m1 = h.after_event(e).mirror;
    assert(m0 =~= h.mirror);
    lemma_told(m0, next, order, e.changed@, e.tick);
    assert forall|c: ChunkCoord| #[trigger] order.contains(c) <==> fresh.contains(c)
        && w.oscillators.contains_key(c) by {
        assert(order.to_set().contains(c) == order.contains(c));
    }
    assert forall|c: ChunkCoord| #[trigger] m1.contains_key(c) <==> next.visible(c) is Some by {
        assert(m0.contains_key(c) <==> w.visible(c) is Some);
        assert(order.contains(c) <==> fresh.contains(c) && w.oscillators.contains_key(c));
    }
    assert forall|c: ChunkCoord| #[trigger] next.chunks.contains_key(c) implies shows(
        m1[c],
        c,
        next.chunks[c],
    ) by {
        if order.contains(c) {
            assert(next.visible(c) == Some(next.chunks[c]));
        } else {
            assert(w.chunks.contains_key(c));
            assert(m0.contains_key(c));
        }
    }
}

/// The chunks of edited cells, whether listed once or each time.
pub proof fn lemma_touched(cells: Seq<EditCell>)
    ensures
        forall|c: ChunkCoord| #[trigger] sim::touched(cells).contains(c) <==> sim::homes(
            cells,
        ).contains(c),
        sim::touched(cells).no_duplicates(),
    decreases cells.len(),
{
    if cells.len() > 0 {
        let init = cells.drop_last();
        let c = (cells.last().cx, cells.last().cy);
        lemma_touched(init);
        assert(sim::homes(cells) =~= sim::homes(init).push(c));
        sort::lemma_push_contains(sim::homes(init), c);
        sort::lemma_push_contains(sim::touched(init), c);
        if !sim::touched(init).contains(c) {
            sort::lemma_push_distinct(sim::touched(init), c);
        }
    }
}

/// Edits of cells that lie in their chunks change these chunks and no others, and leave no chunk
/// out.
proof fn lemma_edited_frame(w: WorldState, cells: Seq<EditCell>)
    requires
        forall|i: int| 0 <= i < cells.len() ==> protocol::in_chunk(#[trigger] cells[i]),
    ensures
        ({
            let next = wal::edited_all(w, cells);
            let homes = sim::homes(cells);
            &&& forall|c: ChunkCoord| #[trigger]
                next.chunks.contains_key(c) <==> w.chunks.contains_key(c) || homes.contains(c)
            &&& forall|c: ChunkCoord|
                w.chunks.contains_key(c) && !homes.contains(c) ==> #[trigger] next.chunks[c]
                    == w.chunks[c]
            &&& next.oscillators == w.oscillators
            &&& next.tick == w.tick
        }),
    decreases cells.len(),
{
    if cells.len() > 0 {
        let e = cells[0];
        let c = (e.cx, e.cy);
        let rest = cells.drop_first();
        let mid = w.edited(wal::cell_x(e), wal::cell_y(e), e.alive);
        assert forall|i: int| 0 <= i < rest.len() implies protocol::in_chunk(
            #[trigger] rest[i],
        ) by {
            assert(rest[i] == cells[i + 1]);
        }
        lemma_edited_frame(mid, rest);
        assert(world::home_coord(wal::cell_x(e), wal::cell_y(e)) == c) by {
            assert(protocol::in_chunk(cells[0]));
        }
        assert(sim::homes(cells) =~= seq![c] + sim::homes(rest));
        assert forall|d: ChunkCoord| #[trigger] sim::homes(cells).contains(d) <==> d == c
            || sim::homes(rest).contains(d) by {
            if d == c {
                assert(sim::homes(cells)[0] == d);
            }
            if sim::homes(rest).contains(d) {
                let i = choose|i: int| 0 <= i < rest.len() && sim::homes(rest)[i] == d;
                assert(sim::homes(cells)[i + 1] == d);
            }
            if sim::homes(cells).contains(d) {
                let i = choose|i: int| 0 <= i < cells.len() && sim::homes(cells)[i] == d;
                if i > 0 {
                    assert(sim::homes(rest)[i - 1] == d);
                }
            }
        }
    }
}

/// A mirror that reflects the world reflects it again once it was told of edits.
pub proof fn law_mirror_follows_edits(
    h: HubState,
    w: WorldState,
    cells: Seq<EditCell>,
    e: SimEvent,
)
    requires
        reflects(h.mirror, w),
        forall|i: int| 0 <= i < cells.len() ==> protocol::in_chunk(#[trigger] cells[i]),
        sim::tells(
            e,
            wal::edited_all(w.woken(sim::homes(cells).to_set()), cells),
            sim::touched(cells),
        ),
        e.removed@.len() == 0,
    ensures
        reflects(
            h.after_event(e).mirror,
            wal::edited_all(w.woken(sim::homes(cells).to_set()), cells),
        ),
{
    let homes = sim::homes(cells);
    let up = w.woken(homes.to_set());
    let next = wal::edited_all(up, cells);
    let m0 = h.mirror.remove_keys(e.removed@.to_set());
    let m1 = h.after_event(e).mirror;
    assert(m0 =~= h.mirror);
    lemma_edited_frame(up, cells);
    lemma_touched(cells);
    lemma_told(m0, next, sim::touched(cells), e.changed@, e.tick);
    assert forall|c: ChunkCoord| #[trigger] m1.contains_key(c) <==> next.visible(c) is Some by {
        assert(m0.contains_key(c) <==> w.visible(c) is Some);
        assert(sim::touched(cells).contains(c) <==> homes.contains(c));
        assert(homes.to_set().contains(c) == homes.contains(c));
        assert(next.chunks.contains_key(c) <==> up.chunks.contains_key(c) || homes.contains(c));
    }
    assert forall|c: ChunkCoord| #[trigger] next.chunks.contains_key(c) implies shows(
        m1[c],
        c,
        next.chunks[c],
    ) by {
        assert(sim::touched(cells).contains(c) <==> homes.contains(c));
        assert(homes.to_set().contains(c) == homes.contains(c));
        if homes.contains(c) {
            assert(next.visible(c) == Some(next.chunks[c]));
        } else {
            assert(up.chunks.contains_key(c));
            assert(w.chunks.contains_key(c));
            assert(next.chunks[c] == up.chunks[c]);
            assert(m0.contains_key(c));
        }
    }
}

} // verus!
