//! Simulation loop decisions: what commands and ticks do to the world, and what is told of it.

use crate::chunk;
use crate::chunk::Chunk;
use crate::coord::{ChunkCoord, CoordMap};
use crate::group;
use crate::oscillator::{Detector, DetectorState, HashReport, Paused, PromoteRequest, MAX_PERIOD};
use crate::protocol;
use crate::protocol::{EditCell, BITS_BYTES};
use crate::sort;
use crate::wal;
use crate::world;
use crate::world::{TickOutcome, World, WorldState};
use crate::{CHUNK_SIZE, CHUNK_SIZE_I64};
use vstd::prelude::*;

verus! {

/// What the hub asks of the simulation.
#[derive(Debug)]
pub enum SimCmd {
    Edit(Vec<EditCell>),
    Reap(Vec<ChunkCoord>),
    /// Coords newly observed by at least one peer (0->1 transitions). The sim
    /// wakes any paused entry and refuses to pause these coords while they
    /// remain in the subscribed set.
    Subscribe(Vec<ChunkCoord>),
    /// Coords no longer observed by any peer (1->0 transitions). Pausing
    /// becomes eligible again on the next detector promotion.
    Unsubscribe(Vec<ChunkCoord>),
    /// Replace the owned-chunk set. Owned chunks reject inbound edges from
    /// non-owned neighbors, preventing external births into claimed regions.
    SetOwned(CoordMap<()>),
}

/// A chunk as it is told to the hub.
#[derive(Debug)]
pub struct ChunkSnap {
    pub coord: ChunkCoord,
    pub bits: [u8; BITS_BYTES],
    /// Boxed because frozen chunks are rare; keeps the unfrozen `ChunkSnap`
    /// from carrying an inline `Option` payload across the channel.
    pub frozen_mask: Option<Box<[u8; BITS_BYTES]>>,
    pub live_count: u32,
}

impl Clone for ChunkSnap {
    fn clone(&self) -> (s: Self)
        ensures
            s == *self,
    {
        ChunkSnap {
            coord: self.coord,
            bits: self.bits,
            frozen_mask: match &self.frozen_mask {
                Some(m) => Some(Box::new(**m)),
                None => None,
            },
            live_count: self.live_count,
        }
    }
}

/// What the simulation tells the hub.
#[derive(Debug)]
pub struct SimEvent {
    pub tick: u64,
    /// Chunks that changed this turn (natural GoL or post-edit), with current state.
    /// Used by the hub to keep its mirror up to date. Natural-evolution chunks are
    /// not broadcast to clients; edit chunks are covered by `edits`.
    pub changed: Vec<ChunkSnap>,
    /// Per-chunk edit payloads from `SimCmd::Edit` received before this event.
    /// Hub broadcasts `EditApplied` for each entry. Empty on tick events and the
    /// initial dump.
    pub edits: Vec<(ChunkCoord, Vec<EditCell>)>,
    /// Chunks removed (natural emptying or reaper). Hub broadcasts `Reaped` for these.
    pub removed: Vec<ChunkCoord>,
    pub live_count: usize,
    /// True only on the very first event (full world dump after boot).
    pub initial: bool,
    /// True when this event represents a completed GoL tick (vs an immediate
    /// edit notification). Hub sends `Sync` only on tick events.
    pub is_tick: bool,
}

/// `s` is what is told of the chunk `ch` at `c`.
pub open spec fn snap_of(c: ChunkCoord, ch: Chunk, s: ChunkSnap) -> bool {
    &&& s.coord == c
    &&& s.bits@ == protocol::rows_bytes(ch.rows@)
    &&& match (ch.frozen, s.frozen_mask) {
        (Some(m), Some(b)) => b@ == protocol::rows_bytes(m.mask@),
        (None, None) => true,
        _ => false,
    }
    &&& s.live_count == chunk::live_cells(ch.rows@, CHUNK_SIZE as nat)
}

/// What is told of the chunk `ch` at `c`.
pub fn snap(c: ChunkCoord, ch: &Chunk) -> (s: ChunkSnap)
    ensures
        snap_of(c, *ch, s),
{
    let frozen_mask = match &ch.frozen {
        Some(m) => Some(Box::new(protocol::rows_to_bits(&m.mask))),
        None => None,
    };
    ChunkSnap {
        coord: c,
        bits: protocol::rows_to_bits(&ch.rows),
        frozen_mask,
        live_count: ch.live_count(),
    }
}

/// `snaps` are what is told of the chunks of `w` at `coords`, in this order. Those that are not
/// there are passed over.
pub open spec fn snaps_of(w: WorldState, coords: Seq<ChunkCoord>, snaps: Seq<ChunkSnap>) -> bool {
    let there = coords.filter(|c: ChunkCoord| w.visible(c) is Some);
    &&& snaps.len() == there.len()
    &&& forall|i: int|
        0 <= i < snaps.len() ==> snap_of(
            there[i],
            w.visible(there[i])->0,
            #[trigger] snaps[i],
        )
}

/// What is told of the chunks at `coords`.
pub fn collect(world: &World, coords: &Vec<ChunkCoord>) -> (out: Vec<ChunkSnap>)
    ensures
        snaps_of(world@, coords@, out@),
{
    let ghost w = world@;
    let ghost f = |c: ChunkCoord| w.visible(c) is Some;
    let mut out: Vec<ChunkSnap> = Vec::new();
    let mut i: usize = 0;
    proof {
        assert(coords@.take(0) =~= Seq::<ChunkCoord>::empty());
        assert(coords@.take(0).filter(f) =~= Seq::<ChunkCoord>::empty()) by {
            reveal_with_fuel(Seq::filter, 1);
        }
    }
    while i < coords.len()
        invariant
            i <= coords.len(),
            w == world@,
            f == (|c: ChunkCoord| w.visible(c) is Some),
            snaps_of(w, coords@.take(i as int), out@),
        decreases coords.len() - i,
    {
        let c = coords[i];
        let ghost done = coords@.take(i as int);
        proof {
            assert(coords@.take(i + 1) =~= done.push(c));
            done.lemma_filter_push(c, f);
        }
        if let Some(ch) = world.get_chunk(c.0, c.1) {
            let ghost before = out@;
            let s = snap(c, ch);
            out.push(s);
            proof {
                assert(f(c));
                let there = done.push(c).filter(f);
                assert(there == done.filter(f).push(c));
                assert forall|k: int| 0 <= k < out@.len() implies snap_of(
                    there[k],
                    w.visible(there[k])->0,
                    #[trigger] out@[k],
                ) by {
                    if k < before.len() {
                        assert(out@[k] == before[k]);
                    }
                }
            }
        }
        i = i + 1;
    }
    assert(coords@.take(i as int) =~= coords@);
    out
}

impl WorldState {
    /// The number of chunks, as far as it can be counted.
    pub open spec fn counted(self) -> nat {
        if self.chunks.len() + self.oscillators.len() <= usize::MAX {
            self.chunks.len() + self.oscillators.len()
        } else {
            usize::MAX as nat
        }
    }

    /// The world with the paused chunks in `s` woken.
    pub open spec fn woken(self, s: Set<ChunkCoord>) -> WorldState {
        WorldState {
            chunks: Map::new(
                |c: ChunkCoord|
                    self.chunks.contains_key(c) || (s.contains(c) && self.oscillators.contains_key(
                        c,
                    )),
                |c: ChunkCoord|
                    if s.contains(c) && self.oscillators.contains_key(c) {
                        self.oscillators[c].resumed(c, self.tick)
                    } else {
                        self.chunks[c]
                    },
            ),
            oscillators: self.oscillators.remove_keys(s),
            ..self
        }
    }

    /// The world without the chunks in `s`.
    pub open spec fn without(self, s: Set<ChunkCoord>) -> WorldState {
        WorldState {
            chunks: self.chunks.remove_keys(s),
            oscillators: self.oscillators.remove_keys(s),
            ..self
        }
    }
}

/// The chunks of edited cells.
pub open spec fn homes(cells: Seq<EditCell>) -> Seq<ChunkCoord> {
    cells.map_values(|c: EditCell| (c.cx, c.cy))
}

/// The chunks of edited cells, each once, in the order in which they come up.
pub open spec fn touched(cells: Seq<EditCell>) -> Seq<ChunkCoord>
    decreases cells.len(),
{
    if cells.len() == 0 {
        Seq::empty()
    } else {
        let s = touched(cells.drop_last());
        let c = (cells.last().cx, cells.last().cy);
        if s.contains(c) {
            s
        } else {
            s.push(c)
        }
    }
}

/// The edited cells of chunk `c`.
pub open spec fn cells_in(cells: Seq<EditCell>, c: ChunkCoord) -> Seq<EditCell> {
    cells.filter(|e: EditCell| (e.cx, e.cy) == c)
}

/// The edits of an event.
pub open spec fn edits_view(edits: Seq<(ChunkCoord, Vec<EditCell>)>) -> Seq<
    (ChunkCoord, Seq<EditCell>),
> {
    edits.map_values(|g: (ChunkCoord, Vec<EditCell>)| (g.0, g.1@))
}

/// What the simulation task holds.
#[verifier::ext_equal]
pub struct SimState {
    pub world: WorldState,
    /// Coords with at least one peer observing. They are not paused while present.
    pub watched: Set<ChunkCoord>,
    pub next_snapshot: u64,
    pub interval: u64,
}

/// The world, which of its chunks are observed, and when the next snapshot is due.
#[derive(Debug)]
pub struct Sim {
    world: World,
    subscribed: CoordMap<()>,
    next_snapshot_tick: u64,
    snapshot_interval_ticks: u64,
}

impl View for Sim {
    type V = SimState;

    closed spec fn view(&self) -> SimState {
        SimState {
            world: self.world@,
            watched: self.subscribed@.dom(),
            next_snapshot: self.next_snapshot_tick,
            interval: self.snapshot_interval_ticks,
        }
    }
}

/// What became of promote requests.
#[derive(Debug)]
pub struct Promoted {
    /// Number of chunks that were paused.
    pub promotions: u64,
    /// Groups of chunks around requests that could not be met for the chunk alone, with the
    /// period of the request.
    pub groups: Vec<(Vec<ChunkCoord>, u8)>,
}

/// What a tick led to.
#[derive(Debug)]
pub struct Ticked {
    pub event: SimEvent,
    /// Paused chunks that were woken.
    pub wakes: u32,
    /// Whether a snapshot is due.
    pub snapshot: bool,
}

/// An event that tells of the chunks at `coords`, and of nothing else.
pub open spec fn tells(e: SimEvent, w: WorldState, coords: Seq<ChunkCoord>) -> bool {
    &&& e.tick == w.tick
    &&& snaps_of(w, coords, e.changed@)
    &&& e.live_count == w.counted()
    &&& !e.initial
}

impl Sim {
    /// Start with a world. Snapshots are due every `snapshot_interval_ticks`.
    pub fn new(world: World, snapshot_interval_ticks: u64) -> (s: Self)
        requires
            world@.wf(),
            world@.tick + snapshot_interval_ticks <= u64::MAX,
        ensures
            s@ == (SimState {
                world: world@,
                watched: Set::empty(),
                next_snapshot: (world@.tick + snapshot_interval_ticks) as u64,
                interval: snapshot_interval_ticks,
            }),
    {
        let next_snapshot_tick = world.tick_number() + snapshot_interval_ticks;
        let s = Sim { world, subscribed: CoordMap::new(), next_snapshot_tick, snapshot_interval_ticks };
        assert(s@.watched =~= Set::<ChunkCoord>::empty());
        s
    }

    /// The world.
    pub fn world(&self) -> (w: &World)
        ensures
            w@ == self@.world,
    {
        &self.world
    }

    /// Number of chunks, as far as it can be counted.
    fn live_count(&self) -> (n: usize)
        ensures
            n == self@.world.counted(),
    {
        let paused = self.world.oscillator_count();
        let live = self.world.live_len();
        match live.checked_add(paused) {
            Some(n) => n,
            None => usize::MAX,
        }
    }

    /// An event without edits that tells of the chunks at `coords`.
    fn event(&self, coords: &Vec<ChunkCoord>, removed: Vec<ChunkCoord>, is_tick: bool) -> (e:
        SimEvent)
        ensures
            tells(e, self@.world, coords@),
            e.edits@.len() == 0,
            e.removed@ == removed@,
            e.is_tick == is_tick,
    {
        SimEvent {
            tick: self.world.tick_number(),
            changed: collect(&self.world, coords),
            edits: Vec::new(),
            removed,
            live_count: self.live_count(),
            initial: false,
            is_tick,
        }
    }

    /// The first event: all chunks, so that the hub can fill its mirror.
    pub fn initial_event(&self) -> (e: SimEvent)
        ensures
            exists|s: Seq<(ChunkCoord, Chunk)>| #[trigger]
                self@.world.lists(s) && e.changed@.len() == s.len() && forall|i: int|
                    0 <= i < s.len() ==> snap_of(s[i].0, s[i].1, #[trigger] e.changed@[i]),
            e.tick == self@.world.tick,
            e.edits@.len() == 0,
            e.removed@.len() == 0,
            e.live_count == self@.world.counted(),
            e.initial,
            !e.is_tick,
    {
        let all = self.world.iter_chunks();
        let ghost s = all@.map_values(|e: (ChunkCoord, &Chunk)| (e.0, *e.1));
        let mut changed: Vec<ChunkSnap> = Vec::new();
        let mut i: usize = 0;
        while i < all.len()
            invariant
                i <= all.len(),
                changed@.len() == i,
                s == all@.map_values(|e: (ChunkCoord, &Chunk)| (e.0, *e.1)),
                forall|k: int|
                    0 <= k < i ==> snap_of(s[k].0, s[k].1, #[trigger] changed@[k]),
            decreases all.len() - i,
        {
            let sn = snap(all[i].0, all[i].1);
            changed.push(sn);
            i = i + 1;
        }
        assert(self@.world.lists(s));
        SimEvent {
            tick: self.world.tick_number(),
            changed,
            edits: Vec::new(),
            removed: Vec::new(),
            live_count: self.live_count(),
            initial: true,
            is_tick: false,
        }
    }
}

/// Waking one more chunk.
proof fn lemma_woken_push(w: WorldState, s: Seq<ChunkCoord>, c: ChunkCoord)
    ensures
        w.woken(s.push(c).to_set()) == w.woken(s.to_set()).woken(set![c]),
        w.woken(Set::empty()) == w,
{
    sort::lemma_push_contains(s, c);
    let a = w.woken(s.push(c).to_set());
    let b = w.woken(s.to_set()).woken(set![c]);
    assert forall|d: ChunkCoord| #[trigger] s.push(c).to_set().contains(d) == (s.to_set().contains(
        d,
    ) || d == c) by {}
    assert(a.chunks =~= b.chunks);
    assert(a.oscillators =~= b.oscillators);
    let z = w.woken(Set::empty());
    assert(z.chunks =~= w.chunks);
    assert(z.oscillators =~= w.oscillators);
}

/// Forgetting one more chunk.
proof fn lemma_forgotten_push(d: DetectorState, s: Seq<ChunkCoord>, c: ChunkCoord)
    ensures
        d.forgetting(s.push(c).to_set()) == d.forgetting(s.to_set()).forgotten(c),
        d.forgetting(Set::empty()) == d,
{
    sort::lemma_push_contains(s, c);
    assert forall|e: ChunkCoord| #[trigger] s.push(c).to_set().contains(e) == (s.to_set().contains(
        e,
    ) || e == c) by {}
    assert(d.forgetting(s.push(c).to_set()).rings =~= d.forgetting(s.to_set()).forgotten(c).rings);
    assert(d.forgetting(Set::empty()).rings =~= d.rings);
}

impl DetectorState {
    /// The detector after it forgot the chunks in `s`.
    pub open spec fn forgetting(self, s: Set<ChunkCoord>) -> DetectorState {
        DetectorState { rings: self.rings.remove_keys(s), ..self }
    }
}

impl Sim {
    /// Wake the chunks at `coords` and have the detector forget them. Returns how many were
    /// paused.
    fn rouse(&mut self, det: &mut Detector, coords: &Vec<ChunkCoord>) -> (wakes: u64)
        requires
            old(self)@.world.wf(),
            old(det).wf(),
        ensures
            final(self)@ == (SimState {
                world: old(self)@.world.woken(coords@.to_set()),
                ..old(self)@
            }),
            final(self)@.world.wf(),
            final(det).wf(),
            final(det)@ == old(det)@.forgetting(coords@.to_set()),
            wakes == old(self)@.world.oscillators.dom().intersect(coords@.to_set()).len(),
    {
        let ghost w = self@.world;
        let ghost st = self@;
        let ghost d0 = det@;
        let mut wakes: u64 = 0;
        let mut i: usize = 0;
        proof {
            assert(coords@.take(0).to_set() =~= Set::<ChunkCoord>::empty());
            lemma_woken_push(w, Seq::empty(), (0, 0));
            lemma_forgotten_push(d0, Seq::empty(), (0, 0));
            assert(w.oscillators.dom().intersect(coords@.take(0).to_set()) =~= Set::<
                ChunkCoord,
            >::empty());
        }
        while i < coords.len()
            invariant
                i <= coords.len(),
                self@.world.wf(),
                det.wf(),
                self@ == (SimState { world: w.woken(coords@.take(i as int).to_set()), ..st }),
                det@ == d0.forgetting(coords@.take(i as int).to_set()),
                wakes == w.oscillators.dom().intersect(coords@.take(i as int).to_set()).len(),
                wakes <= i,
            decreases coords.len() - i,
        {
            let c = coords[i];
            let ghost done = coords@.take(i as int);
            let ghost before = self@.world;
            proof {
                assert(coords@.take(i + 1) =~= done.push(c));
                sort::lemma_push_contains(done, c);
                lemma_woken_push(w, done, c);
                lemma_forgotten_push(d0, done, c);
            }
            if self.world.wake_if_paused(c) {
                proof {
                    let s = w.oscillators.dom().intersect(done.to_set());
                    let t = w.oscillators.dom().intersect(done.push(c).to_set());
                    assert(before.oscillators.contains_key(c));
                    assert(!s.contains(c));
                    assert(t =~= s.insert(c));
                    vstd::seq_lib::seq_to_set_is_finite(done);
                    assert(s.finite()) by {
                        assert(s =~= done.to_set().intersect(w.oscillators.dom()));
                    }
                    assert(t.len() == s.len() + 1);
                }
                wakes = wakes + 1;
            } else {
                proof {
                    assert(w.oscillators.dom().intersect(done.push(c).to_set())
                        =~= w.oscillators.dom().intersect(done.to_set())) by {
                        assert(!before.oscillators.contains_key(c));
                    }
                }
            }
            proof {
                assert(self@.world =~= before.woken(set![c])) by {
                    assert(self@.world.chunks =~= before.woken(set![c]).chunks);
                    assert(self@.world.oscillators =~= before.woken(set![c]).oscillators);
                }
            }
            det.forget(c);
            i = i + 1;
        }
        assert(coords@.take(i as int) =~= coords@);
        wakes
    }

    /// Apply edits: wake the chunks that they are in, set the cells, and tell of these chunks.
    /// Also returns how many chunks were woken.
    pub fn edit(&mut self, det: &mut Detector, cells: &Vec<EditCell>) -> (r: (SimEvent, u64))
        requires
            old(self)@.world.wf(),
            old(det).wf(),
            forall|i: int|
                0 <= i < cells@.len() ==> world::addressable(
                    wal::cell_x(#[trigger] cells@[i]),
                    wal::cell_y(cells@[i]),
                ),
        ensures
            final(self)@ == (SimState {
                world: wal::edited_all(
                    old(self)@.world.woken(homes(cells@).to_set()),
                    cells@,
                ),
                ..old(self)@
            }),
            final(self)@.world.wf(),
            final(det).wf(),
            final(det)@ == old(det)@.forgetting(homes(cells@).to_set()),
            tells(r.0, final(self)@.world, touched(cells@)),
            edits_view(r.0.edits@) == touched(cells@).map_values(
                |c: ChunkCoord| (c, cells_in(cells@, c)),
            ),
            r.0.removed@.len() == 0,
            !r.0.is_tick,
            r.1 == old(self)@.world.oscillators.dom().intersect(homes(cells@).to_set()).len(),
    {
        let coords = homes_of(cells);
        let wakes = self.rouse(det, &coords);
        let ghost st = self@;
        let ghost all = wal::edited_all(st.world, cells@);
        let mut i: usize = 0;
        assert(cells@.skip(0) =~= cells@);
        while i < cells.len()
            invariant
                i <= cells.len(),
                self@.world.wf(),
                self@ == (SimState { world: self@.world, ..st }),
                wal::edited_all(self@.world, cells@.skip(i as int)) == all,
                forall|k: int|
                    0 <= k < cells@.len() ==> world::addressable(
                        wal::cell_x(#[trigger] cells@[k]),
                        wal::cell_y(cells@[k]),
                    ),
            decreases cells.len() - i,
        {
            let c = cells[i];
            proof {
                assert(cells@.skip(i as int)[0] == c);
                assert(cells@.skip(i as int).drop_first() =~= cells@.skip(i + 1));
                assert(world::addressable(wal::cell_x(cells@[i as int]), wal::cell_y(cells@[i as int])));
            }
            let x: i64 = c.cx as i64 * CHUNK_SIZE_I64 + c.lx as i64;
            let y: i64 = c.cy as i64 * CHUNK_SIZE_I64 + c.ly as i64;
            self.world.set_cell(x, y, c.alive);
            i = i + 1;
        }
        assert(cells@.skip(i as int) =~= Seq::<EditCell>::empty());
        let (order, edits) = by_chunk(cells);
        let event = SimEvent { edits, ..self.event(&order, Vec::new(), false) };
        (event, wakes)
    }
}

/// The chunks of edited cells.
fn homes_of(cells: &Vec<EditCell>) -> (r: Vec<ChunkCoord>)
    ensures
        r@ == homes(cells@),
{
    let mut r: Vec<ChunkCoord> = Vec::new();
    let mut i: usize = 0;
    while i < cells.len()
        invariant
            i <= cells.len(),
            r@.len() == i,
            forall|k: int| 0 <= k < i ==> #[trigger] r@[k] == (cells@[k].cx, cells@[k].cy),
        decreases cells.len() - i,
    {
        r.push((cells[i].cx, cells[i].cy));
        i = i + 1;
    }
    assert(r@ =~= homes(cells@));
    r
}

/// Edited cells by chunk, and the chunks in the order in which they come up.
fn by_chunk(cells: &Vec<EditCell>) -> (r: (Vec<ChunkCoord>, Vec<(ChunkCoord, Vec<EditCell>)>))
    ensures
        r.0@ == touched(cells@),
        edits_view(r.1@) == touched(cells@).map_values(|c: ChunkCoord| (c, cells_in(cells@, c))),
{
    let mut order: Vec<ChunkCoord> = Vec::new();
    let mut groups: CoordMap<Vec<EditCell>> = CoordMap::new();
    let mut i: usize = 0;
    proof {
        assert(cells@.take(0) =~= Seq::<EditCell>::empty());
    }
    while i < cells.len()
        invariant
            i <= cells.len(),
            order@ == touched(cells@.take(i as int)),
            order@.no_duplicates(),
            forall|c: ChunkCoord| #[trigger] groups@.contains_key(c) <==> order@.contains(c),
            forall|c: ChunkCoord| #[trigger]
                groups@.contains_key(c) ==> groups@[c]@ == cells_in(cells@.take(i as int), c),
            forall|c: ChunkCoord|
                !groups@.contains_key(c) ==> #[trigger] cells_in(cells@.take(i as int), c)
                    == Seq::<EditCell>::empty(),
        decreases cells.len() - i,
    {
        let e = cells[i];
        let c = (e.cx, e.cy);
        let ghost done = cells@.take(i as int);
        let ghost g0 = groups@;
        let ghost o0 = order@;
        proof {
            assert(cells@.take(i + 1) =~= done.push(e));
            assert(done.push(e).drop_last() =~= done);
            assert forall|d: ChunkCoord| #[trigger] cells_in(done.push(e), d) == (if d == c {
                cells_in(done, d).push(e)
            } else {
                cells_in(done, d)
            }) by {
                done.lemma_filter_push(e, |x: EditCell| (x.cx, x.cy) == d);
            }
        }
        if !groups.contains_key(&c) {
            order.push(c);
            proof {
                sort::lemma_push_contains(o0, c);
                sort::lemma_push_distinct(o0, c);
            }
        }
        assert(order@ == touched(done.push(e)));
        let group = groups.slot(c, Vec::new());
        assert(group@ == cells_in(done, c));
        group.push(e);
        i = i + 1;
        proof {
            assert forall|d: ChunkCoord| #[trigger] groups@.contains_key(d) implies groups@[d]@
                == cells_in(cells@.take(i as int), d) by {
                assert(cells_in(done.push(e), d) == cells_in(cells@.take(i as int), d));
                if d != c {
                    assert(g0.contains_key(d));
                }
            }
        }
    }
    assert(cells@.take(i as int) =~= cells@);
    let ghost full = groups@;
    let mut edits: Vec<(ChunkCoord, Vec<EditCell>)> = Vec::new();
    let mut k: usize = 0;
    while k < order.len()
        invariant
            k <= order.len(),
            edits@.len() == k,
            order@.no_duplicates(),
            forall|c: ChunkCoord| #[trigger] full.contains_key(c) <==> order@.contains(c),
            forall|c: ChunkCoord| #[trigger]
                full.contains_key(c) ==> full[c]@ == cells_in(cells@, c),
            forall|j: int|
                k <= j < order@.len() ==> groups@.contains_key(#[trigger] order@[j])
                    && groups@[order@[j]] == full[order@[j]],
            forall|j: int|
                0 <= j < k ==> (#[trigger] edits@[j]).0 == order@[j] && edits@[j].1@ == cells_in(
                    cells@,
                    order@[j],
                ),
        decreases order.len() - k,
    {
        let c = order[k];
        assert(order@.contains(order@[k as int]));
        let group = match groups.remove(&c) {
            Some(g) => g,
            None => Vec::new(),
        };
        assert(full.contains_key(c));
        assert(group@ == cells_in(cells@, c));
        edits.push((c, group));
        k = k + 1;
    }
    assert(edits_view(edits@) =~= touched(cells@).map_values(
        |c: ChunkCoord| (c, cells_in(cells@, c)),
    ));
    (order, edits)
}

/// Removing one more chunk.
proof fn lemma_without_push(w: WorldState, s: Seq<ChunkCoord>, c: ChunkCoord)
    ensures
        w.without(s.push(c).to_set()) == w.without(s.to_set()).without(set![c]),
        w.without(Set::empty()) == w,
{
    sort::lemma_push_contains(s, c);
    let a = w.without(s.push(c).to_set());
    let b = w.without(s.to_set()).without(set![c]);
    assert forall|d: ChunkCoord| #[trigger] s.push(c).to_set().contains(d) == (s.to_set().contains(
        d,
    ) || d == c) by {}
    assert(a.chunks =~= b.chunks);
    assert(a.oscillators =~= b.oscillators);
    assert(w.without(Set::empty()).chunks =~= w.chunks);
    assert(w.without(Set::empty()).oscillators =~= w.oscillators);
}

impl SimState {
    /// The chunks of `coords` that nobody observed.
    pub open spec fn unwatched(self, coords: Set<ChunkCoord>) -> Set<ChunkCoord> {
        coords.difference(self.watched)
    }
}

impl Sim {
    /// Drop chunks that were reaped. The hub has told of it, so no event comes of this.
    pub fn reap(&mut self, det: &mut Detector, coords: &Vec<ChunkCoord>)
        requires
            old(self)@.world.wf(),
            old(det).wf(),
        ensures
            final(self)@ == (SimState {
                world: old(self)@.world.without(coords@.to_set()),
                ..old(self)@
            }),
            final(self)@.world.wf(),
            final(det).wf(),
            final(det)@ == old(det)@.forgetting(coords@.to_set()),
    {
        let ghost w = self@.world;
        let ghost st = self@;
        let ghost d0 = det@;
        let mut i: usize = 0;
        proof {
            assert(coords@.take(0).to_set() =~= Set::<ChunkCoord>::empty());
            lemma_without_push(w, Seq::empty(), (0, 0));
            lemma_forgotten_push(d0, Seq::empty(), (0, 0));
        }
        while i < coords.len()
            invariant
                i <= coords.len(),
                self@.world.wf(),
                det.wf(),
                self@ == (SimState { world: w.without(coords@.take(i as int).to_set()), ..st }),
                det@ == d0.forgetting(coords@.take(i as int).to_set()),
            decreases coords.len() - i,
        {
            let c = coords[i];
            let ghost done = coords@.take(i as int);
            let ghost before = self@.world;
            proof {
                assert(coords@.take(i + 1) =~= done.push(c));
                lemma_without_push(w, done, c);
                lemma_forgotten_push(d0, done, c);
            }
            self.world.remove_chunk(c);
            proof {
                assert(self@.world.chunks =~= before.without(set![c]).chunks);
                assert(self@.world.oscillators =~= before.without(set![c]).oscillators);
            }
            det.forget(c);
            i = i + 1;
        }
        assert(coords@.take(i as int) =~= coords@);
    }

    /// Note chunks as observed. Those that nobody observed before are woken and forgotten by the
    /// detector; if any of them was paused, the event tells of those.
    pub fn subscribe(&mut self, det: &mut Detector, coords: &Vec<ChunkCoord>) -> (r: Option<
        SimEvent,
    >)
        requires
            old(self)@.world.wf(),
            old(det).wf(),
        ensures
            ({
                let fresh = old(self)@.unwatched(coords@.to_set());
                let paused = fresh.intersect(old(self)@.world.oscillators.dom());
                &&& final(self)@ == (SimState {
                    world: old(self)@.world.woken(fresh),
                    watched: old(self)@.watched.union(coords@.to_set()),
                    ..old(self)@
                })
                &&& final(self)@.world.wf()
                &&& final(det).wf()
                &&& final(det)@ == old(det)@.forgetting(fresh)
                &&& match r {
                    Some(e) => {
                        &&& exists|order: Seq<ChunkCoord>| #[trigger]
                            order.no_duplicates() && order.to_set() == paused && order.len() > 0
                                && tells(e, final(self)@.world, order)
                        &&& e.edits@.len() == 0
                        &&& e.removed@.len() == 0
                        &&& !e.is_tick
                    },
                    None => paused == Set::<ChunkCoord>::empty(),
                }
            }),
    {
        let ghost w = self@.world;
        let ghost st = self@;
        let mut fresh: Vec<ChunkCoord> = Vec::new();
        let mut woken: Vec<ChunkCoord> = Vec::new();
        let mut i: usize = 0;
        proof {
            assert(coords@.take(0).to_set() =~= Set::<ChunkCoord>::empty());
            assert(st.watched.union(Set::empty()) =~= st.watched);
            assert(st.unwatched(Set::empty()) =~= Set::<ChunkCoord>::empty());
            assert(fresh@.to_set() =~= Set::<ChunkCoord>::empty());
            assert(woken@.to_set() =~= Set::<ChunkCoord>::empty());
        }
        while i < coords.len()
            invariant
                i <= coords.len(),
                w == st.world,
                self@ == (SimState {
                    watched: st.watched.union(coords@.take(i as int).to_set()),
                    ..st
                }),
                fresh@.to_set() == st.unwatched(coords@.take(i as int).to_set()),
                woken@.no_duplicates(),
                woken@.to_set() == fresh@.to_set().intersect(w.oscillators.dom()),
            decreases coords.len() - i,
        {
            let c = coords[i];
            let ghost done = coords@.take(i as int);
            let ghost f0 = fresh@;
            let ghost k0 = woken@;
            proof {
                assert(coords@.take(i + 1) =~= done.push(c));
                sort::lemma_push_contains(done, c);
                sort::lemma_push_contains(f0, c);
                sort::lemma_push_contains(k0, c);
                assert forall|d: ChunkCoord| #[trigger] done.push(c).to_set().contains(d) == (
                done.to_set().contains(d) || d == c) by {}
                assert forall|d: ChunkCoord| #[trigger] f0.push(c).to_set().contains(d) == (
                f0.to_set().contains(d) || d == c) by {}
                assert forall|d: ChunkCoord| #[trigger] k0.push(c).to_set().contains(d) == (
                k0.to_set().contains(d) || d == c) by {}
            }
            if self.subscribed.insert(c, ()).is_none() {
                fresh.push(c);
                if self.world.is_oscillating(c) {
                    proof {
                        assert(!f0.to_set().contains(c));
                        assert(!k0.to_set().contains(c));
                        sort::lemma_push_distinct(k0, c);
                    }
                    woken.push(c);
                }
            }
            proof {
                assert(self@.watched =~= st.watched.union(done.push(c).to_set()));
                assert(fresh@.to_set() =~= st.unwatched(done.push(c).to_set()));
                assert(woken@.to_set() =~= fresh@.to_set().intersect(w.oscillators.dom()));
            }
            i = i + 1;
        }
        assert(coords@.take(i as int) =~= coords@);
        self.rouse(det, &fresh);
        if woken.len() == 0 {
            assert(woken@.to_set() =~= Set::<ChunkCoord>::empty());
            return None;
        }
        let e = self.event(&woken, Vec::new(), false);
        Some(e)
    }

    /// Note chunks as not observed any more.
    pub fn unsubscribe(&mut self, coords: &Vec<ChunkCoord>)
        ensures
            final(self)@ == (SimState {
                watched: old(self)@.watched.difference(coords@.to_set()),
                ..old(self)@
            }),
    {
        let ghost st = self@;
        let mut i: usize = 0;
        proof {
            assert(coords@.take(0).to_set() =~= Set::<ChunkCoord>::empty());
            assert(st.watched.difference(Set::empty()) =~= st.watched);
        }
        while i < coords.len()
            invariant
                i <= coords.len(),
                self@ == (SimState {
                    watched: st.watched.difference(coords@.take(i as int).to_set()),
                    ..st
                }),
            decreases coords.len() - i,
        {
            let c = coords[i];
            let ghost done = coords@.take(i as int);
            self.subscribed.remove(&c);
            proof {
                assert(coords@.take(i + 1) =~= done.push(c));
                sort::lemma_push_contains(done, c);
                assert forall|d: ChunkCoord| #[trigger] done.push(c).to_set().contains(d) == (
                done.to_set().contains(d) || d == c) by {}
                assert(self@.watched =~= st.watched.difference(done.push(c).to_set()));
            }
            i = i + 1;
        }
        assert(coords@.take(i as int) =~= coords@);
    }

    /// Replace the owned-chunk set.
    pub fn set_owned(&mut self, owned: CoordMap<()>)
        ensures
            final(self)@ == (SimState {
                world: WorldState { owned: owned@.dom(), ..old(self)@.world },
                ..old(self)@
            }),
            old(self)@.world.wf() ==> final(self)@.world.wf(),
    {
        self.world.set_owned_chunks(owned);
    }
}

/// Where promote requests have led so far.
#[verifier::ext_equal]
pub struct Promoting {
    pub world: WorldState,
    /// Number of chunks that were paused.
    pub count: nat,
    /// Requests that could not be met.
    pub failed: Seq<PromoteRequest>,
}

impl SimState {
    /// Whether the chunk of a promote request is looked at: it is awake, nothing in it is frozen,
    /// nobody observes it, and the period is one that can be detected.
    pub open spec fn probes(self, q: PromoteRequest) -> bool {
        &&& !self.watched.contains(q.coord)
        &&& 1 <= q.period <= MAX_PERIOD
        &&& self.world.chunks.contains_key(q.coord)
        &&& self.world.chunks[q.coord].frozen is None
    }

    /// What becomes of promote requests, one after the other: those for observed chunks are passed
    /// over, and chunks that can be paused are.
    pub open spec fn promoting(self, reqs: Seq<PromoteRequest>) -> Promoting
        decreases reqs.len(),
    {
        if reqs.len() == 0 {
            Promoting { world: self.world, count: 0, failed: Seq::empty() }
        } else {
            let s = self.promoting(reqs.drop_last());
            let q = reqs.last();
            if self.watched.contains(q.coord) {
                s
            } else if s.world.pausable(q.coord, q.period) {
                Promoting {
                    world: s.world.pausing(q.coord, q.period),
                    count: s.count + 1,
                    failed: s.failed,
                }
            } else {
                Promoting { failed: s.failed.push(q), ..s }
            }
        }
    }
}

/// Where groups that are to be paused have led so far.
#[verifier::ext_equal]
pub struct Gathering {
    pub world: WorldState,
    pub detector: DetectorState,
    /// Chunks that were paused.
    pub paused: Set<ChunkCoord>,
    /// Number of chunks that were paused.
    pub count: nat,
}

impl SimState {
    /// What becomes of groups, one after the other: those that share a chunk with one that was
    /// paused are passed over, and groups that can be paused are. The detector forgets the chunks
    /// of those.
    pub open spec fn gathering(
        self,
        detector: DetectorState,
        groups: Seq<(Vec<ChunkCoord>, u8)>,
    ) -> Gathering
        decreases groups.len(),
    {
        if groups.len() == 0 {
            Gathering { world: self.world, detector, paused: Set::empty(), count: 0 }
        } else {
            let p = self.gathering(detector, groups.drop_last());
            let s = groups.last().0@.to_set();
            let period = groups.last().1;
            if s.disjoint(p.paused) && p.world.pausable_together(s, period) {
                Gathering {
                    world: p.world.pausing_together(s, period),
                    detector: p.detector.forgetting(s),
                    paused: p.paused.union(s),
                    count: p.count + s.len(),
                }
            } else {
                p
            }
        }
    }
}

/// Of the chunks that are awake as many are gone as were paused together.
proof fn lemma_paused_count(w: WorldState, s: Set<ChunkCoord>, period: u8)
    requires
        w.chunks.dom().finite(),
        w.pausable_together(s, period),
    ensures
        w.pausing_together(s, period).chunks.len() + s.len() == w.chunks.len(),
{
    let rest = w.chunks.remove_keys(s).dom();
    assert forall|c: ChunkCoord| #[trigger] s.contains(c) implies w.chunks.dom().contains(c) by {
        assert(w.sociable(c));
    }
    assert(rest =~= w.chunks.dom().difference(s));
    assert(s =~= w.chunks.dom().intersect(s));
    assert(rest + s =~= w.chunks.dom());
    vstd::set_lib::lemma_set_disjoint_lens(rest, s);
}

/// Whether some of `coords` is in `set`.
fn any_in(coords: &Vec<ChunkCoord>, set: &CoordMap<()>) -> (b: bool)
    ensures
        b == !coords@.to_set().disjoint(set@.dom()),
{
    let mut i: usize = 0;
    while i < coords.len()
        invariant
            i <= coords.len(),
            forall|j: int| 0 <= j < i ==> !set@.contains_key(#[trigger] coords@[j]),
        decreases coords.len() - i,
    {
        if set.contains_key(&coords[i]) {
            assert(coords@.to_set().contains(coords@[i as int]));
            return true;
        }
        i = i + 1;
    }
    assert forall|c: ChunkCoord| coords@.to_set().contains(c) implies !set@.dom().contains(c) by {
        let j = choose|j: int| 0 <= j < coords@.len() && coords@[j] == c;
        assert(!set@.contains_key(coords@[j]));
    }
    false
}

/// Add `coords` to `set`, and have the detector forget them.
fn retire(coords: &Vec<ChunkCoord>, set: &mut CoordMap<()>, det: &mut Detector)
    requires
        old(det).wf(),
    ensures
        final(set)@.dom() == old(set)@.dom().union(coords@.to_set()),
        final(det).wf(),
        final(det)@ == old(det)@.forgetting(coords@.to_set()),
{
    let ghost s0 = set@.dom();
    let ghost d0 = det@;
    let mut i: usize = 0;
    proof {
        assert(coords@.take(0).to_set() =~= Set::<ChunkCoord>::empty());
        assert(s0.union(Set::empty()) =~= s0);
        lemma_forgotten_push(d0, Seq::empty(), (0, 0));
    }
    while i < coords.len()
        invariant
            i <= coords.len(),
            det.wf(),
            set@.dom() == s0.union(coords@.take(i as int).to_set()),
            det@ == d0.forgetting(coords@.take(i as int).to_set()),
        decreases coords.len() - i,
    {
        let c = coords[i];
        let ghost done = coords@.take(i as int);
        proof {
            assert(coords@.take(i + 1) =~= done.push(c));
            sort::lemma_push_contains(done, c);
            lemma_forgotten_push(d0, done, c);
            assert forall|d: ChunkCoord| #[trigger] done.push(c).to_set().contains(d) == (
            done.to_set().contains(d) || d == c) by {}
        }
        set.insert(c, ());
        det.forget(c);
        assert(set@.dom() =~= s0.union(done.push(c).to_set()));
        i = i + 1;
    }
    assert(coords@.take(i as int) =~= coords@);
}

impl WorldState {
    /// The world with chunk `c` paused.
    pub open spec fn pausing(self, c: ChunkCoord, period: u8) -> WorldState {
        WorldState {
            chunks: self.chunks.remove(c),
            oscillators: self.oscillators.insert(
                c,
                Paused {
                    chunk: self.chunks[c],
                    period,
                    paused_at_tick: self.tick,
                    group: None,
                },
            ),
            ..self
        }
    }

    /// Whether something hangs together around `c` that makes a group of at most `max` chunks.
    pub open spec fn has_group(self, watched: Set<ChunkCoord>, c: ChunkCoord, max: nat) -> bool {
        exists|g: Seq<ChunkCoord>| #[trigger] self.groups(watched, c, max, g)
    }
}

/// `found` are the groups around the requests in `failed` that have one.
pub open spec fn grouped(
    w: WorldState,
    watched: Set<ChunkCoord>,
    max: nat,
    failed: Seq<PromoteRequest>,
    found: Seq<(Vec<ChunkCoord>, u8)>,
) -> bool {
    let with = failed.filter(|q: PromoteRequest| w.has_group(watched, q.coord, max));
    &&& found.len() == with.len()
    &&& forall|i: int|
        0 <= i < found.len() ==> (#[trigger] found[i]).1 == with[i].period && w.groups(
            watched,
            with[i].coord,
            max,
            found[i].0@,
        )
}

impl Sim {
    /// Whether every chunk that promote requests look at lies off the rim of the coordinate range.
    pub fn can_promote(&self, reqs: &Vec<PromoteRequest>) -> (b: bool)
        ensures
            b == forall|i: int|
                0 <= i < reqs@.len() && self@.probes(#[trigger] reqs@[i]) ==> world::interior(
                    reqs@[i].coord,
                ),
    {
        let mut i: usize = 0;
        while i < reqs.len()
            invariant
                i <= reqs.len(),
                forall|k: int|
                    0 <= k < i && self@.probes(#[trigger] reqs@[k]) ==> world::interior(
                        reqs@[k].coord,
                    ),
            decreases reqs.len() - i,
        {
            let q = reqs[i];
            let (x, y) = q.coord;
            let inside = i32::MIN < x && x < i32::MAX && i32::MIN < y && y < i32::MAX;
            if !inside && 1 <= q.period && (q.period as usize) <= MAX_PERIOD
                && !self.subscribed.contains_key(&q.coord) {
                if let Some(c) = self.world.get_live_chunk(q.coord) {
                    if !c.is_frozen() {
                        assert(self@.probes(reqs@[i as int]));
                        return false;
                    }
                }
            }
            i = i + 1;
        }
        true
    }

    /// Pause the chunks of promote requests, as far as nobody observes them and they can be
    /// paused. For the others, find the groups that they are in, which [`Sim::promote_groups`]
    /// pauses.
    pub fn promote(&mut self, reqs: &Vec<PromoteRequest>, max_group: usize) -> (r: Promoted)
        requires
            old(self)@.world.wf(),
            forall|i: int|
                0 <= i < reqs@.len() && old(self)@.probes(#[trigger] reqs@[i]) ==> world::interior(
                    reqs@[i].coord,
                ),
        ensures
            ({
                let p = old(self)@.promoting(reqs@);
                &&& final(self)@ == (SimState { world: p.world, ..old(self)@ })
                &&& final(self)@.world.wf()
                &&& r.promotions == p.count
                &&& grouped(
                    p.world,
                    old(self)@.watched,
                    max_group as nat,
                    p.failed,
                    r.groups@,
                )
            }),
    {
        let ghost st = self@;
        let mut promotions: u64 = 0;
        let mut failed: Vec<PromoteRequest> = Vec::new();
        let mut i: usize = 0;
        assert(reqs@.take(0) =~= Seq::<PromoteRequest>::empty());
        while i < reqs.len()
            invariant
                i <= reqs.len(),
                self@.world.wf(),
                promotions <= i,
                self@ == (SimState { world: self@.world, ..st }),
                st.promoting(reqs@.take(i as int)) == (Promoting {
                    world: self@.world,
                    count: promotions as nat,
                    failed: failed@,
                }),
                forall|k: int|
                    0 <= k < reqs@.len() && st.probes(#[trigger] reqs@[k]) ==> world::interior(
                        reqs@[k].coord,
                    ),
                forall|c: ChunkCoord| #[trigger]
                    self@.world.chunks.contains_key(c) ==> st.world.chunks.contains_key(c)
                        && self@.world.chunks[c] == st.world.chunks[c],
            decreases reqs.len() - i,
        {
            let req = reqs[i];
            proof {
                assert(reqs@.take(i + 1).drop_last() =~= reqs@.take(i as int));
                assert(reqs@.take(i + 1).last() == req);
                assert(st.probes(reqs@[i as int]) ==> world::interior(reqs@[i as int].coord));
            }
            if !self.subscribed.contains_key(&req.coord) {
                if self.world.promote_oscillator(req.coord, req.period) {
                    promotions = promotions + 1;
                } else {
                    failed.push(req);
                }
            }
            i = i + 1;
        }
        assert(reqs@.take(i as int) =~= reqs@);
        let groups = self.find_groups(&failed, max_group);
        Promoted { promotions, groups }
    }

    /// Pause groups of chunks, as far as they can be and share no chunk with a group that was, and
    /// have the detector forget their chunks. Returns how many chunks were paused.
    pub fn promote_groups(&mut self, det: &mut Detector, groups: &Vec<(Vec<ChunkCoord>, u8)>) -> (
        promotions: u64)
        requires
            old(self)@.world.wf(),
            old(det).wf(),
        ensures
            ({
                let p = old(self)@.gathering(old(det)@, groups@);
                &&& final(self)@ == (SimState { world: p.world, ..old(self)@ })
                &&& final(self)@.world.wf()
                &&& final(det).wf()
                &&& final(det)@ == p.detector
                &&& promotions == p.count
            }),
    {
        let ghost st = self@;
        let ghost d0 = det@;
        let total = self.world.live_len();
        let mut paused: CoordMap<()> = CoordMap::new();
        let mut i: usize = 0;
        proof {
            assert(groups@.take(0) =~= Seq::<(Vec<ChunkCoord>, u8)>::empty());
            assert(paused@.dom() =~= Set::<ChunkCoord>::empty());
        }
        while i < groups.len()
            invariant
                i <= groups.len(),
                self@.world.wf(),
                det.wf(),
                self@ == (SimState { world: self@.world, ..st }),
                total == st.world.chunks.len(),
                self@.world.chunks.dom().finite(),
                ({
                    let p = st.gathering(d0, groups@.take(i as int));
                    &&& self@.world == p.world
                    &&& det@ == p.detector
                    &&& paused@.dom() == p.paused
                    &&& p.count + self@.world.chunks.len() == total
                }),
            decreases groups.len() - i,
        {
            let members = &groups[i].0;
            let period = groups[i].1;
            let ghost before = self@.world;
            proof {
                assert(groups@.take(i + 1).drop_last() =~= groups@.take(i as int));
                assert(groups@.take(i + 1).last() == groups@[i as int]);
            }
            if !any_in(members, &paused) {
                if self.world.promote_oscillator_group(members.as_slice(), period) {
                    proof {
                        lemma_paused_count(before, members@.to_set(), period);
                        assert(self@.world.chunks.dom().subset_of(before.chunks.dom()));
                    }
                    retire(members, &mut paused, det);
                }
            }
            i = i + 1;
        }
        assert(groups@.take(i as int) =~= groups@);
        (total - self.world.live_len()) as u64
    }

    /// The groups around requests.
    fn find_groups(&self, failed: &Vec<PromoteRequest>, max_group: usize) -> (found: Vec<
        (Vec<ChunkCoord>, u8),
    >)
        ensures
            grouped(self@.world, self@.watched, max_group as nat, failed@, found@),
    {
        let ghost w = self@.world;
        let ghost watched = self@.watched;
        let ghost max = max_group as nat;
        let ghost f = |q: PromoteRequest| w.has_group(watched, q.coord, max);
        let mut found: Vec<(Vec<ChunkCoord>, u8)> = Vec::new();
        let mut i: usize = 0;
        proof {
            assert(failed@.take(0) =~= Seq::<PromoteRequest>::empty());
            assert(failed@.take(0).filter(f) =~= Seq::<PromoteRequest>::empty()) by {
                reveal_with_fuel(Seq::filter, 1);
            }
        }
        while i < failed.len()
            invariant
                i <= failed.len(),
                w == self@.world,
                watched == self@.watched,
                max == max_group,
                f == (|q: PromoteRequest| w.has_group(watched, q.coord, max)),
                grouped(w, watched, max, failed@.take(i as int), found@),
            decreases failed.len() - i,
        {
            let req = failed[i];
            let ghost done = failed@.take(i as int);
            let ghost before = found@;
            proof {
                assert(failed@.take(i + 1) =~= done.push(req));
                done.lemma_filter_push(req, f);
            }
            match group::collect_group(req.coord, &self.world, &self.subscribed, max_group) {
                Some(g) => {
                    found.push((g, req.period));
                    proof {
                        assert(f(req));
                        let with = done.push(req).filter(f);
                        assert(with == done.filter(f).push(req));
                        assert forall|k: int| 0 <= k < found@.len() implies (
                        #[trigger] found@[k]).1 == with[k].period && w.groups(
                            watched,
                            with[k].coord,
                            max,
                            found@[k].0@,
                        ) by {
                            if k < before.len() {
                                assert(found@[k] == before[k]);
                            }
                        }
                    }
                },
                None => {
                    assert(!f(req));
                },
            }
            i = i + 1;
        }
        assert(failed@.take(i as int) =~= failed@);
        found
    }
}

impl DetectorState {
    /// The detector after it observed reports, one after the other.
    pub open spec fn observing(self, reports: Seq<HashReport>) -> DetectorState
        decreases reports.len(),
    {
        if reports.len() == 0 {
            self
        } else {
            self.observed(reports[0]).observing(reports.drop_first())
        }
    }
}

impl SimState {
    /// Whether a tick can be taken, and the next snapshot be scheduled behind it.
    pub open spec fn ready(self) -> bool {
        self.world.ready() && self.world.tick + 1 + self.interval <= u64::MAX
    }

    /// A tick that had the outcome `out` led to `next`, to what is told in `r`, and had the
    /// detector, which was `before`, learn of it.
    pub open spec fn ticked(
        self,
        next: SimState,
        out: TickOutcome,
        r: Ticked,
        before: DetectorState,
        after: DetectorState,
    ) -> bool {
        &&& exists|order: Seq<ChunkCoord>| self.world.reports(order, out)
        &&& tells(r.event, next.world, out.changed@)
        &&& r.event.removed@ == out.removed@
        &&& r.wakes == out.perturbation_wakes
        &&& after == before.forgetting(out.removed@.to_set()).observing(out.hash_reports@)
    }
}

impl Sim {
    /// Whether a tick can be taken, and the next snapshot be scheduled behind it.
    pub fn ready(&self) -> (b: bool)
        requires
            self@.world.wf(),
        ensures
            b == self@.ready(),
    {
        if !self.world.ready() {
            return false;
        }
        let left = u64::MAX - self.world.tick_number();
        left >= 1 && left - 1 >= self.snapshot_interval_ticks
    }

    /// Take a tick, have the detector learn of it, tell what changed, and schedule the next
    /// snapshot where one is due.
    pub fn tick(&mut self, det: &mut Detector) -> (r: Ticked)
        requires
            old(self)@.world.wf(),
            old(self)@.ready(),
            old(det).wf(),
        ensures
            final(self)@.world.wf(),
            final(det).wf(),
            old(self)@.world.ticks_to(final(self)@.world),
            exists|out: TickOutcome| #[trigger]
                old(self)@.ticked(final(self)@, out, r, old(det)@, final(det)@),
            r.event.edits@.len() == 0,
            r.event.is_tick,
            r.snapshot == (final(self)@.world.tick >= old(self)@.next_snapshot),
            final(self)@ == (SimState {
                world: final(self)@.world,
                next_snapshot: if r.snapshot {
                    (final(self)@.world.tick + old(self)@.interval) as u64
                } else {
                    old(self)@.next_snapshot
                },
                ..old(self)@
            }),
    {
        let ghost st = self@;
        let ghost d0 = det@;
        let outcome = self.world.tick();
        let ghost next = self@;
        let ghost out = outcome;
        let mut i: usize = 0;
        proof {
            assert(outcome.removed@.take(0).to_set() =~= Set::<ChunkCoord>::empty());
            lemma_forgotten_push(d0, Seq::empty(), (0, 0));
        }
        while i < outcome.removed.len()
            invariant
                i <= outcome.removed.len(),
                det.wf(),
                det@ == d0.forgetting(outcome.removed@.take(i as int).to_set()),
            decreases outcome.removed.len() - i,
        {
            let c = outcome.removed[i];
            proof {
                assert(outcome.removed@.take(i + 1) =~= outcome.removed@.take(i as int).push(c));
                lemma_forgotten_push(d0, outcome.removed@.take(i as int), c);
            }
            det.forget(c);
            i = i + 1;
        }
        assert(outcome.removed@.take(i as int) =~= outcome.removed@);
        let ghost d1 = det@;
        let mut k: usize = 0;
        assert(outcome.hash_reports@.skip(0) =~= outcome.hash_reports@);
        while k < outcome.hash_reports.len()
            invariant
                k <= outcome.hash_reports.len(),
                det.wf(),
                det@.observing(outcome.hash_reports@.skip(k as int)) == d1.observing(
                    outcome.hash_reports@,
                ),
            decreases outcome.hash_reports.len() - k,
        {
            let ghost rest = outcome.hash_reports@.skip(k as int);
            let report = outcome.hash_reports[k];
            proof {
                assert(rest[0] == report);
                assert(rest.drop_first() =~= outcome.hash_reports@.skip(k + 1));
            }
            det.observe(report);
            k = k + 1;
        }
        assert(outcome.hash_reports@.skip(k as int) =~= Seq::<HashReport>::empty());
        let wakes = outcome.perturbation_wakes;
        let event = self.event(&outcome.changed, outcome.removed, true);
        let now = self.world.tick_number();
        let snapshot = now >= self.next_snapshot_tick;
        if snapshot {
            self.next_snapshot_tick = now + self.snapshot_interval_ticks;
        }
        let r = Ticked { event, wakes, snapshot };
        proof {
            assert(st.ticked(self@, out, r, d0, det@));
        }
        r
    }
}

impl SimState {
    /// No chunk that somebody observes is paused.
    pub open spec fn attentive(self) -> bool {
        forall|c: ChunkCoord| #[trigger]
            self.watched.contains(c) ==> !self.world.oscillators.contains_key(c)
    }
}

/// Observed chunks are not paused: they are woken when somebody comes to observe them, promote
/// requests pass them over, and neither ticks nor edits nor reaping pause anything.
pub proof fn law_observed_chunks_are_not_paused(
    s: SimState,
    coords: Set<ChunkCoord>,
    reqs: Seq<PromoteRequest>,
    cells: Seq<EditCell>,
    next: WorldState,
)
    requires
        s.attentive(),
        s.world.ticks_to(next),
    ensures
        (SimState {
            world: s.world.woken(s.unwatched(coords)),
            watched: s.watched.union(coords),
            ..s
        }).attentive(),
        (SimState { watched: s.watched.difference(coords), ..s }).attentive(),
        (SimState { world: s.promoting(reqs).world, ..s }).attentive(),
        (SimState { world: next, ..s }).attentive(),
        (SimState {
            world: wal::edited_all(s.world.woken(homes(cells).to_set()), cells),
            ..s
        }).attentive(),
        (SimState { world: s.world.without(coords), ..s }).attentive(),
{
    let seen = SimState {
        world: s.world.woken(s.unwatched(coords)),
        watched: s.watched.union(coords),
        ..s
    };
    assert forall|c: ChunkCoord| #[trigger] seen.watched.contains(c) implies
        !seen.world.oscillators.contains_key(c) by {
        if s.watched.contains(c) {
            assert(!s.world.oscillators.contains_key(c));
        }
    }
    lemma_promoting_attentive(s, reqs);
    let ticked = SimState { world: next, ..s };
    assert forall|c: ChunkCoord| #[trigger] ticked.watched.contains(c) implies
        !ticked.world.oscillators.contains_key(c) by {
        assert(!s.world.oscillators.contains_key(c));
    }
    let up = s.world.woken(homes(cells).to_set());
    lemma_edits_pause_nothing(up, cells);
    assert(up.oscillators.dom().subset_of(s.world.oscillators.dom()));
}

/// Groups that are found for promote requests hold no observed chunk, so that none is paused with
/// them.
pub proof fn law_observed_chunks_are_in_no_group(
    s: SimState,
    detector: DetectorState,
    reqs: Seq<PromoteRequest>,
    max: nat,
    found: Seq<(Vec<ChunkCoord>, u8)>,
)
    requires
        s.attentive(),
        grouped(s.promoting(reqs).world, s.watched, max, s.promoting(reqs).failed, found),
    ensures
        ({
            let p = SimState { world: s.promoting(reqs).world, ..s };
            (SimState { world: p.gathering(detector, found).world, ..p }).attentive()
        }),
{
    let p = SimState { world: s.promoting(reqs).world, ..s };
    lemma_promoting_attentive(s, reqs);
    assert forall|i: int| 0 <= i < found.len() implies (#[trigger] found[i]).0@.to_set().disjoint(
        s.watched,
    ) by {
        let with = s.promoting(reqs).failed.filter(
            |q: PromoteRequest| p.world.has_group(s.watched, q.coord, max),
        );
        assert(p.world.groups(s.watched, with[i].coord, max, found[i].0@));
        assert forall|c: ChunkCoord| found[i].0@.to_set().contains(c) implies !s.watched.contains(
            c,
        ) by {
            assert(found[i].0@.contains(c));
        }
    }
    lemma_gathering_attentive(p, detector, found);
}

proof fn lemma_gathering_attentive(
    s: SimState,
    detector: DetectorState,
    groups: Seq<(Vec<ChunkCoord>, u8)>,
)
    requires
        s.attentive(),
        forall|i: int|
            0 <= i < groups.len() ==> (#[trigger] groups[i]).0@.to_set().disjoint(s.watched),
    ensures
        (SimState { world: s.gathering(detector, groups).world, ..s }).attentive(),
    decreases groups.len(),
{
    if groups.len() > 0 {
        let rest = groups.drop_last();
        assert forall|i: int| 0 <= i < rest.len() implies (#[trigger] rest[i]).0@.to_set().disjoint(
            s.watched,
        ) by {
            assert(rest[i] == groups[i]);
        }
        lemma_gathering_attentive(s, detector, rest);
        let before = SimState { world: s.gathering(detector, rest).world, ..s };
        assert(groups[groups.len() - 1].0@.to_set().disjoint(s.watched));
        assert forall|c: ChunkCoord| #[trigger] s.watched.contains(c) implies !s.gathering(
            detector,
            groups,
        ).world.oscillators.contains_key(c) by {
            assert(before.watched.contains(c));
        }
    }
}

proof fn lemma_promoting_attentive(s: SimState, reqs: Seq<PromoteRequest>)
    requires
        s.attentive(),
    ensures
        (SimState { world: s.promoting(reqs).world, ..s }).attentive(),
    decreases reqs.len(),
{
    if reqs.len() > 0 {
        lemma_promoting_attentive(s, reqs.drop_last());
        let before = SimState { world: s.promoting(reqs.drop_last()).world, ..s };
        assert forall|c: ChunkCoord| #[trigger] s.watched.contains(c) implies !s.promoting(
            reqs,
        ).world.oscillators.contains_key(c) by {
            assert(before.watched.contains(c));
        }
    }
}

proof fn lemma_edits_pause_nothing(w: WorldState, cells: Seq<EditCell>)
    ensures
        wal::edited_all(w, cells).oscillators == w.oscillators,
    decreases cells.len(),
{
    if cells.len() > 0 {
        let c = cells[0];
        lemma_edits_pause_nothing(
            w.edited(wal::cell_x(c), wal::cell_y(c), c.alive),
            cells.drop_first(),
        );
    }
}

} // verus!
