//! Sparse chunk-indexed world. Stepping grows into neighbor chunks as edges birth cells,
//! and drops chunks that go fully empty unless they're frozen.

use crate::bits;
use crate::chunk;
use crate::chunk::{Chunk, EdgeBundle, StepResult};
use crate::coord::{ChunkCoord, CoordMap};
use crate::ensemble;
use crate::oscillator::{Ensemble, Group, HashReport, Oscillator, Paused, MAX_PERIOD};
use crate::shared::{copied, share};
use crate::sort;
use crate::sort::Ranked;
use crate::{CHUNK_SIZE, CHUNK_SIZE_I64};
use std::sync::Arc;
use vstd::prelude::*;

verus! {

/// Whether all eight neighbors of `c` are chunk coordinates too.
pub open spec fn interior(c: ChunkCoord) -> bool {
    i32::MIN < c.0 < i32::MAX && i32::MIN < c.1 < i32::MAX
}

/// Whether `c` and `d` are two different chunks that share a side or a corner.
pub open spec fn adjacent(c: ChunkCoord, d: ChunkCoord) -> bool {
    c != d && -1 <= c.0 - d.0 <= 1 && -1 <= c.1 - d.1 <= 1
}

/// The coordinate `(dx, dy)` chunks away from `c`.
pub open spec fn shift(c: ChunkCoord, dx: int, dy: int) -> ChunkCoord {
    ((c.0 + dx) as i32, (c.1 + dy) as i32)
}

/// On which side of a chunk the local coordinate `x` lies: -1 before it, 1 past it, 0 in it.
pub open spec fn side(x: int) -> int {
    if x < 0 {
        -1
    } else if x >= CHUNK_SIZE {
        1
    } else {
        0
    }
}

/// Whether chunk `c` takes edges from its neighbor `d`: owned chunks take none from chunks that
/// are not owned.
pub open spec fn accepts(owned: Set<ChunkCoord>, c: ChunkCoord, d: ChunkCoord) -> bool {
    owned.contains(c) ==> owned.contains(d)
}

/// The chunk at `c`, or one with nothing alive and nothing frozen where there is none.
pub open spec fn lookup(m: Map<ChunkCoord, Chunk>, c: ChunkCoord) -> Chunk {
    if m.contains_key(c) {
        m[c]
    } else {
        Chunk { rows: [0u64;CHUNK_SIZE], frozen: None }
    }
}

/// The chunk at `c`, if there is one.
pub open spec fn entry(m: Map<ChunkCoord, Chunk>, c: ChunkCoord) -> Option<Chunk> {
    if m.contains_key(c) {
        Some(m[c])
    } else {
        None
    }
}

/// What chunk `c` sees: its own cells, and those of the neighbors that it takes edges from.
pub open spec fn plane(
    m: Map<ChunkCoord, Chunk>,
    owned: Set<ChunkCoord>,
    c: ChunkCoord,
) -> spec_fn(int, int) -> bool {
    |x: int, y: int|
        {
            let d = shift(c, side(x), side(y));
            accepts(owned, c, d) && lookup(m, d).cell(
                x - CHUNK_SIZE * side(x),
                y - CHUNK_SIZE * side(y),
            )
        }
}

/// Whether `d` has a live cell next to `c` that `c` takes notice of.
pub open spec fn reaches(
    m: Map<ChunkCoord, Chunk>,
    owned: Set<ChunkCoord>,
    d: ChunkCoord,
    c: ChunkCoord,
) -> bool {
    &&& m.contains_key(d)
    &&& adjacent(c, d)
    &&& accepts(owned, c, d)
    &&& m[d].touches(c.0 - d.0, c.1 - d.1)
}

/// Whether some neighbor reaches `c`.
pub open spec fn reached(
    m: Map<ChunkCoord, Chunk>,
    owned: Set<ChunkCoord>,
    c: ChunkCoord,
) -> bool {
    exists|d: ChunkCoord| reaches(m, owned, d, c)
}

/// A chunk by itself, with nothing alive around it.
pub open spec fn alone(c: Chunk) -> spec_fn(int, int) -> bool {
    |x: int, y: int| 0 <= x < CHUNK_SIZE && 0 <= y < CHUNK_SIZE && c.cell(x, y)
}

/// The chunk `n` steps on, by itself.
pub open spec fn coast(c: Chunk, n: nat) -> Chunk
    decreases n,
{
    if n == 0 {
        c
    } else {
        let p = coast(c, (n - 1) as nat);
        p.stepped(alone(p))
    }
}

/// Whether the chunk has no live cell on any of its sides.
pub open spec fn sealed(c: Chunk) -> bool {
    forall|dx: int, dy: int|
        -1 <= dx <= 1 && -1 <= dy <= 1 && (dx != 0 || dy != 0) ==> !#[trigger] c.touches(dx, dy)
}

impl Paused {
    /// Steps to make from the paused chunk to its phase at `tick`.
    pub open spec fn phase(self, tick: u64) -> nat {
        if tick < self.paused_at_tick {
            0
        } else {
            ((tick - self.paused_at_tick) % (self.period as int)) as nat
        }
    }

    /// The chunk, which is paused at `c`, `k` steps on: by itself, or as its group has it.
    pub open spec fn at(self, c: ChunkCoord, k: nat) -> Chunk {
        match self.group {
            None => coast(self.chunk, k),
            Some(g) => g.phases[k as int][c],
        }
    }

    /// The chunk, which is paused at `c`, in its phase at `tick`.
    pub open spec fn resumed(self, c: ChunkCoord, tick: u64) -> Chunk {
        self.at(c, self.phase(tick))
    }

    /// The chunks of the group that the chunk is paused with.
    pub open spec fn members(self) -> Set<ChunkCoord> {
        match self.group {
            None => Set::empty(),
            Some(g) => g.phases[0].dom(),
        }
    }

    /// Whether the chunk, which is paused at `c`, has a period that can be detected, and its
    /// group has it in every phase.
    pub open spec fn wf(self, c: ChunkCoord) -> bool {
        &&& 1 <= self.period <= MAX_PERIOD
        &&& self.group matches Some(g) ==> g.phases.len() == self.period && forall|k: int|
            0 <= k < self.period ==> (#[trigger] g.phases[k]).contains_key(c)
    }
}

/// What a world holds.
#[verifier::ext_equal]
pub struct WorldState {
    pub chunks: Map<ChunkCoord, Chunk>,
    pub oscillators: Map<ChunkCoord, Paused>,
    pub owned: Set<ChunkCoord>,
    pub tick: u64,
}

impl WorldState {
    /// Every paused chunk is well-formed.
    pub open spec fn wf(self) -> bool {
        forall|c: ChunkCoord| #[trigger]
            self.oscillators.contains_key(c) ==> self.oscillators[c].wf(c)
    }

    /// Whether chunk `d`, with which the chunk at `c` is paused, still is as it was: paused with
    /// `c`, and owned or not.
    pub open spec fn holds(self, c: ChunkCoord, d: ChunkCoord) -> bool {
        &&& self.oscillators.contains_key(d)
        &&& self.oscillators[d].members().contains(c)
        &&& self.owned.contains(d) == self.oscillators[c].group->0.owned.contains(d)
    }

    /// Whether the group that the chunk at `c` is paused with is disturbed: some chunk of it is
    /// reached from outside, or is not as it was.
    pub open spec fn stirred(self, c: ChunkCoord) -> bool {
        exists|d: ChunkCoord| #[trigger]
            self.oscillators[c].members().contains(d) && (!self.holds(c, d) || reached(
                self.chunks,
                self.owned,
                d,
            ))
    }

    /// Whether the paused chunk at `c` is woken by the next tick.
    pub open spec fn perturbed(self, c: ChunkCoord) -> bool {
        self.oscillators.contains_key(c) && (reached(self.chunks, self.owned, c) || self.stirred(c))
    }

    /// The chunks that take part in the next tick: those that are awake, and those woken by it.
    pub open spec fn awake(self) -> Map<ChunkCoord, Chunk> {
        Map::new(
            |c: ChunkCoord| self.chunks.contains_key(c) || self.perturbed(c),
            |c: ChunkCoord|
                if self.perturbed(c) {
                    self.oscillators[c].resumed(c, self.tick)
                } else {
                    self.chunks[c]
                },
        )
    }

    /// Whether the chunk at `c` is stepped by the next tick.
    pub open spec fn active(self, c: ChunkCoord) -> bool {
        ||| self.perturbed(c)
        ||| !lookup(self.awake(), c).blank()
        ||| reached(self.awake(), self.owned, c)
    }

    /// What chunk `c` sees during the next tick.
    pub open spec fn seen(self, c: ChunkCoord) -> spec_fn(int, int) -> bool {
        plane(self.awake(), self.owned, c)
    }

    /// Whether the step of chunk `c` is skipped, as nothing lives in it or just outside.
    pub open spec fn idle(self, c: ChunkCoord) -> bool {
        lookup(self.awake(), c).blank() && chunk::quiet(self.seen(c))
    }

    /// The chunk at `c` one generation on.
    pub open spec fn successor(self, c: ChunkCoord) -> Chunk {
        lookup(self.awake(), c).next(self.seen(c))
    }

    /// Whether the chunk at `c` is dropped by the next tick, or not made in the first place.
    pub open spec fn vanishes(self, c: ChunkCoord) -> bool {
        !self.idle(c) && self.successor(c).blank() && self.successor(c).frozen is None
    }

    /// What stands at `c` after the next tick.
    pub open spec fn outcome_at(self, c: ChunkCoord) -> Option<Chunk> {
        if !self.active(c) || self.idle(c) {
            entry(self.awake(), c)
        } else if self.vanishes(c) {
            None
        } else {
            Some(self.successor(c))
        }
    }

    /// Whether the step of chunk `c` counts as a change.
    pub open spec fn changes(self, c: ChunkCoord) -> bool {
        &&& !self.idle(c)
        &&& !self.vanishes(c)
        &&& self.awake().contains_key(c) ==> self.awake()[c].rows != self.successor(c).rows
    }

    /// Whether the step of chunk `c` drops it.
    pub open spec fn drops(self, c: ChunkCoord) -> bool {
        self.vanishes(c) && self.awake().contains_key(c)
    }

    /// What the tick reports of chunk `c`.
    pub open spec fn report(self, c: ChunkCoord) -> HashReport {
        HashReport {
            coord: c,
            hash: if self.idle(c) {
                if self.awake().contains_key(c) {
                    chunk::hash_rows(self.awake()[c].rows@, CHUNK_SIZE as nat)
                } else {
                    0
                }
            } else {
                chunk::hash_rows(self.successor(c).rows@, CHUNK_SIZE as nat)
            },
            halo_was_zero: chunk::quiet(self.seen(c)),
            tick: self.tick,
        }
    }

    /// `next` is this world one tick on.
    pub open spec fn ticks_to(self, next: WorldState) -> bool {
        &&& next.tick == self.tick + 1
        &&& next.owned == self.owned
        &&& forall|c: ChunkCoord| #[trigger]
            entry(next.chunks, c) == self.outcome_at(c)
        &&& next.oscillators == self.oscillators.remove_keys(
            Set::new(|c: ChunkCoord| self.perturbed(c)),
        )
    }

    /// `out` is what one tick of this world reports, with the active chunks taken in the order
    /// `order`.
    pub open spec fn reports(self, order: Seq<ChunkCoord>, out: TickOutcome) -> bool {
        &&& order.no_duplicates()
        &&& forall|c: ChunkCoord| #[trigger] order.contains(c) <==> self.active(c)
        &&& exists|woken: Seq<ChunkCoord>| #[trigger]
            sort::ascending(woken) && woken.no_duplicates() && (forall|c: ChunkCoord| #[trigger]
                woken.contains(c) <==> self.perturbed(c)) && out.changed@ == woken + order.filter(
                |c: ChunkCoord| self.changes(c),
            ) && out.perturbation_wakes == woken.len()
        &&& out.removed@ == order.filter(|c: ChunkCoord| self.drops(c))
        &&& out.hash_reports@ == order.filter(|c: ChunkCoord| !self.vanishes(c)).map_values(
            |c: ChunkCoord| self.report(c),
        )
    }

    /// No chunk that the next tick steps lies on the rim of the coordinate range, and the tick
    /// counter can be advanced.
    pub open spec fn can_tick(self) -> bool {
        &&& self.tick < u64::MAX
        &&& forall|c: ChunkCoord| #[trigger] self.active(c) ==> interior(c)
    }
}

/// What happened in a tick.
#[derive(Debug, Default)]
pub struct TickOutcome {
    pub changed: Vec<ChunkCoord>,
    pub removed: Vec<ChunkCoord>,
    pub hash_reports: Vec<HashReport>,
    /// Paused chunks woken by neighbor perturbation during this tick.
    pub perturbation_wakes: u32,
}

impl Clone for TickOutcome {
    fn clone(&self) -> (o: Self)
        ensures
            o.changed@ == self.changed@,
            o.removed@ == self.removed@,
            o.hash_reports@ == self.hash_reports@,
            o.perturbation_wakes == self.perturbation_wakes,
    {
        TickOutcome {
            changed: copied(&self.changed),
            removed: copied(&self.removed),
            hash_reports: copied(&self.hash_reports),
            perturbation_wakes: self.perturbation_wakes,
        }
    }
}

/// Sparse world of chunks.
#[derive(Debug)]
pub struct World {
    chunks: CoordMap<Chunk>,
    oscillators: CoordMap<Oscillator>,
    owned: CoordMap<()>,
    tick: u64,
}

impl View for World {
    type V = WorldState;

    closed spec fn view(&self) -> WorldState {
        WorldState {
            chunks: self.chunks@,
            oscillators: self.oscillators@.map_values(|o: Oscillator| o@),
            owned: self.owned@.dom(),
            tick: self.tick,
        }
    }
}

impl World {
    /// What the view says of the paused chunks.
    proof fn lemma_paused(&self)
        ensures
            self@.oscillators.dom() == self.oscillators@.dom(),
            self@.oscillators.len() == self.oscillators@.len(),
            forall|c: ChunkCoord| #[trigger]
                self.oscillators@.contains_key(c) ==> self@.oscillators.contains_key(c)
                    && self@.oscillators[c] == self.oscillators@[c]@,
    {
        assert(self@.oscillators.dom() =~= self.oscillators@.dom());
    }
}

/// `edges` has the edges of every chunk of `m` that is not blank, and of none but those of `m`.
pub open spec fn cached(edges: Map<ChunkCoord, EdgeBundle>, m: Map<ChunkCoord, Chunk>) -> bool {
    &&& forall|c: ChunkCoord| #[trigger]
        edges.contains_key(c) ==> m.contains_key(c) && m[c].bordered_by(edges[c])
    &&& forall|c: ChunkCoord| #[trigger]
        m.contains_key(c) && !edges.contains_key(c) ==> m[c].blank()
}

/// `edges` has the edges of the chunk of `m` at `c`, unless there is none or it is blank.
pub open spec fn cached_at(
    edges: Map<ChunkCoord, EdgeBundle>,
    m: Map<ChunkCoord, Chunk>,
    c: ChunkCoord,
) -> bool {
    &&& edges.contains_key(c) ==> m.contains_key(c) && m[c].bordered_by(edges[c])
    &&& m.contains_key(c) && !edges.contains_key(c) ==> m[c].blank()
}

pub proof fn lemma_cached(
    edges: Map<ChunkCoord, EdgeBundle>,
    m: Map<ChunkCoord, Chunk>,
    c: ChunkCoord,
)
    requires
        cached(edges, m),
    ensures
        cached_at(edges, m, c),
{
}

/// A chunk sees its own cells.
pub proof fn lemma_own_cells(m: Map<ChunkCoord, Chunk>, owned: Set<ChunkCoord>, c: ChunkCoord)
    ensures
        forall|x: int, y: int|
            0 <= x < CHUNK_SIZE && 0 <= y < CHUNK_SIZE ==> #[trigger] plane(m, owned, c)(x, y)
                == lookup(m, c).cell(x, y),
{
    assert(shift(c, 0, 0) == c);
    assert forall|x: int, y: int| 0 <= x < CHUNK_SIZE && 0 <= y < CHUNK_SIZE implies
        #[trigger] plane(m, owned, c)(x, y) == lookup(m, c).cell(x, y) by {
        assert(side(x) == 0 && side(y) == 0);
    }
}

/// The cached edges of the chunk at `d` as `c` sees them.
fn neighbor_edges(
    c: ChunkCoord,
    d: ChunkCoord,
    edges: &CoordMap<EdgeBundle>,
    owned: &CoordMap<()>,
    Ghost(m): Ghost<Map<ChunkCoord, Chunk>>,
) -> (e: EdgeBundle)
    requires
        cached_at(edges@, m, d),
    ensures
        accepts(owned@.dom(), c, d) ==> lookup(m, d).bordered_by(e),
        !accepts(owned@.dom(), c, d) ==> e.zero(),
{
    if owned.contains_key(&c) && !owned.contains_key(&d) {
        return EdgeBundle::empty();
    }
    match edges.get(&d) {
        Some(e) => *e,
        None => {
            let e = EdgeBundle::empty();
            proof {
                let v = lookup(m, d);
                v.lemma_blank();
                if !m.contains_key(d) {
                    assert(forall|y: int| 0 <= y < CHUNK_SIZE ==> v.rows[y] == 0);
                }
                assert(v.blank());
                assert forall|y: int| 0 <= y < 64 implies !bits::bit(0, y) by {
                    bits::lemma_bit_zero(y);
                }
                assert(!v.cell(0, 0) && !v.cell(0, CHUNK_SIZE - 1) && !v.cell(CHUNK_SIZE - 1, 0)
                    && !v.cell(CHUNK_SIZE - 1, CHUNK_SIZE - 1));
                assert(v.bordered_by(e));
            }
            e
        },
    }
}

/// The halo of chunk `c`, from the cached edges of its neighbors.
pub(crate) fn assemble_halo(
    c: ChunkCoord,
    edges: &CoordMap<EdgeBundle>,
    owned: &CoordMap<()>,
    Ghost(m): Ghost<Map<ChunkCoord, Chunk>>,
) -> (halo: EdgeBundle)
    requires
        interior(c),
        forall|d: ChunkCoord| adjacent(c, d) ==> #[trigger] cached_at(edges@, m, d),
    ensures
        halo.holds(plane(m, owned@.dom(), c)),
{
    let (x, y) = c;
    let above = neighbor_edges(c, (x, y - 1), edges, owned, Ghost(m));
    let below = neighbor_edges(c, (x, y + 1), edges, owned, Ghost(m));
    let left = neighbor_edges(c, (x - 1, y), edges, owned, Ghost(m));
    let right = neighbor_edges(c, (x + 1, y), edges, owned, Ghost(m));
    let tl = neighbor_edges(c, (x - 1, y - 1), edges, owned, Ghost(m));
    let tr = neighbor_edges(c, (x + 1, y - 1), edges, owned, Ghost(m));
    let bl = neighbor_edges(c, (x - 1, y + 1), edges, owned, Ghost(m));
    let br = neighbor_edges(c, (x + 1, y + 1), edges, owned, Ghost(m));
    let halo = EdgeBundle {
        top: above.bottom,
        bottom: below.top,
        left: left.right,
        right: right.left,
        corners: [tl.corners[3], tr.corners[2], bl.corners[1], br.corners[0]],
    };
    proof {
        let p = plane(m, owned@.dom(), c);
        assert(shift(c, 0, -1) == ((x, (y - 1) as i32)));
        assert(shift(c, 0, 1) == ((x, (y + 1) as i32)));
        assert(shift(c, -1, 0) == (((x - 1) as i32, y)));
        assert(shift(c, 1, 0) == (((x + 1) as i32, y)));
        assert(1u8 & 1 == 1 && 0u8 & 1 == 0) by (bit_vector);
        assert forall|u: int, v: int| #[trigger] chunk::on_rim(u, v) implies halo.at(u, v) == p(
            u,
            v,
        ) by {
            bits::lemma_bit_zero(u);
            bits::lemma_bit_zero(v);
        }
        lemma_holds(halo, p);
    }
    halo
}

/// A halo whose corners are flags holds a plane if it agrees with it cell by cell.
proof fn lemma_holds(halo: EdgeBundle, p: spec_fn(int, int) -> bool)
    requires
        forall|x: int, y: int| #[trigger] chunk::on_rim(x, y) ==> halo.at(x, y) == p(x, y),
        forall|k: int| 0 <= k < 4 ==> halo.corners[k] <= 1,
    ensures
        halo.holds(p),
{
    let n = CHUNK_SIZE as int;
    assert(1u8 & 1 == 1 && 0u8 & 1 == 0) by (bit_vector);
    if halo.zero() {
        assert forall|x: int, y: int| chunk::on_rim(x, y) implies !#[trigger] p(x, y) by {
            bits::lemma_bit_zero(x);
            bits::lemma_bit_zero(y);
            assert(!halo.at(x, y));
        }
    }
    if chunk::quiet(p) {
        bits::lemma_zero_iff_no_bit(halo.top);
        bits::lemma_zero_iff_no_bit(halo.bottom);
        bits::lemma_zero_iff_no_bit(halo.left);
        bits::lemma_zero_iff_no_bit(halo.right);
        assert forall|i: int| 0 <= i < 64 implies !bits::bit(halo.top, i) && !bits::bit(
            halo.bottom,
            i,
        ) && !bits::bit(halo.left, i) && !bits::bit(halo.right, i) by {
            assert(chunk::on_rim(i, -1) && !p(i, -1));
            assert(chunk::on_rim(i, n) && !p(i, n));
            assert(chunk::on_rim(-1, i) && !p(-1, i));
            assert(chunk::on_rim(n, i) && !p(n, i));
        }
        assert(chunk::on_rim(-1, -1) && !p(-1, -1));
        assert(chunk::on_rim(n, -1) && !p(n, -1));
        assert(chunk::on_rim(-1, n) && !p(-1, n));
        assert(chunk::on_rim(n, n) && !p(n, n));
        assert(halo.corners[0] == 0);
        assert(halo.corners[1] == 0);
        assert(halo.corners[2] == 0);
        assert(halo.corners[3] == 0);
    }
}

/// The edges of all chunks that are not blank.
pub(crate) fn edges_of(chunks: &CoordMap<Chunk>) -> (edges: CoordMap<EdgeBundle>)
    ensures
        cached(edges@, chunks@),
        forall|c: ChunkCoord| #[trigger]
            edges@.contains_key(c) <==> chunks@.contains_key(c) && !chunks@[c].blank(),
{
    let mut edges: CoordMap<EdgeBundle> = CoordMap::new();
    let coords = chunks.keys();
    let mut i: usize = 0;
    while i < coords.len()
        invariant
            i <= coords.len(),
            coords@.to_set() == chunks@.dom(),
            forall|c: ChunkCoord| #[trigger]
                edges@.contains_key(c) <==> chunks@.contains_key(c) && !chunks@[c].blank()
                    && coords@.take(i as int).contains(c),
            forall|c: ChunkCoord| #[trigger]
                edges@.contains_key(c) ==> chunks@[c].bordered_by(edges@[c]),
        decreases coords.len() - i,
    {
        let c = coords[i];
        proof {
            assert(coords@.to_set().contains(c));
            assert(coords@.take(i + 1) =~= coords@.take(i as int).push(c));
            assert(forall|d: ChunkCoord| #[trigger]
                coords@.take(i + 1).contains(d) <==> coords@.take(i as int).contains(d) || d == c)
                by {
                coords@.take(i as int).lemma_push_to_set_commute(c);
                sort::lemma_push_contains(coords@.take(i as int), c);
            }
        }
        if let Some(ch) = chunks.get(&c) {
            if !ch.is_empty() {
                edges.insert(c, ch.edges());
            }
        }
        i = i + 1;
    }
    proof {
        assert(coords@.take(i as int) =~= coords@);
        assert forall|c: ChunkCoord| chunks@.contains_key(c) implies coords@.contains(c) by {
            assert(coords@.to_set().contains(c));
        }
    }
    edges
}

/// Note that `d` is reached if `flag` is set and `d` takes edges from `c`.
fn note(set: &mut CoordMap<()>, flag: bool, c: ChunkCoord, d: ChunkCoord, owned: &CoordMap<()>)
    ensures
        forall|b: ChunkCoord| #[trigger]
            final(set)@.contains_key(b) <==> old(set)@.contains_key(b) || (b == d && flag
                && accepts(owned@.dom(), d, c)),
{
    if flag && !(owned.contains_key(&d) && !owned.contains_key(&c)) {
        set.insert(d, ());
    }
}

/// The coordinates that the chunks with the cached edges reach.
fn reach_set(
    edges: &CoordMap<EdgeBundle>,
    owned: &CoordMap<()>,
    Ghost(m): Ghost<Map<ChunkCoord, Chunk>>,
) -> (set: CoordMap<()>)
    requires
        cached(edges@, m),
        forall|c: ChunkCoord| #[trigger] edges@.contains_key(c) ==> interior(c),
    ensures
        forall|d: ChunkCoord| #[trigger]
            set@.contains_key(d) <==> reached(m, owned@.dom(), d),
{
    let mut set: CoordMap<()> = CoordMap::new();
    let coords = edges.keys();
    let ghost own = owned@.dom();
    let mut i: usize = 0;
    while i < coords.len()
        invariant
            i <= coords.len(),
            own == owned@.dom(),
            coords@.to_set() == edges@.dom(),
            cached(edges@, m),
            forall|c: ChunkCoord| #[trigger] edges@.contains_key(c) ==> interior(c),
            forall|d: ChunkCoord| #[trigger]
                set@.contains_key(d) <==> exists|j: int|
                    0 <= j < i && #[trigger] reaches(m, own, coords@[j], d),
        decreases coords.len() - i,
    {
        let c = coords[i];
        let ghost before = set@;
        proof {
            assert(coords@.to_set().contains(c));
            assert(edges@.contains_key(c));
        }
        if let Some(e) = edges.get(&c) {
            let (x, y) = c;
            note(&mut set, e.top != 0, c, (x, y - 1), owned);
            note(&mut set, e.bottom != 0, c, (x, y + 1), owned);
            note(&mut set, e.left != 0, c, (x - 1, y), owned);
            note(&mut set, e.right != 0, c, (x + 1, y), owned);
            note(&mut set, e.corners[0] != 0, c, (x - 1, y - 1), owned);
            note(&mut set, e.corners[1] != 0, c, (x + 1, y - 1), owned);
            note(&mut set, e.corners[2] != 0, c, (x - 1, y + 1), owned);
            note(&mut set, e.corners[3] != 0, c, (x + 1, y + 1), owned);
            proof {
                m[c].lemma_touches(*e);
                assert forall|d: ChunkCoord| #[trigger]
                    set@.contains_key(d) <==> before.contains_key(d) || reaches(m, own, c, d) by {
                    if adjacent(d, c) {
                        let dx = d.0 - c.0;
                        let dy = d.1 - c.1;
                        assert(dx == -1 || dx == 0 || dx == 1);
                        assert(dy == -1 || dy == 0 || dy == 1);
                    }
                }
            }
        }
        i = i + 1;
        proof {
            assert forall|d: ChunkCoord| #[trigger] set@.contains_key(d) <==> exists|j: int|
                0 <= j < i && #[trigger] reaches(m, own, coords@[j], d) by {
                if before.contains_key(d) {
                    let j = choose|j: int| 0 <= j < i - 1 && #[trigger] reaches(m, own, coords@[j], d);
                    assert(reaches(m, own, coords@[j], d));
                }
                if reaches(m, own, c, d) {
                    assert(reaches(m, own, coords@[i - 1], d));
                }
            }
        }
    }
    proof {
        assert forall|d: ChunkCoord| #[trigger] set@.contains_key(d) <==> reached(m, own, d) by {
            if reached(m, own, d) {
                let c = choose|c: ChunkCoord| reaches(m, own, c, d);
                if !edges@.contains_key(c) {
                    assert(m[c].blank());
                    assert(false);
                }
                assert(coords@.to_set().contains(c));
                let j = choose|j: int| 0 <= j < coords@.len() && coords@[j] == c;
                assert(reaches(m, own, coords@[j], d));
            }
        }
    }
    set
}

/// The chunk that is paused at `coord` in its phase at `tick`.
fn wake_chunk(coord: ChunkCoord, osc: &Oscillator, tick: u64) -> (c: Chunk)
    requires
        osc@.wf(coord),
    ensures
        c == osc@.resumed(coord, tick),
{
    let skipped = if tick < osc.paused_at_tick {
        0
    } else {
        tick - osc.paused_at_tick
    };
    let phase_offset: u64 = skipped % (osc.period as u64);
    if let Some(g) = &osc.group {
        assert(g@.phases[phase_offset as int].contains_key(coord));
        assert(g@.phases[phase_offset as int] == g.phases@[phase_offset as int]@);
        if let Some(c) = g.phases[phase_offset as usize].get(&coord) {
            return c.clone();
        }
    }
    let empty = EdgeBundle::empty();
    let mut c = osc.chunk.clone();
    let mut i: u64 = 0;
    while i < phase_offset
        invariant
            i <= phase_offset,
            c == coast(osc.chunk, i as nat),
            empty.zero(),
        decreases phase_offset - i,
    {
        let r = c.step(&empty);
        proof {
            lemma_empty_holds(empty, c);
            c.lemma_stepped(empty, alone(c), r);
        }
        c = r.into_chunk(&c);
        i = i + 1;
    }
    c
}

/// An empty halo is what a chunk by itself has around it.
proof fn lemma_empty_holds(halo: EdgeBundle, c: Chunk)
    requires
        halo.zero(),
    ensures
        halo.holds(alone(c)),
        chunk::quiet(alone(c)),
{
    assert(0u8 & 1 == 0) by (bit_vector);
    assert forall|x: int, y: int| #[trigger] chunk::on_rim(x, y) implies halo.at(x, y) == alone(c)(
        x,
        y,
    ) by {
        bits::lemma_bit_zero(x);
        bits::lemma_bit_zero(y);
    }
    lemma_holds(halo, alone(c));
}

impl World {
    /// Whether the group that the chunk at `c` is paused with is disturbed. `hit` are the chunks
    /// that are reached.
    fn is_stirred(&self, c: ChunkCoord, hit: &CoordMap<()>) -> (r: bool)
        requires
            self@.wf(),
            self@.oscillators.contains_key(c),
            forall|d: ChunkCoord| #[trigger]
                hit@.contains_key(d) <==> reached(self@.chunks, self@.owned, d),
        ensures
            r == self@.stirred(c),
    {
        let ghost w = self@;
        let group = match self.oscillators.get(&c) {
            Some(o) => match &o.group {
                Some(g) => g,
                None => {
                    return false;
                },
            },
            None => {
                return false;
            },
        };
        assert(group@.phases[0] == group.phases@[0]@);
        assert(w.oscillators[c].members() == group.phases@[0]@.dom());
        let members = group.phases[0].keys();
        let mut i: usize = 0;
        while i < members.len()
            invariant
                i <= members.len(),
                w == self@,
                w.wf(),
                w.oscillators[c].members() == members@.to_set(),
                w.oscillators[c].group == Some(group@),
                forall|d: ChunkCoord| #[trigger]
                    hit@.contains_key(d) <==> reached(w.chunks, w.owned, d),
                forall|j: int|
                    0 <= j < i ==> w.holds(c, #[trigger] members@[j]) && !reached(
                        w.chunks,
                        w.owned,
                        members@[j],
                    ),
            decreases members.len() - i,
        {
            let d = members[i];
            proof {
                assert(members@.to_set().contains(d));
                self.lemma_paused();
            }
            let held = match self.oscillators.get(&d) {
                Some(o) => {
                    assert(w.oscillators.contains_key(d) && w.oscillators[d] == o@);
                    match &o.group {
                        Some(g) => {
                            assert(w.oscillators[d].wf(d));
                            assert(g@.phases[0] == g.phases@[0]@);
                            g.phases[0].contains_key(&c) && self.owned.contains_key(&d)
                                == group.owned.contains_key(&d)
                        },
                        None => false,
                    }
                },
                None => false,
            };
            assert(held == w.holds(c, d));
            if !held || hit.contains_key(&d) {
                assert(w.oscillators[c].members().contains(d));
                return true;
            }
            i = i + 1;
        }
        assert forall|d: ChunkCoord| #[trigger] w.oscillators[c].members().contains(d) implies w.holds(
            c,
            d,
        ) && !reached(w.chunks, w.owned, d) by {
            let j = choose|j: int| 0 <= j < members@.len() && members@[j] == d;
            assert(w.holds(c, members@[j]));
        }
        false
    }

    /// The chunks that the next tick wakes, in ascending order. `hit` are the chunks that are
    /// reached.
    fn to_wake(&self, hit: &CoordMap<()>) -> (r: Vec<ChunkCoord>)
        requires
            self@.wf(),
            forall|d: ChunkCoord| #[trigger]
                hit@.contains_key(d) <==> reached(self@.chunks, self@.owned, d),
        ensures
            sort::ascending(r@),
            r@.no_duplicates(),
            r@.len() <= self@.oscillators.len(),
            forall|c: ChunkCoord| #[trigger] r@.contains(c) <==> self@.perturbed(c),
    {
        let ghost w = self@;
        proof {
            self.lemma_paused();
        }
        let coords = self.oscillators.keys();
        let mut v: Vec<ChunkCoord> = Vec::new();
        let mut i: usize = 0;
        while i < coords.len()
            invariant
                i <= coords.len(),
                w == self@,
                w.wf(),
                coords@.no_duplicates(),
                coords@.to_set() == w.oscillators.dom(),
                v@.no_duplicates(),
                v@.len() <= i,
                forall|d: ChunkCoord| #[trigger]
                    hit@.contains_key(d) <==> reached(w.chunks, w.owned, d),
                forall|c: ChunkCoord| #[trigger]
                    v@.contains(c) <==> w.perturbed(c) && coords@.take(i as int).contains(c),
            decreases coords.len() - i,
        {
            let c = coords[i];
            proof {
                assert(coords@.take(i + 1) =~= coords@.take(i as int).push(c));
                sort::lemma_push_contains(coords@.take(i as int), c);
                sort::lemma_push_contains(v@, c);
                assert(!coords@.take(i as int).contains(c));
                assert(coords@.to_set().contains(c));
            }
            if hit.contains_key(&c) || self.is_stirred(c, hit) {
                proof {
                    assert(!v@.contains(c));
                    sort::lemma_push_distinct(v@, c);
                }
                v.push(c);
            }
            i = i + 1;
        }
        let r = sort::sorted(&v);
        proof {
            assert(coords@.take(i as int) =~= coords@);
            sort::lemma_same_members(r@, v@);
            assert forall|c: ChunkCoord| #[trigger] r@.contains(c) <==> w.perturbed(c) by {
                assert(r@.to_set().contains(c) == v@.to_set().contains(c));
                assert(coords@.to_set().contains(c) == w.oscillators.dom().contains(c));
            }
        }
        r
    }
}

impl WorldState {
    /// The chunks after those in `woken` were woken.
    spec fn part_awake(self, woken: Seq<ChunkCoord>, c: ChunkCoord) -> Option<Chunk> {
        if woken.contains(c) {
            Some(self.oscillators[c].resumed(c, self.tick))
        } else {
            entry(self.chunks, c)
        }
    }

    proof fn lemma_edges_active(self, c: ChunkCoord)
        requires
            self.chunks.contains_key(c) && !self.chunks[c].blank(),
        ensures
            self.active(c),
    {
        if !self.perturbed(c) {
            assert(self.awake().contains_key(c) && self.awake()[c] == self.chunks[c]);
        }
    }
}

impl World {
    /// Wake the paused chunks in `woken`, and add their edges to `edges`.
    fn wake_all(&mut self, woken: &Vec<ChunkCoord>, edges: &mut CoordMap<EdgeBundle>)
        requires
            old(self)@.wf(),
            cached(old(edges)@, old(self)@.chunks),
            woken@.no_duplicates(),
            forall|c: ChunkCoord| #[trigger]
                woken@.contains(c) ==> old(self)@.oscillators.contains_key(c),
        ensures
            final(self)@.tick == old(self)@.tick,
            final(self)@.owned == old(self)@.owned,
            cached(final(edges)@, final(self)@.chunks),
            forall|c: ChunkCoord| #[trigger]
                final(edges)@.contains_key(c) <==> old(edges)@.contains_key(c) || woken@.contains(
                    c,
                ),
            forall|c: ChunkCoord| #[trigger]
                entry(final(self)@.chunks, c) == old(self)@.part_awake(woken@, c),
            final(self)@.oscillators == old(self)@.oscillators.remove_keys(woken@.to_set()),
    {
        let ghost w = self@;
        let ghost e0 = edges@;
        let mut i: usize = 0;
        proof {
            assert(woken@.take(0) =~= Seq::<ChunkCoord>::empty());
            assert(w.oscillators.remove_keys(woken@.take(0).to_set()) =~= w.oscillators);
        }
        while i < woken.len()
            invariant
                i <= woken.len(),
                w.wf(),
                woken@.no_duplicates(),
                forall|c: ChunkCoord| #[trigger]
                    woken@.contains(c) ==> w.oscillators.contains_key(c),
                self@.tick == w.tick,
                self@.owned == w.owned,
                cached(edges@, self@.chunks),
                forall|c: ChunkCoord| #[trigger]
                    edges@.contains_key(c) <==> e0.contains_key(c) || woken@.take(
                        i as int,
                    ).contains(c),
                forall|c: ChunkCoord| #[trigger]
                    entry(self@.chunks, c) == w.part_awake(woken@.take(i as int), c),
                self@.oscillators == w.oscillators.remove_keys(woken@.take(i as int).to_set()),
            decreases woken.len() - i,
        {
            let c = woken[i];
            let ghost done = woken@.take(i as int);
            proof {
                assert(woken@.take(i + 1) =~= done.push(c));
                sort::lemma_push_contains(done, c);
                assert(!done.contains(c));
                assert(woken@.contains(c));
                assert(!done.to_set().contains(c));
                assert(self@.oscillators.contains_key(c));
                self.lemma_paused();
            }
            let ghost before = self@;
            if let Some(osc) = self.oscillators.remove(&c) {
                assert(w.oscillators.contains_key(c));
                assert(before.oscillators[c] == osc@);
                assert(w.oscillators[c] == osc@);
                let ch = wake_chunk(c, &osc, self.tick);
                edges.insert(c, ch.edges());
                self.chunks.insert(c, ch);
                proof {
                    assert forall|d: ChunkCoord| #[trigger] entry(self@.chunks, d) == w.part_awake(
                        woken@.take(i + 1),
                        d,
                    ) by {
                        assert(entry(before.chunks, d) == w.part_awake(done, d));
                    }
                    assert forall|d: ChunkCoord| #[trigger] edges@.contains_key(d) implies
                        self@.chunks.contains_key(d) && self@.chunks[d].bordered_by(edges@[d]) by {
                        assert(d == c || before.chunks.contains_key(d));
                    }
                    assert forall|d: ChunkCoord| #[trigger]
                        self@.chunks.contains_key(d) && !edges@.contains_key(d) implies
                        self@.chunks[d].blank() by {
                        assert(before.chunks.contains_key(d));
                    }
                    assert(self@.oscillators =~= w.oscillators.remove_keys(
                        woken@.take(i + 1).to_set(),
                    )) by {
                        assert(forall|d: ChunkCoord| #[trigger]
                            woken@.take(i + 1).to_set().contains(d) <==> done.to_set().contains(d)
                                || d == c);
                    }
                }
            }
            i = i + 1;
        }
        assert(woken@.take(i as int) =~= woken@);
    }
}

impl World {
    /// Step the chunk at `c`, which is active and was not stepped yet in this tick of `w`.
    fn step_one(
        &mut self,
        c: ChunkCoord,
        edges: &CoordMap<EdgeBundle>,
        outcome: &mut TickOutcome,
        Ghost(w): Ghost<WorldState>,
    )
        requires
            interior(c),
            cached(edges@, w.awake()),
            entry(old(self)@.chunks, c) == entry(w.awake(), c),
            old(self)@.owned == w.owned,
            old(self)@.tick == w.tick,
            w.active(c),
        ensures
            final(self)@.owned == w.owned,
            final(self)@.tick == w.tick,
            final(self)@.oscillators == old(self)@.oscillators,
            forall|d: ChunkCoord| #[trigger]
                entry(final(self)@.chunks, d) == (if d == c {
                    w.outcome_at(c)
                } else {
                    entry(old(self)@.chunks, d)
                }),
            final(outcome).perturbation_wakes == old(outcome).perturbation_wakes,
            final(outcome).changed@ == (if w.changes(c) {
                old(outcome).changed@.push(c)
            } else {
                old(outcome).changed@
            }),
            final(outcome).removed@ == (if w.drops(c) {
                old(outcome).removed@.push(c)
            } else {
                old(outcome).removed@
            }),
            final(outcome).hash_reports@ == (if !w.vanishes(c) {
                old(outcome).hash_reports@.push(w.report(c))
            } else {
                old(outcome).hash_reports@
            }),
    {
        let ghost m = w.awake();
        let halo = assemble_halo(c, edges, &self.owned, Ghost(m));
        let halo_was_zero = halo.is_zero();
        let empty_chunk = Chunk::empty();
        let current = match self.chunks.get(&c) {
            Some(ch) => ch,
            None => &empty_chunk,
        };
        proof {
            if !m.contains_key(c) {
                lookup(m, c).lemma_blank();
                empty_chunk.lemma_equal(lookup(m, c));
            }
            assert(*current == lookup(m, c));
            assert(shift(c, 0, 0) == c);
            assert forall|x: int, y: int| 0 <= x < CHUNK_SIZE && 0 <= y < CHUNK_SIZE implies
                #[trigger] w.seen(c)(x, y) == current.cell(x, y) by {
                assert(side(x) == 0 && side(y) == 0);
            }
        }
        let result = current.step(&halo);
        proof {
            current.lemma_stepped(halo, w.seen(c), result);
        }
        match result {
            StepResult::Unchanged => {
                let hash = match self.chunks.get(&c) {
                    Some(ch) => ch.hash_state(),
                    None => 0,
                };
                outcome.hash_reports.push(
                    HashReport { coord: c, hash, halo_was_zero, tick: self.tick },
                );
            },
            StepResult::Stepped(next) => {
                if next.is_empty() && !next.is_frozen() {
                    if self.chunks.remove(&c).is_some() {
                        outcome.removed.push(c);
                    }
                } else {
                    let hash = next.hash_state();
                    let same = match self.chunks.get(&c) {
                        Some(ch) => same_rows(&ch.rows, &next.rows),
                        None => false,
                    };
                    if !same {
                        self.chunks.insert(c, next);
                        outcome.changed.push(c);
                    }
                    outcome.hash_reports.push(
                        HashReport { coord: c, hash, halo_was_zero, tick: self.tick },
                    );
                }
            },
        }
    }
}

/// Whether two chunks have the same cells.
pub(crate) fn same_rows(a: &[u64; CHUNK_SIZE], b: &[u64; CHUNK_SIZE]) -> (r: bool)
    ensures
        r == (*a == *b),
{
    let mut y: usize = 0;
    while y < CHUNK_SIZE
        invariant
            y <= CHUNK_SIZE,
            forall|j: int| 0 <= j < y ==> a[j] == b[j],
        decreases CHUNK_SIZE - y,
    {
        if a[y] != b[y] {
            return false;
        }
        y = y + 1;
    }
    assert(*a =~= *b);
    true
}

impl World {
    /// Advance every live chunk and its neighbors by one GoL step.
    ///
    /// Candidate selection is edge-aware: a neighbor chunk is only stepped if the
    /// live chunk's relevant edge has cells that could birth into it. Combined with
    /// the empty-chunk + zero-halo early-out in [`Chunk::step`], this keeps the
    /// per-tick work proportional to *active* world activity, not chunk count.
    pub fn tick(&mut self) -> (outcome: TickOutcome)
        requires
            old(self)@.wf(),
            old(self)@.can_tick(),
            old(self)@.oscillators.len() <= u32::MAX,
        ensures
            final(self)@.wf(),
            old(self)@.ticks_to(final(self)@),
            exists|order: Seq<ChunkCoord>| old(self)@.reports(order, outcome),
    {
        let mut outcome = TickOutcome {
            changed: Vec::new(),
            removed: Vec::new(),
            hash_reports: Vec::new(),
            perturbation_wakes: 0,
        };
        self.tick_into(&mut outcome);
        outcome
    }

    /// Reusable-buffer variant of [`World::tick`]. Caller-owned `outcome` is cleared
    /// at entry.
    pub fn tick_into(&mut self, outcome: &mut TickOutcome)
        requires
            old(self)@.wf(),
            old(self)@.can_tick(),
            old(self)@.oscillators.len() <= u32::MAX,
        ensures
            final(self)@.wf(),
            old(self)@.ticks_to(final(self)@),
            exists|order: Seq<ChunkCoord>| old(self)@.reports(order, *final(outcome)),
    {
        let ghost w = self@;
        outcome.changed.clear();
        outcome.removed.clear();
        outcome.hash_reports.clear();
        outcome.perturbation_wakes = 0;

        let mut edges = edges_of(&self.chunks);
        proof {
            assert forall|c: ChunkCoord| #[trigger] edges@.contains_key(c) implies interior(c) by {
                w.lemma_edges_active(c);
            }
        }
        if !self.oscillators.is_empty() {
            let hit = reach_set(&edges, &self.owned, Ghost(self.chunks@));
            let woken = self.to_wake(&hit);
            self.wake_all(&woken, &mut edges);
            outcome.perturbation_wakes = woken.len() as u32;
            outcome.changed = woken;
        }
        let ghost woken = outcome.changed@;
        proof {
            if w.oscillators =~= Map::<ChunkCoord, Paused>::empty() {
                assert(woken =~= Seq::<ChunkCoord>::empty());
                assert(self@.oscillators =~= w.oscillators.remove_keys(woken.to_set()));
            }
            assert(sort::ascending(woken));
            assert(forall|c: ChunkCoord| #[trigger] woken.contains(c) <==> w.perturbed(c));
            assert forall|c: ChunkCoord| #[trigger] entry(self@.chunks, c) == entry(w.awake(), c) by {
                assert(entry(self@.chunks, c) == w.part_awake(woken, c));
            }
            assert forall|c: ChunkCoord| #[trigger] self@.chunks.contains_key(c)
                == w.awake().contains_key(c) by {
                assert(entry(self@.chunks, c) == entry(w.awake(), c));
            }
            assert(self@.chunks =~= w.awake()) by {
                assert forall|c: ChunkCoord| self@.chunks.contains_key(c) implies self@.chunks[c]
                    == w.awake()[c] by {
                    assert(entry(self@.chunks, c) == entry(w.awake(), c));
                }
            }
            assert forall|c: ChunkCoord| #[trigger] edges@.contains_key(c) implies w.active(c) by {
                if !woken.contains(c) {
                    w.lemma_edges_active(c);
                }
            }
        }

        let mut candidates = reach_set(&edges, &self.owned, Ghost(w.awake()));
        let coords = edges.keys();
        let ghost reach = candidates@;
        let mut i: usize = 0;
        while i < coords.len()
            invariant
                i <= coords.len(),
                forall|c: ChunkCoord| #[trigger]
                    candidates@.contains_key(c) <==> reach.contains_key(c) || coords@.take(
                        i as int,
                    ).contains(c),
            decreases coords.len() - i,
        {
            proof {
                assert(coords@.take(i + 1) =~= coords@.take(i as int).push(coords@[i as int]));
                sort::lemma_push_contains(coords@.take(i as int), coords@[i as int]);
            }
            candidates.insert(coords[i], ());
            i = i + 1;
        }
        proof {
            assert(coords@.take(i as int) =~= coords@);
            assert forall|c: ChunkCoord| #[trigger] candidates@.contains_key(c) <==> w.active(c) by {
                assert(coords@.to_set().contains(c) <==> edges@.dom().contains(c));
                if !lookup(w.awake(), c).blank() {
                    if !w.awake().contains_key(c) {
                        lookup(w.awake(), c).lemma_blank();
                    }
                    assert(w.awake().contains_key(c));
                    assert(edges@.contains_key(c));
                }
            }
        }
        let order = candidates.keys();
        proof {
            assert forall|c: ChunkCoord| #[trigger] order@.contains(c) <==> w.active(c) by {
                assert(order@.to_set().contains(c) <==> candidates@.dom().contains(c));
            }
            assert(order@.take(0) =~= Seq::<ChunkCoord>::empty());
            assert(woken + Seq::<ChunkCoord>::empty() =~= woken);
            assert(Seq::<ChunkCoord>::empty().map_values(|c: ChunkCoord| w.report(c))
                =~= Seq::<HashReport>::empty());
            reveal_with_fuel(Seq::filter, 1);
        }
        let mut k: usize = 0;
        let ghost paused = self@.oscillators;
        while k < order.len()
            invariant
                k <= order.len(),
                order@.no_duplicates(),
                forall|c: ChunkCoord| #[trigger] order@.contains(c) <==> w.active(c),
                w.can_tick(),
                cached(edges@, w.awake()),
                self@.owned == w.owned,
                self@.tick == w.tick,
                self@.oscillators == paused,
                forall|c: ChunkCoord| #[trigger]
                    entry(self@.chunks, c) == (if order@.take(k as int).contains(c) {
                        w.outcome_at(c)
                    } else {
                        entry(w.awake(), c)
                    }),
                outcome.perturbation_wakes == woken.len(),
                outcome.changed@ == woken + order@.take(k as int).filter(
                    |c: ChunkCoord| w.changes(c),
                ),
                outcome.removed@ == order@.take(k as int).filter(|c: ChunkCoord| w.drops(c)),
                outcome.hash_reports@ == order@.take(k as int).filter(
                    |c: ChunkCoord| !w.vanishes(c),
                ).map_values(|c: ChunkCoord| w.report(c)),
            decreases order.len() - k,
        {
            let c = order[k];
            let ghost done = order@.take(k as int);
            let ghost before = self@;
            let ghost out0 = *outcome;
            proof {
                assert(order@.contains(c));
                assert(!done.contains(c));
                assert(entry(self@.chunks, c) == entry(w.awake(), c));
            }
            self.step_one(c, &edges, outcome, Ghost(w));
            proof {
                let f = |c: ChunkCoord| w.changes(c);
                let g = |c: ChunkCoord| w.drops(c);
                let h = |c: ChunkCoord| !w.vanishes(c);
                let r = |c: ChunkCoord| w.report(c);
                assert(order@.take(k + 1) =~= done.push(c));
                done.lemma_filter_push(c, f);
                done.lemma_filter_push(c, g);
                done.lemma_filter_push(c, h);
                sort::lemma_push_contains(done, c);
                assert((woken + done.filter(f)).push(c) =~= woken + done.filter(f).push(c));
                assert(done.filter(h).push(c).map_values(r) =~= done.filter(h).map_values(r).push(
                    r(c),
                ));
                assert forall|d: ChunkCoord| #[trigger] entry(self@.chunks, d) == (
                if order@.take(k + 1).contains(d) {
                    w.outcome_at(d)
                } else {
                    entry(w.awake(), d)
                }) by {
                    assert(entry(before.chunks, d) == (if done.contains(d) {
                        w.outcome_at(d)
                    } else {
                        entry(w.awake(), d)
                    }));
                }
            }
            k = k + 1;
        }
        let ghost stepped = self@;
        self.tick = self.tick + 1;
        proof {
            assert(order@.take(k as int) =~= order@);
            assert(self@.chunks == stepped.chunks);
            assert forall|c: ChunkCoord| #[trigger] entry(self@.chunks, c) == w.outcome_at(c) by {
                assert(entry(stepped.chunks, c) == (if order@.take(k as int).contains(c) {
                    w.outcome_at(c)
                } else {
                    entry(w.awake(), c)
                }));
                assert(order@.contains(c) <==> w.active(c));
            }
            assert(woken.to_set() =~= Set::new(|c: ChunkCoord| w.perturbed(c)));
            assert(w.reports(order@, *outcome));
        }
    }
}

/// The chunk that holds cell `(x, y)`.
pub open spec fn home(x: int, y: int) -> (int, int) {
    (x / CHUNK_SIZE_I64 as int, y / CHUNK_SIZE_I64 as int)
}

/// Whether cell `(x, y)` lies in a chunk that has coordinates.
pub open spec fn addressable(x: int, y: int) -> bool {
    &&& i32::MIN <= home(x, y).0 <= i32::MAX
    &&& i32::MIN <= home(x, y).1 <= i32::MAX
}

/// The coordinates of the chunk that holds cell `(x, y)`.
pub open spec fn home_coord(x: int, y: int) -> ChunkCoord {
    (home(x, y).0 as i32, home(x, y).1 as i32)
}

/// Chunk coordinates and local coordinates of cell `(x, y)`.
fn split(x: i64, y: i64) -> (r: (ChunkCoord, usize, usize))
    requires
        addressable(x as int, y as int),
    ensures
        r.0 == home_coord(x as int, y as int),
        r.1 == x as int % CHUNK_SIZE as int,
        r.2 == y as int % CHUNK_SIZE as int,
{
    let (cx, lx) = div_rem(x);
    let (cy, ly) = div_rem(y);
    ((cx as i32, cy as i32), lx, ly)
}

/// Quotient and remainder by the chunk size, rounding the quotient down.
fn div_rem(x: i64) -> (r: (i64, usize))
    ensures
        r.0 == x as int / CHUNK_SIZE as int,
        r.1 == x as int % CHUNK_SIZE as int,
{
    let n: i64 = CHUNK_SIZE_I64;
    if x >= 0 {
        (x / n, (x % n) as usize)
    } else {
        // The least cell of the chunk is at `64 * q`.
        let q: i64 = -((-(x + 1)) / n) - 1;
        let r: i64 = x - q * n;
        (q, r as usize)
    }
}

impl Clone for World {
    fn clone(&self) -> (w: Self)
        ensures
            w@ == self@,
    {
        let w = World {
            chunks: self.chunks.clone(),
            oscillators: self.oscillators.clone(),
            owned: self.owned.clone(),
            tick: self.tick,
        };
        proof {
            assert forall|c: ChunkCoord| #[trigger] self.chunks@.contains_key(c) implies w.chunks@[c]
                == self.chunks@[c] by {
                assert(w.chunks@.dom().contains(c));
                assert(cloned::<Chunk>(self.chunks@[c], w.chunks@[c]));
            }
            assert(w.chunks@ =~= self.chunks@);
            assert forall|c: ChunkCoord| #[trigger]
                self.oscillators@.contains_key(c) implies w.oscillators@[c]
                == self.oscillators@[c] by {
                assert(w.oscillators@.dom().contains(c));
                assert(cloned::<Oscillator>(self.oscillators@[c], w.oscillators@[c]));
            }
            assert(w.oscillators@ =~= self.oscillators@);
        }
        w
    }
}

impl Default for World {
    fn default() -> (w: Self)
        ensures
            w@.wf(),
            w@ == WorldState::void(),
    {
        Self::new()
    }
}

impl WorldState {
    /// A world with nothing in it, at tick zero.
    pub open spec fn void() -> WorldState {
        WorldState {
            chunks: Map::empty(),
            oscillators: Map::empty(),
            owned: Set::empty(),
            tick: 0,
        }
    }

    /// The chunk that readers see at `c`: one that is awake before one that is paused.
    pub open spec fn visible(self, c: ChunkCoord) -> Option<Chunk> {
        if self.chunks.contains_key(c) {
            Some(self.chunks[c])
        } else if self.oscillators.contains_key(c) {
            Some(self.oscillators[c].chunk)
        } else {
            None
        }
    }

    /// `s` lists all chunks: those awake, then those paused, each kind in some order.
    pub open spec fn lists(self, s: Seq<(ChunkCoord, Chunk)>) -> bool {
        exists|a: Seq<ChunkCoord>, b: Seq<ChunkCoord>| #[trigger] self.lists_as(a, b, s)
    }

    /// `s` lists the chunks that are awake in the order `a`, then those paused in the order `b`.
    pub open spec fn lists_as(
        self,
        a: Seq<ChunkCoord>,
        b: Seq<ChunkCoord>,
        s: Seq<(ChunkCoord, Chunk)>,
    ) -> bool {
        &&& a.no_duplicates() && a.to_set() == self.chunks.dom()
        &&& b.no_duplicates() && b.to_set() == self.oscillators.dom()
        &&& s == a.map_values(|c: ChunkCoord| (c, self.chunks[c])) + b.map_values(
            |c: ChunkCoord| (c, self.oscillators[c].chunk),
        )
    }

    /// Whether the chunk at `d` is paused with a group and has a live cell next to `c`.
    pub open spec fn leans_on(self, d: ChunkCoord, c: ChunkCoord) -> bool {
        &&& self.oscillators.contains_key(d)
        &&& self.oscillators[d].group is Some
        &&& adjacent(c, d)
        &&& self.oscillators[d].resumed(d, self.tick).touches(c.0 - d.0, c.1 - d.1)
    }

    /// Whether some chunk that is paused with a group has a live cell next to `c`.
    pub open spec fn leaned_on(self, c: ChunkCoord) -> bool {
        exists|d: ChunkCoord| self.leans_on(d, c)
    }

    /// Whether [`World::promote_oscillator`] pauses the chunk at `c`.
    pub open spec fn pausable(self, c: ChunkCoord, period: u8) -> bool {
        &&& 1 <= period <= MAX_PERIOD
        &&& self.chunks.contains_key(c)
        &&& self.chunks[c].frozen is None
        &&& chunk::quiet(plane(self.chunks, self.owned, c))
        &&& !self.leaned_on(c)
        &&& forall|k: nat| k < period ==> sealed(#[trigger] coast(self.chunks[c], k))
    }

    /// Whether the chunk at `c` can be paused with others: it is awake, nothing in it is frozen,
    /// and it lies off the rim of the coordinate range.
    pub open spec fn sociable(self, c: ChunkCoord) -> bool {
        &&& self.chunks.contains_key(c)
        &&& self.chunks[c].frozen is None
        &&& interior(c)
    }

    /// Whether chunk `d` has a live cell next to `c` that could disturb it.
    pub open spec fn intrudes(self, d: ChunkCoord, c: ChunkCoord) -> bool {
        reaches(self.chunks, self.owned, d, c) || self.leans_on(d, c)
    }

    /// Whether [`World::promote_oscillator_group`] pauses the chunks of `s`: all can be paused
    /// with others, nothing outside touches them, in no phase do they touch anything outside, and
    /// together they repeat themselves after `period` steps.
    pub open spec fn pausable_together(self, s: Set<ChunkCoord>, period: u8) -> bool {
        &&& 1 <= period <= MAX_PERIOD
        &&& forall|c: ChunkCoord| #[trigger] s.contains(c) ==> self.sociable(c)
        &&& forall|c: ChunkCoord, d: ChunkCoord|
            s.contains(c) && !s.contains(d) ==> !#[trigger] self.intrudes(d, c)
        &&& ensemble::recurs(self.chunks.restrict(s), self.owned.intersect(s), period as nat)
    }

    /// The group that the chunks of `s` make.
    pub open spec fn ensemble(self, s: Set<ChunkCoord>, period: u8) -> Ensemble {
        Ensemble {
            phases: Seq::new(
                period as nat,
                |k: int|
                    ensemble::evolved(
                        self.chunks.restrict(s),
                        self.owned.intersect(s),
                        k as nat,
                    ),
            ),
            owned: self.owned.intersect(s),
        }
    }

    /// The world with those of `s` that are in `t` paused, as a part of the group of `s`.
    pub open spec fn pausing_some(
        self,
        s: Set<ChunkCoord>,
        t: Set<ChunkCoord>,
        period: u8,
    ) -> WorldState {
        WorldState {
            chunks: self.chunks.remove_keys(t),
            oscillators: self.oscillators.union_prefer_right(
                Map::new(
                    |c: ChunkCoord| t.contains(c),
                    |c: ChunkCoord|
                        Paused {
                            chunk: self.chunks[c],
                            period,
                            paused_at_tick: self.tick,
                            group: Some(self.ensemble(s, period)),
                        },
                ),
            ),
            ..self
        }
    }

    /// The world with the chunks of `s` paused as one group.
    pub open spec fn pausing_together(self, s: Set<ChunkCoord>, period: u8) -> WorldState {
        self.pausing_some(s, s, period)
    }
}

impl World {
    pub fn new() -> (w: Self)
        ensures
            w@.wf(),
            w@ == WorldState::void(),
    {
        let w = World {
            chunks: CoordMap::new(),
            oscillators: CoordMap::new(),
            owned: CoordMap::new(),
            tick: 0,
        };
        assert(w@ =~= WorldState::void());
        w
    }

    pub fn tick_number(&self) -> (t: u64)
        ensures
            t == self@.tick,
    {
        self.tick
    }

    /// Number of chunks, paused ones counted too.
    pub fn len(&self) -> (n: usize)
        requires
            self@.chunks.len() + self@.oscillators.len() <= usize::MAX,
        ensures
            n == self@.chunks.len() + self@.oscillators.len(),
    {
        proof {
            self.lemma_paused();
        }
        self.chunks.len() + self.oscillators.len()
    }

    /// Number of chunks that are not paused.
    pub fn live_len(&self) -> (n: usize)
        ensures
            n == self@.chunks.len(),
            self@.chunks.dom().finite(),
    {
        self.chunks.len()
    }

    /// Whether there is no chunk.
    pub fn is_empty(&self) -> (e: bool)
        ensures
            e == (self@.chunks.dom().is_empty() && self@.oscillators.dom().is_empty()),
    {
        let a = self.chunks.is_empty();
        let b = self.oscillators.is_empty();
        proof {
            self.lemma_paused();
            if self@.chunks.dom().is_empty() {
                assert(self@.chunks =~= Map::<ChunkCoord, Chunk>::empty());
            }
            if self@.oscillators.dom().is_empty() {
                assert(self.oscillators@ =~= Map::<ChunkCoord, Oscillator>::empty());
            }
        }
        a && b
    }

    pub fn get_chunk(&self, cx: i32, cy: i32) -> (r: Option<&Chunk>)
        ensures
            match r {
                Some(c) => self@.visible((cx, cy)) == Some(*c),
                None => self@.visible((cx, cy)) is None,
            },
    {
        match self.chunks.get(&(cx, cy)) {
            Some(c) => Some(c),
            None => match self.oscillators.get(&(cx, cy)) {
                Some(o) => Some(&o.chunk),
                None => None,
            },
        }
    }

    /// The chunk at `coord`, unless it is paused.
    pub fn get_live_chunk(&self, coord: ChunkCoord) -> (r: Option<&Chunk>)
        ensures
            match r {
                Some(c) => self@.chunks.contains_key(coord) && *c == self@.chunks[coord],
                None => !self@.chunks.contains_key(coord),
            },
    {
        self.chunks.get(&coord)
    }

    /// The chunk at `coord` as it was paused, if it is paused.
    pub fn get_paused_chunk(&self, coord: ChunkCoord) -> (r: Option<&Chunk>)
        ensures
            match r {
                Some(c) => self@.oscillators.contains_key(coord) && *c
                    == self@.oscillators[coord].chunk,
                None => !self@.oscillators.contains_key(coord),
            },
    {
        match self.oscillators.get(&coord) {
            Some(o) => Some(&o.chunk),
            None => None,
        }
    }

    /// The coordinates of all chunks, each once, in ascending order.
    pub fn coords(&self) -> (r: Vec<ChunkCoord>)
        ensures
            sort::ascending(r@),
            r@.no_duplicates(),
            forall|c: ChunkCoord| #[trigger]
                r@.contains(c) <==> self@.chunks.contains_key(c) || self@.oscillators.contains_key(
                    c,
                ),
    {
        let mut v = self.chunks.keys();
        let paused = self.oscillators.keys();
        let mut i: usize = 0;
        proof {
            assert forall|c: ChunkCoord| #[trigger] v@.contains(c) <==> self@.chunks.contains_key(
                c,
            ) || paused@.take(0).contains(c) by {
                assert(v@.to_set().contains(c) <==> self@.chunks.dom().contains(c));
            }
        }
        while i < paused.len()
            invariant
                i <= paused.len(),
                paused@.no_duplicates(),
                v@.no_duplicates(),
                forall|c: ChunkCoord| #[trigger]
                    v@.contains(c) <==> self@.chunks.contains_key(c) || paused@.take(
                        i as int,
                    ).contains(c),
            decreases paused.len() - i,
        {
            let c = paused[i];
            proof {
                assert(paused@.take(i + 1) =~= paused@.take(i as int).push(c));
                sort::lemma_push_contains(paused@.take(i as int), c);
                sort::lemma_push_contains(v@, c);
                assert(!paused@.take(i as int).contains(c));
            }
            if !self.chunks.contains_key(&c) {
                proof {
                    assert(!v@.contains(c));
                    sort::lemma_push_distinct(v@, c);
                }
                v.push(c);
            }
            i = i + 1;
        }
        let r = sort::sorted(&v);
        proof {
            assert(paused@.take(i as int) =~= paused@);
            sort::lemma_same_members(r@, v@);
            assert forall|c: ChunkCoord| #[trigger] r@.contains(c) <==> self@.chunks.contains_key(c)
                || self@.oscillators.contains_key(c) by {
                assert(r@.to_set().contains(c) == v@.to_set().contains(c));
                assert(paused@.to_set().contains(c) == self@.oscillators.dom().contains(c));
            }
        }
        r
    }

    /// All chunks with their coordinates: those awake, then those paused.
    pub fn iter_chunks(&self) -> (r: Vec<(ChunkCoord, &Chunk)>)
        ensures
            self@.lists(r@.map_values(|e: (ChunkCoord, &Chunk)| (e.0, *e.1))),
    {
        let mut r: Vec<(ChunkCoord, &Chunk)> = Vec::new();
        let a = self.chunks.keys();
        let b = self.oscillators.keys();
        let ghost f = |c: ChunkCoord| (c, self@.chunks[c]);
        let ghost g = |c: ChunkCoord| (c, self@.oscillators[c].chunk);
        let mut i: usize = 0;
        while i < a.len()
            invariant
                i <= a.len(),
                a@.to_set() == self@.chunks.dom(),
                f == (|c: ChunkCoord| (c, self@.chunks[c])),
                r@.len() == i,
                forall|j: int| 0 <= j < i ==> (#[trigger] r@[j]).0 == a@[j] && *r@[j].1
                    == self@.chunks[a@[j]],
            decreases a.len() - i,
        {
            assert(a@.to_set().contains(a@[i as int]));
            if let Some(ch) = self.chunks.get(&a[i]) {
                r.push((a[i], ch));
            }
            i = i + 1;
        }
        let n = a.len();
        let mut k: usize = 0;
        while k < b.len()
            invariant
                k <= b.len(),
                n == a.len(),
                b@.to_set() == self@.oscillators.dom(),
                r@.len() == n + k,
                forall|j: int| 0 <= j < n ==> (#[trigger] r@[j]).0 == a@[j] && *r@[j].1
                    == self@.chunks[a@[j]],
                forall|j: int|
                    n <= j < n + k ==> (#[trigger] r@[j]).0 == b@[j - n] && *r@[j].1
                        == self@.oscillators[b@[j - n]].chunk,
            decreases b.len() - k,
        {
            assert(b@.to_set().contains(b@[k as int]));
            if let Some(o) = self.oscillators.get(&b[k]) {
                r.push((b[k], &o.chunk));
            }
            k = k + 1;
        }
        proof {
            let s = r@.map_values(|e: (ChunkCoord, &Chunk)| (e.0, *e.1));
            assert(s =~= a@.map_values(f) + b@.map_values(g));
            assert(self@.lists_as(a@, b@, s));
        }
        r
    }

    /// Set cell `(x, y)`, unless it is frozen. The chunk is made if there is none.
    pub fn set_cell(&mut self, x: i64, y: i64, alive: bool)
        requires
            addressable(x as int, y as int),
        ensures
            ({
                let c = home_coord(x as int, y as int);
                let next = final(self)@.chunks[c];
                &&& lookup(old(self)@.chunks, c).sets(
                    x as int % CHUNK_SIZE as int,
                    y as int % CHUNK_SIZE as int,
                    alive,
                    next,
                )
                &&& final(self)@ == (WorldState {
                    chunks: old(self)@.chunks.insert(c, next),
                    ..old(self)@
                })
            }),
            final(self)@ == old(self)@.edited(x as int, y as int, alive),
            old(self)@.wf() ==> final(self)@.wf(),
    {
        let ghost w = self@;
        let (c, lx, ly) = split(x, y);
        let fresh = Chunk::empty();
        proof {
            lemma_fresh(self@.chunks, c, fresh);
        }
        let ch = self.chunks.slot(c, fresh);
        ch.set(lx, ly, alive);
        proof {
            lookup(w.chunks, c).lemma_setting(lx as int, ly as int, alive, self@.chunks[c]);
        }
    }

    /// Freeze cell `(x, y)` at `alive`. The chunk is made if there is none.
    pub fn freeze_cell(&mut self, x: i64, y: i64, alive: bool)
        requires
            addressable(x as int, y as int),
        ensures
            ({
                let c = home_coord(x as int, y as int);
                let next = final(self)@.chunks[c];
                &&& lookup(old(self)@.chunks, c).freezes(
                    x as int % CHUNK_SIZE as int,
                    y as int % CHUNK_SIZE as int,
                    alive,
                    next,
                )
                &&& final(self)@ == (WorldState {
                    chunks: old(self)@.chunks.insert(c, next),
                    ..old(self)@
                })
            }),
    {
        let (c, lx, ly) = split(x, y);
        let fresh = Chunk::empty();
        proof {
            lemma_fresh(self@.chunks, c, fresh);
        }
        let ch = self.chunks.slot(c, fresh);
        ch.freeze(lx, ly, alive);
    }

    /// Let cell `(x, y)` evolve again, if its chunk is awake.
    pub fn unfreeze_cell(&mut self, x: i64, y: i64)
        requires
            addressable(x as int, y as int),
        ensures
            ({
                let c = home_coord(x as int, y as int);
                let next = final(self)@.chunks[c];
                if old(self)@.chunks.contains_key(c) {
                    &&& old(self)@.chunks[c].unfreezes(
                        x as int % CHUNK_SIZE as int,
                        y as int % CHUNK_SIZE as int,
                        next,
                    )
                    &&& final(self)@ == (WorldState {
                        chunks: old(self)@.chunks.insert(c, next),
                        ..old(self)@
                    })
                } else {
                    final(self)@ == old(self)@
                }
            }),
    {
        let (c, lx, ly) = split(x, y);
        if let Some(ch) = self.chunks.get_mut(&c) {
            ch.unfreeze(lx, ly);
        }
    }

    /// Insert or replace a chunk wholesale (used by snapshot load).
    pub fn insert_chunk(&mut self, coord: ChunkCoord, chunk: Chunk)
        ensures
            final(self)@ == (WorldState {
                chunks: old(self)@.chunks.insert(coord, chunk),
                ..old(self)@
            }),
    {
        self.chunks.insert(coord, chunk);
    }

    /// Remove a chunk (used by the reaper). Returns `true` if it existed, awake or paused.
    pub fn remove_chunk(&mut self, coord: ChunkCoord) -> (r: bool)
        ensures
            final(self)@ == (WorldState {
                chunks: old(self)@.chunks.remove(coord),
                oscillators: old(self)@.oscillators.remove(coord),
                ..old(self)@
            }),
            r == (old(self)@.visible(coord) is Some),
            old(self)@.wf() ==> final(self)@.wf(),
    {
        let in_chunks = self.chunks.remove(&coord).is_some();
        let in_oscillators = self.oscillators.remove(&coord).is_some();
        assert(self@.oscillators =~= old(self)@.oscillators.remove(coord));
        in_chunks || in_oscillators
    }

    pub fn set_tick_number(&mut self, tick: u64)
        ensures
            final(self)@ == (WorldState { tick, ..old(self)@ }),
    {
        self.tick = tick;
    }

    /// Replace the owned-chunk set. Owned chunks reject inbound edges from
    /// non-owned neighbors, preventing external births into claimed regions.
    pub fn set_owned_chunks(&mut self, owned: CoordMap<()>)
        ensures
            final(self)@ == (WorldState { owned: owned@.dom(), ..old(self)@ }),
    {
        self.owned = owned;
    }

    pub fn oscillator_count(&self) -> (n: usize)
        ensures
            n == self@.oscillators.len(),
    {
        proof {
            self.lemma_paused();
        }
        self.oscillators.len()
    }

    pub fn is_oscillating(&self, coord: ChunkCoord) -> (b: bool)
        ensures
            b == self@.oscillators.contains_key(coord),
    {
        self.oscillators.contains_key(&coord)
    }

    /// If `coord` is paused, advance it to the current tick's phase and let it run again. The
    /// others of a group that it is paused with wake with the next tick. Returns true if a wake
    /// happened.
    pub fn wake_if_paused(&mut self, coord: ChunkCoord) -> (r: bool)
        requires
            old(self)@.wf(),
        ensures
            final(self)@.wf(),
            r == old(self)@.oscillators.contains_key(coord),
            final(self)@ == (if old(self)@.oscillators.contains_key(coord) {
                WorldState {
                    chunks: old(self)@.chunks.insert(
                        coord,
                        old(self)@.oscillators[coord].resumed(coord, old(self)@.tick),
                    ),
                    oscillators: old(self)@.oscillators.remove(coord),
                    ..old(self)@
                }
            } else {
                old(self)@
            }),
    {
        proof {
            self.lemma_paused();
        }
        match self.oscillators.remove(&coord) {
            Some(osc) => {
                assert(old(self)@.oscillators[coord] == osc@);
                let ch = wake_chunk(coord, &osc, self.tick);
                self.chunks.insert(coord, ch);
                assert(self@.oscillators =~= old(self)@.oscillators.remove(coord));
                true
            },
            None => {
                assert(self@ =~= old(self)@);
                false
            },
        }
    }
}

proof fn lemma_fresh(m: Map<ChunkCoord, Chunk>, c: ChunkCoord, fresh: Chunk)
    requires
        fresh.blank(),
        fresh.frozen is None,
    ensures
        !m.contains_key(c) ==> fresh == lookup(m, c),
{
    if !m.contains_key(c) {
        lookup(m, c).lemma_blank();
        fresh.lemma_equal(lookup(m, c));
    }
}

/// The coordinates around `c`.
pub(crate) fn neighbors_of(c: ChunkCoord) -> (r: [ChunkCoord; 8])
    requires
        interior(c),
    ensures
        forall|i: int| 0 <= i < 8 ==> adjacent(c, #[trigger] r[i]),
        forall|d: ChunkCoord| adjacent(c, d) ==> exists|i: int| 0 <= i < 8 && #[trigger] r[i] == d,
{
    let (x, y) = c;
    let r: [ChunkCoord; 8] = [
        (x, y - 1),
        (x, y + 1),
        (x - 1, y),
        (x + 1, y),
        (x - 1, y - 1),
        (x + 1, y - 1),
        (x - 1, y + 1),
        (x + 1, y + 1),
    ];
    proof {
        assert forall|d: ChunkCoord| adjacent(c, d) implies exists|i: int|
            0 <= i < 8 && #[trigger] r[i] == d by {
            let dx = d.0 - x;
            let dy = d.1 - y;
            assert(dx == -1 || dx == 0 || dx == 1);
            assert(dy == -1 || dy == 0 || dy == 1);
            assert(r[0] == d || r[1] == d || r[2] == d || r[3] == d || r[4] == d || r[5] == d
                || r[6] == d || r[7] == d);
        }
    }
    r
}

/// The edges of a chunk are zero exactly if it has no live cell on any side.
pub proof fn lemma_sealed(c: Chunk, e: EdgeBundle)
    requires
        c.bordered_by(e),
    ensures
        e.zero() == sealed(c),
{
    c.lemma_touches(e);
    if e.zero() {
        assert forall|dx: int, dy: int|
            -1 <= dx <= 1 && -1 <= dy <= 1 && (dx != 0 || dy != 0) implies !#[trigger] c.touches(
            dx,
            dy,
        ) by {
            assert(dx == -1 || dx == 0 || dx == 1);
            assert(dy == -1 || dy == 0 || dy == 1);
        }
    }
    if sealed(c) {
        assert(!c.touches(0, -1) && !c.touches(0, 1) && !c.touches(-1, 0) && !c.touches(1, 0));
        assert(!c.touches(-1, -1) && !c.touches(1, -1) && !c.touches(-1, 1) && !c.touches(1, 1));
    }
}

impl World {
    /// The halo that the chunks that are awake put around `c`.
    fn halo_for(&self, c: ChunkCoord) -> (halo: EdgeBundle)
        requires
            interior(c),
        ensures
            halo.holds(plane(self@.chunks, self@.owned, c)),
    {
        let (x, y) = c;
        let around: [ChunkCoord; 8] = [
            (x, y - 1),
            (x, y + 1),
            (x - 1, y),
            (x + 1, y),
            (x - 1, y - 1),
            (x + 1, y - 1),
            (x - 1, y + 1),
            (x + 1, y + 1),
        ];
        let mut edges: CoordMap<EdgeBundle> = CoordMap::new();
        let mut i: usize = 0;
        while i < 8
            invariant
                i <= 8,
                forall|d: ChunkCoord| #[trigger]
                    edges@.contains_key(d) ==> self@.chunks.contains_key(d)
                        && self@.chunks[d].bordered_by(edges@[d]),
                forall|j: int| 0 <= j < i ==> cached_at(edges@, self@.chunks, #[trigger] around[j]),
            decreases 8 - i,
        {
            let d = around[i];
            let ghost before = edges@;
            if let Some(ch) = self.chunks.get(&d) {
                if !ch.is_empty() {
                    edges.insert(d, ch.edges());
                }
            }
            proof {
                assert forall|j: int| 0 <= j < i + 1 implies cached_at(
                    edges@,
                    self@.chunks,
                    #[trigger] around[j],
                ) by {
                    if j < i {
                        assert(cached_at(before, self@.chunks, around[j]));
                    }
                }
            }
            i = i + 1;
        }
        proof {
            assert forall|d: ChunkCoord| adjacent(c, d) implies #[trigger] cached_at(
                edges@,
                self@.chunks,
                d,
            ) by {
                let dx = d.0 - x;
                let dy = d.1 - y;
                assert(dx == -1 || dx == 0 || dx == 1);
                assert(dy == -1 || dy == 0 || dy == 1);
                assert(cached_at(edges@, self@.chunks, around[0]));
                assert(cached_at(edges@, self@.chunks, around[1]));
                assert(cached_at(edges@, self@.chunks, around[2]));
                assert(cached_at(edges@, self@.chunks, around[3]));
                assert(cached_at(edges@, self@.chunks, around[4]));
                assert(cached_at(edges@, self@.chunks, around[5]));
                assert(cached_at(edges@, self@.chunks, around[6]));
                assert(cached_at(edges@, self@.chunks, around[7]));
            }
        }
        assemble_halo(c, &edges, &self.owned, Ghost(self@.chunks))
    }

    /// Whether the chunk at `d` is paused with a group and has a live cell next to `c`.
    fn leans(&self, d: ChunkCoord, c: ChunkCoord) -> (r: bool)
        requires
            self@.wf(),
            adjacent(c, d),
        ensures
            r == self@.leans_on(d, c),
    {
        proof {
            self.lemma_paused();
        }
        match self.oscillators.get(&d) {
            Some(o) => {
                assert(self@.oscillators[d] == o@);
                if o.group.is_none() {
                    return false;
                }
                wake_chunk(d, o, self.tick).has_edge_toward(c.0 - d.0, c.1 - d.1)
            },
            None => false,
        }
    }

    /// Whether some chunk that is paused with a group has a live cell next to `c`.
    fn is_leaned_on(&self, c: ChunkCoord) -> (r: bool)
        requires
            self@.wf(),
            interior(c),
        ensures
            r == self@.leaned_on(c),
    {
        let around = neighbors_of(c);
        let mut i: usize = 0;
        while i < 8
            invariant
                i <= 8,
                self@.wf(),
                forall|j: int| 0 <= j < 8 ==> adjacent(c, #[trigger] around[j]),
                forall|j: int| 0 <= j < i ==> !self@.leans_on(#[trigger] around[j], c),
            decreases 8 - i,
        {
            if self.leans(around[i], c) {
                return true;
            }
            i = i + 1;
        }
        assert forall|d: ChunkCoord| !self@.leans_on(d, c) by {
            if adjacent(c, d) {
                let j = choose|j: int| 0 <= j < 8 && #[trigger] around[j] == d;
                assert(!self@.leans_on(around[j], c));
            }
        }
        false
    }

    /// Pause a chunk. Refuses if the chunk is missing, frozen, or its current halo is non-zero
    /// (the detector's verdict can be stale by the time the sim drains the request), or if a
    /// paused group has a live cell next to it, or if in some phase of the period it has a live cell on one of its sides: waking steps it by
    /// itself. Returns true on success.
    pub fn promote_oscillator(&mut self, coord: ChunkCoord, period: u8) -> (r: bool)
        requires
            old(self)@.wf(),
            1 <= period <= MAX_PERIOD && old(self)@.chunks.contains_key(coord) && old(
                self,
            )@.chunks[coord].frozen is None ==> interior(coord),
        ensures
            final(self)@.wf(),
            r == old(self)@.pausable(coord, period),
            final(self)@ == (if r {
                WorldState {
                    chunks: old(self)@.chunks.remove(coord),
                    oscillators: old(self)@.oscillators.insert(
                        coord,
                        Paused {
                            chunk: old(self)@.chunks[coord],
                            period,
                            paused_at_tick: old(self)@.tick,
                            group: None,
                        },
                    ),
                    ..old(self)@
                }
            } else {
                old(self)@
            }),
    {
        if period == 0 || (period as usize) > MAX_PERIOD {
            return false;
        }
        let mut probe = match self.chunks.get(&coord) {
            Some(c) => {
                if c.is_frozen() {
                    return false;
                }
                c.clone()
            },
            None => {
                return false;
            },
        };
        if !self.halo_for(coord).is_zero() || self.is_leaned_on(coord) {
            return false;
        }
        let ghost start = self@.chunks[coord];
        let empty = EdgeBundle::empty();
        let mut k: u8 = 0;
        while k < period
            invariant
                k <= period,
                empty.zero(),
                probe == coast(start, k as nat),
                forall|j: nat| j < k ==> sealed(#[trigger] coast(start, j)),
                start == self@.chunks[coord],
                *self == *old(self),
                old(self)@.wf(),
            decreases period - k,
        {
            let e = probe.edges();
            proof {
                lemma_sealed(probe, e);
            }
            if !e.is_zero() {
                assert(!sealed(coast(start, k as nat)));
                return false;
            }
            let r = probe.step(&empty);
            proof {
                lemma_empty_holds(empty, probe);
                probe.lemma_stepped(empty, alone(probe), r);
            }
            probe = r.into_chunk(&probe);
            k = k + 1;
        }
        match self.chunks.remove(&coord) {
            Some(chunk) => {
                self.oscillators.insert(
                    coord,
                    Oscillator { chunk, period, paused_at_tick: self.tick, group: None },
                );
                assert(self@.oscillators =~= old(self)@.oscillators.insert(
                    coord,
                    self@.oscillators[coord],
                ));
                true
            },
            None => false,
        }
    }

    /// The chunks at `coords`, if all can be paused with others.
    fn gather(&self, coords: &[ChunkCoord]) -> (r: Option<CoordMap<Chunk>>)
        ensures
            match r {
                Some(m) => {
                    &&& forall|c: ChunkCoord| #[trigger]
                        coords@.to_set().contains(c) ==> self@.sociable(c)
                    &&& m@ == self@.chunks.restrict(coords@.to_set())
                },
                None => exists|c: ChunkCoord| #[trigger]
                    coords@.to_set().contains(c) && !self@.sociable(c),
            },
    {
        let ghost w = self@;
        let mut m: CoordMap<Chunk> = CoordMap::new();
        let mut i: usize = 0;
        assert(m@ =~= w.chunks.restrict(coords@.take(0).to_set()));
        while i < coords.len()
            invariant
                i <= coords.len(),
                w == self@,
                forall|j: int| 0 <= j < i ==> w.sociable(#[trigger] coords@[j]),
                m@ == w.chunks.restrict(coords@.take(i as int).to_set()),
            decreases coords.len() - i,
        {
            let c = coords[i];
            let ghost done = coords@.take(i as int);
            proof {
                assert(coords@.to_set().contains(c));
                assert(coords@.take(i + 1) =~= done.push(c));
                sort::lemma_push_contains(done, c);
            }
            match self.chunks.get(&c) {
                Some(ch) => {
                    let (x, y) = c;
                    if ch.is_frozen() || x == i32::MIN || x == i32::MAX || y == i32::MIN || y
                        == i32::MAX {
                        assert(!w.sociable(c));
                        return None;
                    }
                    m.insert(c, ch.clone());
                },
                None => {
                    assert(!w.sociable(c));
                    return None;
                },
            }
            proof {
                assert forall|d: ChunkCoord| #[trigger] done.push(c).to_set().contains(d) == (
                done.to_set().contains(d) || d == c) by {}
                assert(m@ =~= w.chunks.restrict(done.push(c).to_set()));
            }
            i = i + 1;
        }
        proof {
            assert(coords@.take(i as int) =~= coords@);
            assert forall|c: ChunkCoord| #[trigger] coords@.to_set().contains(c) implies w.sociable(
                c,
            ) by {
                let j = choose|j: int| 0 <= j < coords@.len() && coords@[j] == c;
                assert(w.sociable(coords@[j]));
            }
        }
        Some(m)
    }

    /// Whether some chunk that is not in `group` has a live cell next to one that is.
    fn is_intruded(&self, group: &CoordMap<Chunk>) -> (r: bool)
        requires
            self@.wf(),
            forall|c: ChunkCoord| #[trigger] group@.contains_key(c) ==> interior(c),
        ensures
            r == exists|c: ChunkCoord, d: ChunkCoord|
                group@.contains_key(c) && !group@.contains_key(d) && #[trigger] self@.intrudes(
                    d,
                    c,
                ),
    {
        let ghost w = self@;
        let coords = group.keys();
        let mut i: usize = 0;
        while i < coords.len()
            invariant
                i <= coords.len(),
                w == self@,
                w.wf(),
                coords@.to_set() == group@.dom(),
                forall|c: ChunkCoord| #[trigger] group@.contains_key(c) ==> interior(c),
                forall|c: ChunkCoord, d: ChunkCoord|
                    coords@.take(i as int).contains(c) && !group@.contains_key(d)
                        ==> !#[trigger] w.intrudes(d, c),
            decreases coords.len() - i,
        {
            let c = coords[i];
            proof {
                assert(coords@.to_set().contains(c));
                assert(group@.contains_key(c));
                assert(coords@.take(i + 1) =~= coords@.take(i as int).push(c));
                sort::lemma_push_contains(coords@.take(i as int), c);
            }
            let around = neighbors_of(c);
            let mut j: usize = 0;
            while j < 8
                invariant
                    j <= 8,
                    w == self@,
                    w.wf(),
                    group@.contains_key(c),
                    forall|k: int| 0 <= k < 8 ==> adjacent(c, #[trigger] around[k]),
                    forall|k: int|
                        0 <= k < j && !group@.contains_key(#[trigger] around[k]) ==> !w.intrudes(
                            around[k],
                            c,
                        ),
                decreases 8 - j,
            {
                let d = around[j];
                assert(adjacent(c, d));
                if !group.contains_key(&d) {
                    let reached = match self.chunks.get(&d) {
                        Some(ch) => (!self.owned.contains_key(&c) || self.owned.contains_key(&d))
                            && ch.has_edge_toward(c.0 - d.0, c.1 - d.1),
                        None => false,
                    };
                    assert(reached == reaches(w.chunks, w.owned, d, c));
                    if reached || self.leans(d, c) {
                        assert(w.intrudes(d, c));
                        return true;
                    }
                }
                j = j + 1;
            }
            assert forall|d: ChunkCoord| !group@.contains_key(d) implies !#[trigger] w.intrudes(
                d,
                c,
            ) by {
                if adjacent(c, d) {
                    let k = choose|k: int| 0 <= k < 8 && #[trigger] around[k] == d;
                    assert(!w.intrudes(around[k], c));
                }
            }
            i = i + 1;
        }
        assert(coords@.take(i as int) =~= coords@);
        assert forall|c: ChunkCoord, d: ChunkCoord|
            group@.contains_key(c) && !group@.contains_key(d) implies !#[trigger] w.intrudes(
            d,
            c,
        ) by {
            assert(coords@.to_set().contains(c));
        }
        false
    }

    /// Those of the chunks in `group` that are owned.
    fn owned_among(&self, group: &CoordMap<Chunk>) -> (r: CoordMap<()>)
        ensures
            r@.dom() == self@.owned.intersect(group@.dom()),
    {
        let coords = group.keys();
        let mut r: CoordMap<()> = CoordMap::new();
        let mut i: usize = 0;
        while i < coords.len()
            invariant
                i <= coords.len(),
                forall|c: ChunkCoord| #[trigger]
                    r@.contains_key(c) <==> self@.owned.contains(c) && coords@.take(
                        i as int,
                    ).contains(c),
            decreases coords.len() - i,
        {
            let c = coords[i];
            proof {
                assert(coords@.take(i + 1) =~= coords@.take(i as int).push(c));
                sort::lemma_push_contains(coords@.take(i as int), c);
            }
            if self.owned.contains_key(&c) {
                r.insert(c, ());
            }
            i = i + 1;
        }
        proof {
            assert(coords@.take(i as int) =~= coords@);
            assert forall|c: ChunkCoord| #[trigger] r@.dom().contains(c) == self@.owned.intersect(
                group@.dom(),
            ).contains(c) by {
                assert(coords@.to_set().contains(c) == group@.dom().contains(c));
                assert(r@.contains_key(c) == r@.dom().contains(c));
            }
            assert(r@.dom() =~= self@.owned.intersect(group@.dom()));
        }
        r
    }

    /// Pause chunks that take notice of each other as one group: any of them that is woken or
    /// reached from outside wakes the others. Refuses if one of them is missing, frozen or on the
    /// rim of the coordinate range, if anything outside has a live cell next to one of them, if in
    /// some phase of the period one of them has a live cell next to anything outside, or if after
    /// the period they are not as they were. Returns true on success.
    pub fn promote_oscillator_group(&mut self, members: &[ChunkCoord], period: u8) -> (r: bool)
        requires
            old(self)@.wf(),
        ensures
            final(self)@.wf(),
            r == old(self)@.pausable_together(members@.to_set(), period),
            final(self)@ == (if r {
                old(self)@.pausing_together(members@.to_set(), period)
            } else {
                old(self)@
            }),
    {
        let ghost w = self@;
        let ghost s = members@.to_set();
        if period == 0 || (period as usize) > MAX_PERIOD {
            return false;
        }
        let start = match self.gather(members) {
            Some(m) => m,
            None => {
                return false;
            },
        };
        let ghost m = start@;
        proof {
            assert forall|c: ChunkCoord| #[trigger] m.contains_key(c) == s.contains(c) by {
                if s.contains(c) {
                    assert(w.sociable(c));
                }
            }
            assert(m.dom() =~= s);
            assert forall|c: ChunkCoord| #[trigger] m.contains_key(c) implies interior(c) by {
                assert(w.sociable(c));
            }
        }
        if self.is_intruded(&start) {
            proof {
                let (c, d) = choose|c: ChunkCoord, d: ChunkCoord|
                    m.contains_key(c) && !m.contains_key(d) && #[trigger] w.intrudes(d, c);
                assert(s.contains(c) && !s.contains(d));
            }
            return false;
        }
        assert forall|c: ChunkCoord, d: ChunkCoord| s.contains(c) && !s.contains(d) implies
            !#[trigger] w.intrudes(d, c) by {
            assert(m.contains_key(c) && !m.contains_key(d));
        }
        let own = self.owned_among(&start);
        let phases = match ensemble::cycle(start, &own, period) {
            Some(p) => p,
            None => {
                return false;
            },
        };
        assert(w.pausable_together(s, period));
        let coords = phases[0].keys();
        let group = Arc::new(Group { phases, owned: own });
        proof {
            assert(group@.phases =~= w.ensemble(s, period).phases);
            assert(group@ =~= w.ensemble(s, period));
            assert(coords@.to_set() == s);
        }
        self.pause_all(&coords, period, &group, Ghost(s));
        proof {
            assert forall|c: ChunkCoord| #[trigger] self@.oscillators.contains_key(c) implies
                self@.oscillators[c].wf(c) by {
                if s.contains(c) {
                    assert forall|k: int| 0 <= k < period implies (
                    #[trigger] w.ensemble(s, period).phases[k]).contains_key(c) by {
                        ensemble::lemma_evolved(m, w.owned.intersect(s), k as nat);
                        assert(m.dom().contains(c));
                    }
                } else {
                    assert(w.oscillators.contains_key(c));
                }
            }
        }
        true
    }

    /// Pause the chunks at `coords` as parts of a group.
    fn pause_all(
        &mut self,
        coords: &Vec<ChunkCoord>,
        period: u8,
        group: &Arc<Group>,
        Ghost(s): Ghost<Set<ChunkCoord>>,
    )
        requires
            coords@.no_duplicates(),
            coords@.to_set() == s,
            group@ == old(self)@.ensemble(s, period),
            forall|c: ChunkCoord| #[trigger] s.contains(c) ==> old(self)@.chunks.contains_key(c),
        ensures
            final(self)@ == old(self)@.pausing_together(s, period),
    {
        let ghost w = self@;
        let mut i: usize = 0;
        proof {
            let z = w.pausing_some(s, coords@.take(0).to_set(), period);
            assert(coords@.take(0).to_set() =~= Set::<ChunkCoord>::empty());
            assert(z.chunks =~= w.chunks);
            assert(z.oscillators =~= w.oscillators);
        }
        while i < coords.len()
            invariant
                i <= coords.len(),
                coords@.no_duplicates(),
                coords@.to_set() == s,
                group@ == w.ensemble(s, period),
                forall|c: ChunkCoord| #[trigger] s.contains(c) ==> w.chunks.contains_key(c),
                self@ == w.pausing_some(s, coords@.take(i as int).to_set(), period),
            decreases coords.len() - i,
        {
            let c = coords[i];
            let ghost done = coords@.take(i as int);
            let ghost before = self@;
            proof {
                assert(coords@.to_set().contains(c));
                assert(coords@.take(i + 1) =~= done.push(c));
                sort::lemma_push_contains(done, c);
                assert(!done.contains(c));
                assert forall|d: ChunkCoord| #[trigger] done.push(c).to_set().contains(d) == (
                done.to_set().contains(d) || d == c) by {}
                self.lemma_paused();
            }
            if let Some(chunk) = self.chunks.remove(&c) {
                self.oscillators.insert(
                    c,
                    Oscillator {
                        chunk,
                        period,
                        paused_at_tick: self.tick,
                        group: Some(share(group)),
                    },
                );
                proof {
                    let next = w.pausing_some(s, done.push(c).to_set(), period);
                    assert(self@.chunks =~= next.chunks);
                    assert(self@.oscillators =~= before.oscillators.insert(
                        c,
                        self@.oscillators[c],
                    ));
                    assert(self@.oscillators =~= next.oscillators);
                }
            }
            i = i + 1;
        }
        assert(coords@.take(i as int) =~= coords@);
    }

    /// Let every cell of the chunks that are awake evolve again.
    pub fn clear_all_frozen(&mut self)
        ensures
            final(self)@ == old(self)@.thawed(),
            old(self)@.wf() ==> final(self)@.wf(),
    {
        let ghost w = self@;
        let ghost f = |c: Chunk| Chunk { rows: c.rows, frozen: None };
        let coords = self.chunks.keys();
        let mut i: usize = 0;
        while i < coords.len()
            invariant
                i <= coords.len(),
                coords@.no_duplicates(),
                coords@.to_set() == w.chunks.dom(),
                self@.tick == w.tick,
                self@.owned == w.owned,
                self@.oscillators == w.oscillators,
                self@.chunks.dom() == w.chunks.dom(),
                f == (|c: Chunk| Chunk { rows: c.rows, frozen: None }),
                forall|c: ChunkCoord| #[trigger]
                    w.chunks.contains_key(c) ==> self@.chunks[c] == (if coords@.take(
                        i as int,
                    ).contains(c) {
                        f(w.chunks[c])
                    } else {
                        w.chunks[c]
                    }),
            decreases coords.len() - i,
        {
            let c = coords[i];
            let ghost done = coords@.take(i as int);
            let ghost before = self@;
            proof {
                assert(coords@.take(i + 1) =~= done.push(c));
                sort::lemma_push_contains(done, c);
                assert(!done.contains(c));
                assert(coords@.to_set().contains(c));
                assert(w.chunks.contains_key(c));
            }
            if let Some(ch) = self.chunks.get_mut(&c) {
                ch.frozen = None;
            }
            assert(self@.chunks =~= before.chunks.insert(c, f(w.chunks[c])));
            i = i + 1;
        }
        proof {
            assert(coords@.take(i as int) =~= coords@);
            assert forall|c: ChunkCoord| w.chunks.contains_key(c) implies #[trigger] self@.chunks[c]
                == f(w.chunks[c]) by {
                assert(coords@.to_set().contains(c));
            }
            assert(self@.chunks =~= w.chunks.map_values(f));
        }
    }
}

/// `next` is the chunk `c` of coordinates `at` with the cells of `mask` frozen at their values.
pub open spec fn pins(
    c: Chunk,
    at: ChunkCoord,
    mask: spec_fn(int, int) -> bool,
    next: Chunk,
) -> bool {
    &&& next.rows == c.rows
    &&& next.frozen is Some <==> c.frozen is Some || covers(mask, at)
    &&& forall|i: int, j: int|
        0 <= i < CHUNK_SIZE && 0 <= j < CHUNK_SIZE ==> #[trigger] next.frozen_at(i, j) == (
        c.frozen_at(i, j) || in_mask(mask, at, i, j))
    &&& forall|i: int, j: int|
        0 <= i < CHUNK_SIZE && 0 <= j < CHUNK_SIZE ==> #[trigger] next.pinned_at(i, j) == (
        if in_mask(mask, at, i, j) {
            c.cell(i, j)
        } else {
            c.pinned_at(i, j)
        })
}

/// Whether `mask` has the cell at `(i, j)` of the chunk at `c`.
pub open spec fn in_mask(mask: spec_fn(int, int) -> bool, c: ChunkCoord, i: int, j: int) -> bool {
    mask(CHUNK_SIZE * c.0 + i, CHUNK_SIZE * c.1 + j)
}

/// Whether `mask` has some cell of the chunk at `c`.
pub open spec fn covers(mask: spec_fn(int, int) -> bool, c: ChunkCoord) -> bool {
    exists|i: int, j: int|
        0 <= i < CHUNK_SIZE && 0 <= j < CHUNK_SIZE && #[trigger] in_mask(mask, c, i, j)
}

/// `next` is the map `m` with the cells of `mask` frozen at their values, and with a chunk
/// wherever there is such a cell.
pub open spec fn pins_all(
    m: Map<ChunkCoord, Chunk>,
    mask: spec_fn(int, int) -> bool,
    next: Map<ChunkCoord, Chunk>,
) -> bool {
    forall|c: ChunkCoord|
        {
            &&& #[trigger] next.contains_key(c) <==> m.contains_key(c) || covers(mask, c)
            &&& next.contains_key(c) ==> pins(lookup(m, c), c, mask, next[c])
        }
}

/// Freezing one more cell at its value.
proof fn lemma_pin_one(
    m: Map<ChunkCoord, Chunk>,
    before: Map<ChunkCoord, Chunk>,
    after: Map<ChunkCoord, Chunk>,
    p: spec_fn(int, int) -> bool,
    q: spec_fn(int, int) -> bool,
    x: int,
    y: int,
)
    requires
        addressable(x, y),
        pins_all(m, p, before),
        forall|u: int, v: int| #[trigger] q(u, v) == (p(u, v) || (u == x && v == y)),
        after == before.insert(home_coord(x, y), after[home_coord(x, y)]),
        lookup(before, home_coord(x, y)).freezes(
            x % CHUNK_SIZE as int,
            y % CHUNK_SIZE as int,
            lookup(before, home_coord(x, y)).cell(x % CHUNK_SIZE as int, y % CHUNK_SIZE as int),
            after[home_coord(x, y)],
        ),
    ensures
        pins_all(m, q, after),
{
    let h = home_coord(x, y);
    let lx = x % CHUNK_SIZE as int;
    let ly = y % CHUNK_SIZE as int;
    assert forall|c: ChunkCoord|
        {
            &&& #[trigger] after.contains_key(c) <==> m.contains_key(c) || covers(q, c)
            &&& after.contains_key(c) ==> pins(lookup(m, c), c, q, after[c])
        } by {
        assert(before.contains_key(c) <==> m.contains_key(c) || covers(p, c));
        assert forall|i: int, j: int|
            0 <= i < CHUNK_SIZE && 0 <= j < CHUNK_SIZE implies #[trigger] in_mask(q, c, i, j) == (
        in_mask(p, c, i, j) || (c == h && i == lx && j == ly)) by {
            assert(q(CHUNK_SIZE * c.0 + i, CHUNK_SIZE * c.1 + j) == (p(
                CHUNK_SIZE * c.0 + i,
                CHUNK_SIZE * c.1 + j,
            ) || (CHUNK_SIZE * c.0 + i == x && CHUNK_SIZE * c.1 + j == y)));
        }
        if covers(p, c) {
            let (i, j) = choose|i: int, j: int|
                0 <= i < CHUNK_SIZE && 0 <= j < CHUNK_SIZE && #[trigger] in_mask(p, c, i, j);
            assert(in_mask(q, c, i, j));
        }
        if covers(q, c) && c != h {
            let (i, j) = choose|i: int, j: int|
                0 <= i < CHUNK_SIZE && 0 <= j < CHUNK_SIZE && #[trigger] in_mask(q, c, i, j);
            assert(in_mask(p, c, i, j));
        }
        if c == h {
            assert(in_mask(q, c, lx, ly));
            let b = lookup(before, h);
            let a = after[h];
            let o = lookup(m, h);
            assert forall|i: int, j: int|
                0 <= i < CHUNK_SIZE && 0 <= j < CHUNK_SIZE implies #[trigger] a.cell(i, j)
                == b.cell(i, j) by {}
            a.lemma_equal_rows(b);
            assert(a.rows == b.rows);
            if before.contains_key(h) {
                assert(pins(o, h, p, b));
            } else {
                assert(b == o);
                assert(!covers(p, h));
                assert forall|i: int, j: int|
                    0 <= i < CHUNK_SIZE && 0 <= j < CHUNK_SIZE implies !in_mask(p, h, i, j) by {}
            }
            assert(b.rows == o.rows);
            assert(pins(o, h, q, a));
        } else {
            if after.contains_key(c) {
                assert(pins(lookup(m, c), c, p, before[c]));
                assert(pins(lookup(m, c), c, q, after[c]));
            }
        }
    }
}

impl World {
    /// Whether cell `(x, y)` is alive in a chunk that is awake.
    fn live_cell(&self, x: i64, y: i64) -> (b: bool)
        requires
            addressable(x as int, y as int),
        ensures
            b == lookup(self@.chunks, home_coord(x as int, y as int)).cell(
                x as int % CHUNK_SIZE as int,
                y as int % CHUNK_SIZE as int,
            ),
    {
        let (c, lx, ly) = split(x, y);
        match self.chunks.get(&c) {
            Some(ch) => ch.get(lx, ly),
            None => {
                proof {
                    let v = lookup(self@.chunks, c);
                    v.lemma_blank();
                    assert(!v.cell(lx as int, ly as int));
                }
                false
            },
        }
    }

    /// Freeze every cell of a rectangle at its current value. Chunks are made where there are
    /// none.
    pub fn freeze_rect(&mut self, x: i64, y: i64, w: u32, h: u32)
        requires
            forall|u: int, v: int|
                x <= u < x + w && y <= v < y + h ==> #[trigger] addressable(u, v),
        ensures
            pins_all(
                old(self)@.chunks,
                |u: int, v: int| x <= u < x + w && y <= v < y + h,
                final(self)@.chunks,
            ),
            final(self)@ == old(self)@.pinned(
                |u: int, v: int| x <= u < x + w && y <= v < y + h,
            ),
            old(self)@.wf() ==> final(self)@.wf(),
    {
        let ghost w0 = self@;
        let ghost mut p: spec_fn(int, int) -> bool = |u: int, v: int| false;
        proof {
            assert(pins_all(w0.chunks, p, self@.chunks));
        }
        let mut j: u32 = 0;
        while j < h
            invariant
                j <= h,
                forall|u: int, v: int|
                    x <= u < x + w && y <= v < y + h ==> #[trigger] addressable(u, v),
                forall|u: int, v: int| #[trigger]
                    p(u, v) == (x <= u < x + w && y <= v < y + j),
                pins_all(w0.chunks, p, self@.chunks),
                self@ == (WorldState { chunks: self@.chunks, ..w0 }),
            decreases h - j,
        {
            let mut i: u32 = 0;
            while i < w
                invariant
                    i <= w,
                    j < h,
                    forall|u: int, v: int|
                        x <= u < x + w && y <= v < y + h ==> #[trigger] addressable(u, v),
                    forall|u: int, v: int| #[trigger]
                        p(u, v) == ((x <= u < x + w && y <= v < y + j) || (v == y + j && x <= u < x
                            + i)),
                    pins_all(w0.chunks, p, self@.chunks),
                    self@ == (WorldState { chunks: self@.chunks, ..w0 }),
                decreases w - i,
            {
                proof {
                    assert(addressable(x + i, y + j));
                }
                let cx: i64 = x + i as i64;
                let cy: i64 = y + j as i64;
                let alive = self.live_cell(cx, cy);
                let ghost before = self@.chunks;
                self.freeze_cell(cx, cy, alive);
                proof {
                    let q: spec_fn(int, int) -> bool = |u: int, v: int|
                        p(u, v) || (u == cx && v == cy);
                    lemma_pin_one(w0.chunks, before, self@.chunks, p, q, cx as int, cy as int);
                    p = q;
                }
                i = i + 1;
            }
            j = j + 1;
        }
        proof {
            let q: spec_fn(int, int) -> bool = |u: int, v: int|
                x <= u < x + w && y <= v < y + h;
            assert(p =~= q);
            w0.lemma_pinned(q, self@);
        }
    }
}

/// What a tick makes of a world is determined by the world.
pub proof fn law_tick_is_determined(w: WorldState, a: WorldState, b: WorldState)
    requires
        w.ticks_to(a),
        w.ticks_to(b),
    ensures
        a == b,
{
    assert forall|c: ChunkCoord| #[trigger] a.chunks.dom().contains(c) == b.chunks.dom().contains(
        c,
    ) by {
        assert(entry(a.chunks, c) == w.outcome_at(c));
        assert(entry(b.chunks, c) == w.outcome_at(c));
    }
    assert forall|c: ChunkCoord| a.chunks.contains_key(c) implies #[trigger] a.chunks[c]
        == b.chunks[c] by {
        assert(entry(a.chunks, c) == w.outcome_at(c));
        assert(entry(b.chunks, c) == w.outcome_at(c));
    }
    assert(a.chunks =~= b.chunks);
    assert(a =~= b);
}

/// What a tick reports is determined by the world, up to the order in which it is listed: two
/// ticks of the same world lead to the same world, and their reports are permutations of each
/// other. What was in the buffers before has no part in it.
pub proof fn law_reports_are_determined(
    w: WorldState,
    a: WorldState,
    b: WorldState,
    x: TickOutcome,
    y: TickOutcome,
)
    requires
        w.ticks_to(a),
        w.ticks_to(b),
        exists|order: Seq<ChunkCoord>| w.reports(order, x),
        exists|order: Seq<ChunkCoord>| w.reports(order, y),
    ensures
        a == b,
        x.changed@.to_multiset() == y.changed@.to_multiset(),
        x.removed@.to_multiset() == y.removed@.to_multiset(),
        x.hash_reports@.to_multiset() == y.hash_reports@.to_multiset(),
        x.perturbation_wakes == y.perturbation_wakes,
{
    law_tick_is_determined(w, a, b);
    let p = choose|order: Seq<ChunkCoord>| w.reports(order, x);
    let q = choose|order: Seq<ChunkCoord>| w.reports(order, y);
    let changes = |c: ChunkCoord| w.changes(c);
    let drops = |c: ChunkCoord| w.drops(c);
    let stays = |c: ChunkCoord| !w.vanishes(c);
    assert forall|c: ChunkCoord| #[trigger] p.contains(c) <==> q.contains(c) by {
        assert(p.contains(c) <==> w.active(c));
        assert(q.contains(c) <==> w.active(c));
    }
    sort::lemma_filter_permutation(p, q, changes);
    sort::lemma_filter_permutation(p, q, drops);
    sort::lemma_filter_permutation(p, q, stays);
    let report = |c: ChunkCoord| w.report(c);
    assert forall|c: ChunkCoord, d: ChunkCoord| #[trigger] report(c) == #[trigger] report(
        d,
    ) implies c == d by {
        assert(report(c).coord == c && report(d).coord == d);
    }
    sort::lemma_map_permutation(p.filter(stays), q.filter(stays), report);
    let up = choose|woken: Seq<ChunkCoord>| #[trigger]
        sort::ascending(woken) && woken.no_duplicates() && (forall|c: ChunkCoord| #[trigger]
            woken.contains(c) <==> w.perturbed(c)) && x.changed@ == woken + p.filter(
            |c: ChunkCoord| w.changes(c),
        ) && x.perturbation_wakes == woken.len();
    let vp = choose|woken: Seq<ChunkCoord>| #[trigger]
        sort::ascending(woken) && woken.no_duplicates() && (forall|c: ChunkCoord| #[trigger]
            woken.contains(c) <==> w.perturbed(c)) && y.changed@ == woken + q.filter(
            |c: ChunkCoord| w.changes(c),
        ) && y.perturbation_wakes == woken.len();
    assert forall|c: ChunkCoord| #[trigger] up.contains(c) <==> vp.contains(c) by {
        assert(up.contains(c) <==> w.perturbed(c));
        assert(vp.contains(c) <==> w.perturbed(c));
    }
    sort::lemma_permutation(up, vp);
    sort::lemma_same_members(up, vp);
    vstd::seq_lib::lemma_multiset_commutative(up, p.filter(changes));
    vstd::seq_lib::lemma_multiset_commutative(vp, q.filter(changes));
}

impl WorldState {
    /// The world one tick on.
    pub open spec fn after_tick(self) -> WorldState {
        choose|next: WorldState| self.ticks_to(next)
    }

    /// Whether the next tick can be made.
    pub open spec fn ready(self) -> bool {
        self.can_tick() && self.oscillators.len() <= u32::MAX
    }

    /// The world after `n` ticks, or where it stopped short because a tick could not be made,
    /// and whether all were made.
    pub open spec fn run(self, n: nat) -> (WorldState, bool)
        decreases n,
    {
        if n == 0 {
            (self, true)
        } else if !self.ready() {
            (self, false)
        } else {
            self.after_tick().run((n - 1) as nat)
        }
    }

    /// The world with cell `(x, y)` set to `alive`, unless it is frozen.
    pub open spec fn edited(self, x: int, y: int, alive: bool) -> WorldState {
        let c = home_coord(x, y);
        WorldState {
            chunks: self.chunks.insert(
                c,
                lookup(self.chunks, c).setting(
                    x % CHUNK_SIZE as int,
                    y % CHUNK_SIZE as int,
                    alive,
                ),
            ),
            ..self
        }
    }

    pub proof fn lemma_after_tick(self, next: WorldState)
        requires
            self.ticks_to(next),
        ensures
            next == self.after_tick(),
    {
        law_tick_is_determined(self, next, self.after_tick());
    }
}

/// Whether all coordinates lie off the rim.
fn all_interior(coords: &Vec<ChunkCoord>) -> (b: bool)
    ensures
        b == (forall|c: ChunkCoord| #[trigger] coords@.contains(c) ==> interior(c)),
{
    let mut i: usize = 0;
    while i < coords.len()
        invariant
            i <= coords.len(),
            forall|j: int| 0 <= j < i ==> interior(#[trigger] coords@[j]),
        decreases coords.len() - i,
    {
        let (x, y) = coords[i];
        if x == i32::MIN || x == i32::MAX || y == i32::MIN || y == i32::MAX {
            assert(coords@.contains(coords@[i as int]));
            return false;
        }
        i = i + 1;
    }
    assert forall|c: ChunkCoord| #[trigger] coords@.contains(c) implies interior(c) by {
        let j = choose|j: int| 0 <= j < coords@.len() && coords@[j] == c;
        assert(interior(coords@[j]));
    }
    true
}

/// Whether all coordinates of a map lie off the rim.
fn keys_interior<V>(m: &CoordMap<V>) -> (b: bool)
    ensures
        b == (forall|c: ChunkCoord| #[trigger] m@.contains_key(c) ==> interior(c)),
{
    let coords = m.keys();
    let b = all_interior(&coords);
    proof {
        if b {
            assert forall|c: ChunkCoord| #[trigger] m@.contains_key(c) implies interior(c) by {
                assert(coords@.to_set().contains(c));
            }
        } else {
            let c = choose|c: ChunkCoord| coords@.contains(c) && !interior(c);
            assert(coords@.to_set().contains(c));
            assert(m@.contains_key(c));
        }
    }
    b
}

impl World {
    /// Whether the next tick can be made: the tick counter does not overflow, and no chunk that
    /// would be stepped lies on the rim of the coordinate range.
    pub fn ready(&self) -> (b: bool)
        requires
            self@.wf(),
        ensures
            b == self@.ready(),
    {
        proof {
            self.lemma_paused();
        }
        if self.tick == u64::MAX || self.oscillators.len() > u32::MAX as usize {
            return false;
        }
        let ghost w = self@;
        let mut edges = edges_of(&self.chunks);
        if !keys_interior(&edges) {
            proof {
                let c = choose|c: ChunkCoord| edges@.contains_key(c) && !interior(c);
                w.lemma_edges_active(c);
            }
            return false;
        }
        let hit = reach_set(&edges, &self.owned, Ghost(self.chunks@));
        let woken = self.to_wake(&hit);
        let ghost e0 = edges@;
        if !all_interior(&woken) {
            proof {
                let c = choose|c: ChunkCoord| woken@.contains(c) && !interior(c);
                assert(w.active(c));
            }
            return false;
        }
        let mut i: usize = 0;
        while i < woken.len()
            invariant
                i <= woken.len(),
                w == self@,
                w.wf(),
                forall|c: ChunkCoord| #[trigger] woken@.contains(c) <==> w.perturbed(c),
                forall|c: ChunkCoord| #[trigger]
                    edges@.contains_key(c) <==> e0.contains_key(c) || woken@.take(
                        i as int,
                    ).contains(c),
                forall|c: ChunkCoord| #[trigger]
                    edges@.contains_key(c) ==> (if woken@.take(i as int).contains(c) {
                        w.oscillators[c].resumed(c, w.tick).bordered_by(edges@[c])
                    } else {
                        edges@[c] == e0[c]
                    }),
            decreases woken.len() - i,
        {
            let c = woken[i];
            proof {
                assert(woken@.take(i + 1) =~= woken@.take(i as int).push(c));
                sort::lemma_push_contains(woken@.take(i as int), c);
                assert(woken@.contains(c));
            }
            if let Some(osc) = self.oscillators.get(&c) {
                let ch = wake_chunk(c, osc, self.tick);
                edges.insert(c, ch.edges());
            }
            i = i + 1;
        }
        let ghost m = w.awake();
        proof {
            assert(woken@.take(i as int) =~= woken@);
            assert forall|c: ChunkCoord| #[trigger] edges@.contains_key(c) implies m.contains_key(c)
                && m[c].bordered_by(edges@[c]) by {
                if !woken@.contains(c) {
                    assert(e0.contains_key(c));
                }
            }
            assert forall|c: ChunkCoord| #[trigger]
                m.contains_key(c) && !edges@.contains_key(c) implies m[c].blank() by {
                assert(!woken@.contains(c));
            }
            assert forall|c: ChunkCoord| #[trigger] edges@.contains_key(c) implies interior(c)
                && w.active(c) by {
                if woken@.contains(c) {
                    assert(w.perturbed(c));
                } else {
                    w.lemma_edges_active(c);
                }
            }
        }
        let candidates = reach_set(&edges, &self.owned, Ghost(m));
        let b = keys_interior(&candidates);
        proof {
            if b {
                assert forall|c: ChunkCoord| #[trigger] w.active(c) implies interior(c) by {
                    if w.perturbed(c) {
                        assert(woken@.contains(c));
                    } else if !lookup(m, c).blank() {
                        if !m.contains_key(c) {
                            lookup(m, c).lemma_blank();
                        }
                        assert(edges@.contains_key(c));
                    } else {
                        assert(candidates@.contains_key(c));
                    }
                }
            } else {
                let c = choose|c: ChunkCoord| candidates@.contains_key(c) && !interior(c);
                assert(w.active(c));
            }
        }
        b
    }

    /// Tick until the tick counter has reached `tick`, or until a tick cannot be made. Returns
    /// whether it got there.
    pub fn run_to(&mut self, tick: u64) -> (r: bool)
        requires
            old(self)@.wf(),
        ensures
            final(self)@.wf(),
            tick <= old(self)@.tick ==> r && final(self)@ == old(self)@,
            tick >= old(self)@.tick ==> (final(self)@, r) == old(self)@.run(
                (tick - old(self)@.tick) as nat,
            ),
    {
        let ghost w = self@;
        while self.tick < tick
            invariant
                self@.wf(),
                w == old(self)@,
                w.tick < tick ==> self@.tick <= tick,
                w.tick < tick ==> w.run((tick - w.tick) as nat) == self@.run(
                    (tick - self@.tick) as nat,
                ),
                w.tick >= tick ==> self@ == w,
                w.tick >= tick ==> w.run(0) == (w, true),
            decreases tick - self.tick,
        {
            if !self.ready() {
                return false;
            }
            let ghost before = self@;
            self.tick();
            proof {
                before.lemma_after_tick(self@);
            }
        }
        true
    }
}

/// `next` is the map `m` with each cell of `mask` that is not frozen set as in `on`, and with a
/// chunk wherever `mask` has a cell.
pub open spec fn stamps_all(
    m: Map<ChunkCoord, Chunk>,
    mask: spec_fn(int, int) -> bool,
    on: spec_fn(int, int) -> bool,
    next: Map<ChunkCoord, Chunk>,
) -> bool {
    forall|c: ChunkCoord|
        {
            &&& #[trigger] next.contains_key(c) <==> m.contains_key(c) || covers(mask, c)
            &&& next.contains_key(c) ==> stamps(lookup(m, c), c, mask, on, next[c])
        }
}

/// `next` is the chunk `c` of coordinates `at` with each cell of `mask` that is not frozen set as
/// in `on`.
pub open spec fn stamps(
    c: Chunk,
    at: ChunkCoord,
    mask: spec_fn(int, int) -> bool,
    on: spec_fn(int, int) -> bool,
    next: Chunk,
) -> bool {
    &&& next.frozen == c.frozen
    &&& forall|i: int, j: int|
        0 <= i < CHUNK_SIZE && 0 <= j < CHUNK_SIZE ==> #[trigger] next.cell(i, j) == (if in_mask(
            mask,
            at,
            i,
            j,
        ) && !c.frozen_at(i, j) {
            in_mask(on, at, i, j)
        } else {
            c.cell(i, j)
        })
}

impl WorldState {
    /// The world with no cell frozen in a chunk that is awake.
    pub open spec fn thawed(self) -> WorldState {
        WorldState {
            chunks: self.chunks.map_values(|c: Chunk| Chunk { rows: c.rows, frozen: None }),
            ..self
        }
    }

    /// The world with each cell of `mask` that is not frozen set as in `on`.
    pub open spec fn stamped(
        self,
        mask: spec_fn(int, int) -> bool,
        on: spec_fn(int, int) -> bool,
    ) -> WorldState {
        WorldState {
            chunks: choose|next: Map<ChunkCoord, Chunk>| stamps_all(self.chunks, mask, on, next),
            ..self
        }
    }

    /// The world with the cells of `mask` frozen at their values.
    pub open spec fn pinned(self, mask: spec_fn(int, int) -> bool) -> WorldState {
        WorldState {
            chunks: choose|next: Map<ChunkCoord, Chunk>| pins_all(self.chunks, mask, next),
            ..self
        }
    }

    /// [`WorldState::stamped`] sets the cells that it says.
    pub proof fn lemma_stamped_cells(
        self,
        mask: spec_fn(int, int) -> bool,
        on: spec_fn(int, int) -> bool,
    )
        ensures
            stamps_all(self.chunks, mask, on, self.stamped(mask, on).chunks),
    {
        let m = self.chunks;
        let cells = |c: ChunkCoord|
            |i: int, j: int|
                if in_mask(mask, c, i, j) && !lookup(m, c).frozen_at(i, j) {
                    in_mask(on, c, i, j)
                } else {
                    lookup(m, c).cell(i, j)
                };
        let next = Map::new(
            |c: ChunkCoord| m.contains_key(c) || covers(mask, c),
            |c: ChunkCoord|
                Chunk { rows: chunk::drawn(cells(c)), frozen: lookup(m, c).frozen },
        );
        assert forall|c: ChunkCoord|
            {
                &&& #[trigger] next.contains_key(c) <==> m.contains_key(c) || covers(mask, c)
                &&& next.contains_key(c) ==> stamps(lookup(m, c), c, mask, on, next[c])
            } by {
            chunk::lemma_drawn(cells(c));
            if next.contains_key(c) {
                assert forall|i: int, j: int|
                    0 <= i < CHUNK_SIZE && 0 <= j < CHUNK_SIZE implies #[trigger] next[c].cell(i, j)
                    == cells(c)(i, j) by {
                    assert(bits::bit(chunk::drawn(cells(c))[j], i) == cells(c)(i, j));
                }
            }
        }
        assert(stamps_all(m, mask, on, next));
    }

    /// [`WorldState::pinned`] freezes the cells that it says.
    pub proof fn lemma_pinned_cells(self, mask: spec_fn(int, int) -> bool)
        ensures
            pins_all(self.chunks, mask, self.pinned(mask).chunks),
    {
        let m = self.chunks;
        let frozen = |c: ChunkCoord|
            |i: int, j: int| lookup(m, c).frozen_at(i, j) || in_mask(mask, c, i, j);
        let value = |c: ChunkCoord|
            |i: int, j: int|
                if in_mask(mask, c, i, j) {
                    lookup(m, c).cell(i, j)
                } else {
                    lookup(m, c).pinned_at(i, j)
                };
        let next = Map::new(
            |c: ChunkCoord| m.contains_key(c) || covers(mask, c),
            |c: ChunkCoord|
                Chunk {
                    rows: lookup(m, c).rows,
                    frozen: if lookup(m, c).frozen is Some || covers(mask, c) {
                        Some(
                            Arc::new(
                                chunk::FrozenMask {
                                    mask: chunk::drawn(frozen(c)),
                                    value: chunk::drawn(value(c)),
                                },
                            ),
                        )
                    } else {
                        None
                    },
                },
        );
        assert forall|c: ChunkCoord|
            {
                &&& #[trigger] next.contains_key(c) <==> m.contains_key(c) || covers(mask, c)
                &&& next.contains_key(c) ==> pins(lookup(m, c), c, mask, next[c])
            } by {
            if next.contains_key(c) {
                let o = lookup(m, c);
                let n = next[c];
                chunk::lemma_drawn(frozen(c));
                chunk::lemma_drawn(value(c));
                assert forall|i: int, j: int|
                    0 <= i < CHUNK_SIZE && 0 <= j < CHUNK_SIZE implies #[trigger] n.frozen_at(i, j)
                    == (o.frozen_at(i, j) || in_mask(mask, c, i, j)) by {
                    if n.frozen is Some {
                        assert(bits::bit(chunk::drawn(frozen(c))[j], i) == frozen(c)(i, j));
                    } else {
                        assert(!in_mask(mask, c, i, j));
                    }
                }
                assert forall|i: int, j: int|
                    0 <= i < CHUNK_SIZE && 0 <= j < CHUNK_SIZE implies #[trigger] n.pinned_at(i, j)
                    == (if in_mask(mask, c, i, j) {
                    o.cell(i, j)
                } else {
                    o.pinned_at(i, j)
                }) by {
                    if n.frozen is Some {
                        assert(bits::bit(chunk::drawn(value(c))[j], i) == value(c)(i, j));
                    } else {
                        assert(!in_mask(mask, c, i, j));
                    }
                }
            }
        }
        assert(pins_all(m, mask, next));
    }

    /// Setting cells has one outcome.
    pub proof fn lemma_stamped(
        self,
        mask: spec_fn(int, int) -> bool,
        on: spec_fn(int, int) -> bool,
        next: WorldState,
    )
        requires
            stamps_all(self.chunks, mask, on, next.chunks),
            next == (WorldState { chunks: next.chunks, ..self }),
        ensures
            next == self.stamped(mask, on),
    {
        let a = next.chunks;
        let b = self.stamped(mask, on).chunks;
        assert(stamps_all(self.chunks, mask, on, b));
        assert forall|c: ChunkCoord| a.contains_key(c) implies #[trigger] a[c] == b[c] by {
            assert(b.contains_key(c));
            let o = lookup(self.chunks, c);
            assert(stamps(o, c, mask, on, a[c]) && stamps(o, c, mask, on, b[c]));
            assert forall|i: int, j: int|
                0 <= i < CHUNK_SIZE && 0 <= j < CHUNK_SIZE implies #[trigger] a[c].cell(i, j)
                == b[c].cell(i, j) by {}
            a[c].lemma_equal(b[c]);
        }
        assert forall|c: ChunkCoord| #[trigger] a.dom().contains(c) == b.dom().contains(c) by {
            assert(a.contains_key(c) == b.contains_key(c));
        }
        assert(a =~= b);
    }

    /// Freezing cells has one outcome.
    pub proof fn lemma_pinned(self, mask: spec_fn(int, int) -> bool, next: WorldState)
        requires
            pins_all(self.chunks, mask, next.chunks),
            next == (WorldState { chunks: next.chunks, ..self }),
        ensures
            next == self.pinned(mask),
    {
        let a = next.chunks;
        let b = self.pinned(mask).chunks;
        assert(pins_all(self.chunks, mask, b));
        assert forall|c: ChunkCoord| a.contains_key(c) implies #[trigger] a[c] == b[c] by {
            assert(b.contains_key(c));
            let o = lookup(self.chunks, c);
            assert(pins(o, c, mask, a[c]) && pins(o, c, mask, b[c]));
            assert(a[c].rows == b[c].rows);
            assert(a[c].frozen is Some <==> b[c].frozen is Some);
            if a[c].frozen is Some {
                let ma = a[c].frozen->0;
                let mb = b[c].frozen->0;
                let a1 = Chunk { rows: ma.mask, frozen: None };
                let b1 = Chunk { rows: mb.mask, frozen: None };
                let a2 = Chunk { rows: ma.value, frozen: None };
                let b2 = Chunk { rows: mb.value, frozen: None };
                assert forall|i: int, j: int|
                    0 <= i < CHUNK_SIZE && 0 <= j < CHUNK_SIZE implies #[trigger] a1.cell(i, j)
                    == b1.cell(i, j) by {
                    assert(a[c].frozen_at(i, j) == b[c].frozen_at(i, j));
                }
                assert forall|i: int, j: int|
                    0 <= i < CHUNK_SIZE && 0 <= j < CHUNK_SIZE implies #[trigger] a2.cell(i, j)
                    == b2.cell(i, j) by {
                    assert(a[c].pinned_at(i, j) == b[c].pinned_at(i, j));
                }
                a1.lemma_equal_rows(b1);
                a2.lemma_equal_rows(b2);
            }
        }
        assert forall|c: ChunkCoord| #[trigger] a.dom().contains(c) == b.dom().contains(c) by {
            assert(a.contains_key(c) == b.contains_key(c));
        }
        assert(a =~= b);
    }
}

/// Setting one more cell.
pub proof fn lemma_stamp_one(
    m: Map<ChunkCoord, Chunk>,
    before: Map<ChunkCoord, Chunk>,
    after: Map<ChunkCoord, Chunk>,
    p: spec_fn(int, int) -> bool,
    q: spec_fn(int, int) -> bool,
    on: spec_fn(int, int) -> bool,
    x: int,
    y: int,
)
    requires
        addressable(x, y),
        stamps_all(m, p, on, before),
        forall|u: int, v: int| #[trigger] q(u, v) == (p(u, v) || (u == x && v == y)),
        after == before.insert(home_coord(x, y), after[home_coord(x, y)]),
        lookup(before, home_coord(x, y)).sets(
            x % CHUNK_SIZE as int,
            y % CHUNK_SIZE as int,
            on(x, y),
            after[home_coord(x, y)],
        ),
    ensures
        stamps_all(m, q, on, after),
{
    let h = home_coord(x, y);
    let lx = x % CHUNK_SIZE as int;
    let ly = y % CHUNK_SIZE as int;
    assert forall|c: ChunkCoord|
        {
            &&& #[trigger] after.contains_key(c) <==> m.contains_key(c) || covers(q, c)
            &&& after.contains_key(c) ==> stamps(lookup(m, c), c, q, on, after[c])
        } by {
        assert(before.contains_key(c) <==> m.contains_key(c) || covers(p, c));
        assert forall|i: int, j: int|
            0 <= i < CHUNK_SIZE && 0 <= j < CHUNK_SIZE implies #[trigger] in_mask(q, c, i, j) == (
        in_mask(p, c, i, j) || (c == h && i == lx && j == ly)) by {
            assert(q(CHUNK_SIZE * c.0 + i, CHUNK_SIZE * c.1 + j) == (p(
                CHUNK_SIZE * c.0 + i,
                CHUNK_SIZE * c.1 + j,
            ) || (CHUNK_SIZE * c.0 + i == x && CHUNK_SIZE * c.1 + j == y)));
        }
        if covers(p, c) {
            let (i, j) = choose|i: int, j: int|
                0 <= i < CHUNK_SIZE && 0 <= j < CHUNK_SIZE && #[trigger] in_mask(p, c, i, j);
            assert(in_mask(q, c, i, j));
        }
        if covers(q, c) && c != h {
            let (i, j) = choose|i: int, j: int|
                0 <= i < CHUNK_SIZE && 0 <= j < CHUNK_SIZE && #[trigger] in_mask(q, c, i, j);
            assert(in_mask(p, c, i, j));
        }
        if c == h {
            assert(in_mask(q, c, lx, ly));
            let b = lookup(before, h);
            let a = after[h];
            let o = lookup(m, h);
            if before.contains_key(h) {
                assert(stamps(o, h, p, on, b));
            } else {
                assert(b == o);
                assert(!covers(p, h));
                assert forall|i: int, j: int|
                    0 <= i < CHUNK_SIZE && 0 <= j < CHUNK_SIZE implies !#[trigger] in_mask(
                    p,
                    h,
                    i,
                    j,
                ) by {}
            }
            assert(in_mask(on, h, lx, ly) == on(x, y));
            assert forall|i: int, j: int|
                0 <= i < CHUNK_SIZE && 0 <= j < CHUNK_SIZE implies #[trigger] a.cell(i, j) == (
            if in_mask(q, h, i, j) && !o.frozen_at(i, j) {
                in_mask(on, h, i, j)
            } else {
                o.cell(i, j)
            }) by {
                assert(in_mask(q, h, i, j) == (in_mask(p, h, i, j) || (i == lx && j == ly)));
                if before.contains_key(h) {
                    assert(b.cell(i, j) == (if in_mask(p, h, i, j) && !o.frozen_at(i, j) {
                        in_mask(on, h, i, j)
                    } else {
                        o.cell(i, j)
                    }));
                } else {
                    assert(!in_mask(p, h, i, j));
                }
            }
            assert(stamps(o, h, q, on, a));
        } else {
            if after.contains_key(c) {
                assert(stamps(lookup(m, c), c, p, on, before[c]));
                assert(stamps(lookup(m, c), c, q, on, after[c]));
            }
        }
    }
}

} // verus!
