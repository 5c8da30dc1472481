//! The world as one plane of cells: what ticking, pausing, waking and editing do to it.

use crate::chunk;
use crate::chunk::Chunk;
use crate::coord::ChunkCoord;
use crate::ensemble;
use crate::oscillator::{Ensemble, Paused};
use crate::world;
use crate::world::WorldState;
use crate::CHUNK_SIZE;
use vstd::prelude::*;

verus! {

impl Ensemble {
    /// In phase `k` nothing is frozen in the chunk at `c`, it has live cells next to chunks of the
    /// group only, and one step takes it to the next phase.
    pub open spec fn turns(self, k: int, c: ChunkCoord) -> bool {
        let next = if k + 1 == self.phases.len() {
            0
        } else {
            k + 1
        };
        &&& self.phases[k][c].frozen is None
        &&& forall|d: ChunkCoord| #[trigger]
            world::adjacent(c, d) && !self.phases[0].contains_key(d)
                ==> !self.phases[k][c].touches(d.0 - c.0, d.1 - c.1)
        &&& self.phases[next][c] == self.phases[k][c].stepped(
            world::plane(self.phases[k], self.owned, c),
        )
    }

    /// The chunks of the group repeat themselves together after `period` steps, and have no live
    /// cell next to any other chunk.
    pub open spec fn cycles(self, period: u8) -> bool {
        &&& self.phases.len() == period
        &&& forall|k: int|
            0 <= k < period ==> (#[trigger] self.phases[k]).dom() == self.phases[0].dom()
        &&& forall|c: ChunkCoord| #[trigger]
            self.phases[0].contains_key(c) ==> world::interior(c)
        &&& forall|k: int, c: ChunkCoord|
            0 <= k < period && self.phases[0].contains_key(c) ==> #[trigger] self.turns(k, c)
    }
}

/// The chunk, which is paused at `c`, repeats itself by itself, and never has a live cell on one of
/// its sides; or it is one of a group that repeats itself.
pub open spec fn cycles(c: ChunkCoord, o: Paused) -> bool {
    match o.group {
        None => {
            &&& o.chunk.frozen is None
            &&& world::coast(o.chunk, o.period as nat) == o.chunk
            &&& forall|k: nat| k < o.period ==> world::sealed(#[trigger] world::coast(o.chunk, k))
        },
        Some(g) => g.cycles(o.period) && g.phases[0].contains_key(c),
    }
}

impl WorldState {
    /// Whether the chunks at `c` and `d` are paused, each with the other in its group.
    pub open spec fn paired(self, c: ChunkCoord, d: ChunkCoord) -> bool {
        &&& self.oscillators.contains_key(c)
        &&& self.oscillators.contains_key(d)
        &&& self.oscillators[c].members().contains(d)
        &&& self.oscillators[d].members().contains(c)
    }

    /// No chunk is both awake and paused, what is paused cycles, what leans on a paused chunk is in
    /// its group, and chunks in each other's group were paused together. A world with nothing
    /// paused is coherent, whatever its chunks hold.
    pub open spec fn coherent(self) -> bool {
        &&& self.wf()
        &&& forall|c: ChunkCoord| #[trigger]
            self.chunks.contains_key(c) ==> !self.oscillators.contains_key(c)
        &&& forall|c: ChunkCoord| #[trigger]
            self.oscillators.contains_key(c) ==> cycles(c, self.oscillators[c])
                && self.oscillators[c].paused_at_tick <= self.tick
        &&& forall|c: ChunkCoord, d: ChunkCoord|
            self.oscillators.contains_key(c) && #[trigger] self.leans_on(d, c)
                ==> self.oscillators[c].members().contains(d)
        &&& forall|c: ChunkCoord, d: ChunkCoord| #[trigger]
            self.paired(c, d) ==> self.oscillators[c].group == self.oscillators[d].group
                && self.oscillators[c].period == self.oscillators[d].period
                && self.oscillators[c].paused_at_tick == self.oscillators[d].paused_at_tick
    }

    /// The world is coherent, and its frozen cells have the values that they are pinned to, as
    /// running, pausing and editing leave it.
    pub open spec fn sound(self) -> bool {
        &&& self.coherent()
        &&& forall|c: ChunkCoord| #[trigger]
            self.chunks.contains_key(c) ==> self.chunks[c].pins_hold()
    }

    /// The chunk at `c` as it is at the current tick, whether awake or paused.
    pub open spec fn current(self, c: ChunkCoord) -> Chunk {
        if self.oscillators.contains_key(c) && !self.chunks.contains_key(c) {
            self.oscillators[c].resumed(c, self.tick)
        } else {
            world::lookup(self.chunks, c)
        }
    }

    /// Whether cell `(x, y)` is alive at the current tick.
    pub open spec fn alive(self, x: int, y: int) -> bool {
        &&& world::addressable(x, y)
        &&& self.current(world::home_coord(x, y)).cell(
            x % CHUNK_SIZE as int,
            y % CHUNK_SIZE as int,
        )
    }

    /// Whether cell `(x, y)` is frozen.
    pub open spec fn frozen(self, x: int, y: int) -> bool {
        &&& world::addressable(x, y)
        &&& self.current(world::home_coord(x, y)).frozen_at(
            x % CHUNK_SIZE as int,
            y % CHUNK_SIZE as int,
        )
    }

    /// The value that cell `(x, y)` is pinned to, if it is frozen.
    pub open spec fn pin(self, x: int, y: int) -> bool {
        &&& self.frozen(x, y)
        &&& self.current(world::home_coord(x, y)).pinned_at(
            x % CHUNK_SIZE as int,
            y % CHUNK_SIZE as int,
        )
    }

    /// Both worlds show the same cells, and the same of them are frozen and pinned to the same
    /// values.
    pub open spec fn looks_like(self, other: WorldState) -> bool {
        &&& forall|x: int, y: int| #[trigger] self.alive(x, y) == other.alive(x, y)
        &&& forall|x: int, y: int| #[trigger] self.frozen(x, y) == other.frozen(x, y)
        &&& forall|x: int, y: int| #[trigger] self.pin(x, y) == other.pin(x, y)
    }

    /// Whether the cells of chunk `c` take notice of cell `(x, y)`.
    pub open spec fn noticed(self, c: ChunkCoord, x: int, y: int) -> bool {
        world::accepts(self.owned, c, world::home_coord(x, y))
    }

    /// The plane of live cells, as the cells of chunk `c` take notice of it.
    pub open spec fn field(self, c: ChunkCoord) -> spec_fn(int, int) -> bool {
        |x: int, y: int| self.alive(x, y) && self.noticed(c, x, y)
    }

    /// `next` holds the plane of cells one generation on, by Conway's rule: frozen cells stay as
    /// they are, and cells of owned chunks take no notice of cells of chunks that are not owned.
    pub open spec fn lives_on(self, next: WorldState) -> bool {
        forall|x: int, y: int|
            world::addressable(x, y) ==> {
                let f = self.field(world::home_coord(x, y));
                &&& #[trigger] next.alive(x, y) == (if self.frozen(x, y) {
                    self.alive(x, y)
                } else {
                    chunk::life(self.alive(x, y), chunk::neighbors(f, x, y))
                })
                &&& next.frozen(x, y) == self.frozen(x, y)
            }
    }

    /// The field of chunk `c` in its local coordinates.
    spec fn local(self, c: ChunkCoord) -> spec_fn(int, int) -> bool {
        |x: int, y: int| self.field(c)(CHUNK_SIZE * c.0 + x, CHUNK_SIZE * c.1 + y)
    }
}

proof fn lemma_local_coords(c: ChunkCoord, x: int, y: int)
    requires
        -1 <= x <= CHUNK_SIZE,
        -1 <= y <= CHUNK_SIZE,
    ensures
        world::home(CHUNK_SIZE * c.0 + x, CHUNK_SIZE * c.1 + y) == (
            c.0 + world::side(x),
            c.1 + world::side(y),
        ),
        (CHUNK_SIZE * c.0 + x) % CHUNK_SIZE as int == x - CHUNK_SIZE * world::side(x),
        (CHUNK_SIZE * c.1 + y) % CHUNK_SIZE as int == y - CHUNK_SIZE * world::side(y),
{
}

/// A live cell just outside `c` lies in a neighbor that touches `c`.
proof fn lemma_rim_touches(w: WorldState, c: ChunkCoord, x: int, y: int)
    requires
        chunk::on_rim(x, y),
        w.local(c)(x, y),
    ensures
        ({
            let d = world::shift(c, world::side(x), world::side(y));
            &&& d.0 == c.0 + world::side(x)
            &&& d.1 == c.1 + world::side(y)
            &&& world::adjacent(c, d)
            &&& world::accepts(w.owned, c, d)
            &&& w.current(d).touches(c.0 - d.0, c.1 - d.1)
        }),
{
    lemma_local_coords(c, x, y);
    let d = world::shift(c, world::side(x), world::side(y));
    let lx = x - CHUNK_SIZE * world::side(x);
    let ly = y - CHUNK_SIZE * world::side(y);
    assert(w.current(d).cell(lx, ly));
    assert(chunk::facing(lx, c.0 - d.0));
    assert(chunk::facing(ly, c.1 - d.1));
}

pub proof fn lemma_coast_frozen(c: Chunk, n: nat)
    ensures
        world::coast(c, n).frozen == c.frozen,
    decreases n,
{
    if n > 0 {
        lemma_coast_frozen(c, (n - 1) as nat);
    }
}

/// In each of its phases a paused chunk that cycles has nothing frozen, and live cells next to
/// chunks of its group at most.
pub proof fn lemma_resumed(c: ChunkCoord, o: Paused, tick: u64)
    requires
        cycles(c, o),
        o.wf(c),
    ensures
        o.resumed(c, tick).frozen is None,
        o.group is None ==> world::sealed(o.resumed(c, tick)),
        forall|d: ChunkCoord| #[trigger]
            world::adjacent(c, d) && !o.members().contains(d) ==> !o.resumed(c, tick).touches(
                d.0 - c.0,
                d.1 - c.1,
            ),
{
    let k = o.phase(tick);
    assert(k < o.period);
    if let Some(g) = o.group {
        assert(g.turns(k as int, c));
    } else {
        lemma_coast_frozen(o.chunk, k);
        assert(world::sealed(world::coast(o.chunk, k)));
        assert forall|d: ChunkCoord| #[trigger]
            world::adjacent(c, d) && !o.members().contains(d) implies !o.resumed(c, tick).touches(
            d.0 - c.0,
            d.1 - c.1,
        ) by {}
    }
}

/// All of a group that is not disturbed are paused alike, and none of it is disturbed.
proof fn lemma_group_rests(w: WorldState, c: ChunkCoord, d: ChunkCoord)
    requires
        w.coherent(),
        w.oscillators.contains_key(c),
        !w.perturbed(c),
        w.oscillators[c].members().contains(d),
    ensures
        w.oscillators.contains_key(d),
        w.oscillators[d].group == w.oscillators[c].group,
        w.oscillators[d].period == w.oscillators[c].period,
        w.oscillators[d].paused_at_tick == w.oscillators[c].paused_at_tick,
        w.owned.contains(d) == w.oscillators[c].group->0.owned.contains(d),
        !w.perturbed(d),
{
    let members = w.oscillators[c].members();
    assert(w.holds(c, d));
    assert(w.paired(c, d));
    assert(members.contains(c)) by {
        assert(w.oscillators[c].wf(c));
        assert(w.oscillators[c].group->0.phases[0].contains_key(c));
    }
    assert forall|e: ChunkCoord| #[trigger] w.oscillators[d].members().contains(e) implies w.holds(
        d,
        e,
    ) && !world::reached(w.chunks, w.owned, e) by {
        assert(members.contains(e));
        assert(w.holds(c, e));
        assert(w.paired(c, e));
    }
}

/// Where no live cell lies just outside `c`, its next state is that of the chunk by itself.
proof fn lemma_quiet_alone(w: WorldState, c: ChunkCoord)
    requires
        forall|x: int, y: int| #[trigger] chunk::on_rim(x, y) ==> !w.local(c)(x, y),
    ensures
        w.current(c).stepped(w.local(c)) == w.current(c).stepped(world::alone(w.current(c))),
{
    let e = w.current(c);
    let p = w.local(c);
    let q = world::alone(e);
    assert forall|x: int, y: int|
        -1 <= x <= CHUNK_SIZE && -1 <= y <= CHUNK_SIZE implies #[trigger] p(x, y) == q(x, y) by {
        if !chunk::on_rim(x, y) {
            lemma_local_coords(c, x, y);
        }
    }
    e.lemma_next_local(p, q);
    assert(chunk::quiet(p));
    assert(chunk::quiet(q));
}

/// A blank chunk whose frozen cells hold, with nothing alive around it, is its own successor.
proof fn lemma_still(e: Chunk, p: spec_fn(int, int) -> bool)
    requires
        e.blank(),
        e.pins_hold(),
        forall|x: int, y: int|
            -1 <= x <= CHUNK_SIZE && -1 <= y <= CHUNK_SIZE ==> !#[trigger] p(x, y),
    ensures
        e.next(p) == e,
{
    e.lemma_blank_stays(p);
    e.lemma_next(p);
}

/// Phases follow each other, the first the last.
proof fn lemma_phase_next(o: Paused, tick: u64)
    requires
        1 <= o.period,
        o.paused_at_tick <= tick < u64::MAX,
    ensures
        o.phase(tick) < o.period,
        o.phase((tick + 1) as u64) == (if o.phase(tick) + 1 == o.period {
            0
        } else {
            o.phase(tick) + 1
        }),
{
    let s = tick - o.paused_at_tick;
    let p = o.period as int;
    vstd::arithmetic::div_mod::lemma_fundamental_div_mod(s, p);
    let q = s / p;
    let r = s % p;
    assert(p * q == q * p) by (nonlinear_arith);
    if r + 1 == p {
        assert(s + 1 == (q + 1) * p + 0) by (nonlinear_arith)
            requires
                s == p * q + r,
                r + 1 == p,
        ;
        vstd::arithmetic::div_mod::lemma_fundamental_div_mod_converse(s + 1, p, q + 1, 0);
    } else {
        vstd::arithmetic::div_mod::lemma_fundamental_div_mod_converse(s + 1, p, q, r + 1);
    }
}

/// A chunk that is paused by itself moves on by one phase.
proof fn lemma_paused_next(c: ChunkCoord, o: Paused, tick: u64)
    requires
        cycles(c, o),
        o.group is None,
        1 <= o.period,
        o.paused_at_tick <= tick < u64::MAX,
    ensures
        o.resumed(c, (tick + 1) as u64) == o.resumed(c, tick).stepped(
            world::alone(o.resumed(c, tick)),
        ),
{
    let k = o.phase(tick);
    let e = o.resumed(c, tick);
    assert(world::coast(o.chunk, k + 1) == e.stepped(world::alone(e)));
    lemma_phase_next(o, tick);
    assert(world::coast(o.chunk, 0) == o.chunk);
}

/// A live cell just outside chunk `c` lies in a neighbor that wakes `c` if it is paused, and takes
/// part in the next tick; unless it lies in a chunk of the group that `c` is paused with, and that
/// group is not disturbed.
proof fn lemma_unreached(w: WorldState, c: ChunkCoord, x: int, y: int)
    requires
        w.coherent(),
        chunk::on_rim(x, y),
        w.local(c)(x, y),
    ensures
        ({
            let d = world::shift(c, world::side(x), world::side(y));
            ||| {
                &&& world::reached(w.awake(), w.owned, c)
                &&& w.oscillators.contains_key(c) ==> w.perturbed(c)
                &&& !w.oscillators.contains_key(d) || w.perturbed(d)
            }
            ||| {
                &&& w.oscillators.contains_key(c)
                &&& !w.perturbed(c)
                &&& w.oscillators[c].members().contains(d)
            }
        }),
{
    lemma_rim_touches(w, c, x, y);
    let d = world::shift(c, world::side(x), world::side(y));
    if w.oscillators.contains_key(d) {
        let o = w.oscillators[d];
        lemma_resumed(d, o, w.tick);
        assert(!w.chunks.contains_key(d));
        assert(w.current(d) == o.resumed(d, w.tick));
        assert(world::adjacent(d, c));
        assert(o.members().contains(c));
        assert(w.leans_on(d, c));
        if w.perturbed(d) {
            assert(world::reaches(w.awake(), w.owned, d, c));
            if w.oscillators.contains_key(c) && !w.perturbed(c) {
                lemma_group_rests(w, c, d);
            }
        } else {
            lemma_group_rests(w, d, c);
        }
    } else {
        if !w.chunks.contains_key(d) {
            w.current(d).lemma_blank();
            assert(w.current(d).blank());
            assert(false);
        }
        assert(world::reaches(w.chunks, w.owned, d, c));
        assert(!w.perturbed(d));
        assert(world::reaches(w.awake(), w.owned, d, c));
    }
}

/// What chunk `c` sees during a tick is the field around it.
proof fn lemma_seen(w: WorldState, c: ChunkCoord)
    requires
        w.coherent(),
        world::interior(c),
        !w.oscillators.contains_key(c) || w.perturbed(c),
    ensures
        w.current(c) == world::lookup(w.awake(), c),
        forall|x: int, y: int|
            -1 <= x <= CHUNK_SIZE && -1 <= y <= CHUNK_SIZE ==> #[trigger] w.seen(c)(x, y)
                == w.local(c)(x, y),
{
    assert forall|x: int, y: int|
        -1 <= x <= CHUNK_SIZE && -1 <= y <= CHUNK_SIZE implies #[trigger] w.seen(c)(x, y)
        == w.local(c)(x, y) by {
        lemma_local_coords(c, x, y);
        let d = world::shift(c, world::side(x), world::side(y));
        let lx = x - CHUNK_SIZE * world::side(x);
        let ly = y - CHUNK_SIZE * world::side(y);
        if chunk::on_rim(x, y) {
            if w.oscillators.contains_key(d) && !w.perturbed(d) {
                assert(!w.chunks.contains_key(d));
                if w.local(c)(x, y) {
                    lemma_unreached(w, c, x, y);
                }
                world::lookup(w.awake(), d).lemma_blank();
                assert(!world::lookup(w.awake(), d).cell(lx, ly));
            } else {
                assert(w.current(d) == world::lookup(w.awake(), d));
            }
        } else {
            assert(d == c);
        }
    }
}

/// A chunk that is paused with a group that is not disturbed moves on by one phase.
proof fn lemma_grouped_next(w: WorldState, c: ChunkCoord)
    requires
        w.coherent(),
        w.tick < u64::MAX,
        w.oscillators.contains_key(c),
        !w.perturbed(c),
        w.oscillators[c].group is Some,
    ensures
        w.oscillators[c].resumed(c, (w.tick + 1) as u64) == w.current(c).stepped(w.local(c)),
{
    let o = w.oscillators[c];
    let g = o.group->0;
    let k = o.phase(w.tick);
    let e = w.current(c);
    let p = w.local(c);
    let q = world::plane(g.phases[k as int], g.owned, c);
    assert(!w.chunks.contains_key(c));
    lemma_phase_next(o, w.tick);
    assert(g.phases[0].contains_key(c));
    assert(g.turns(k as int, c));
    assert(world::interior(c));
    assert(g.phases[k as int].dom() == g.phases[0].dom());
    lemma_group_rests(w, c, c);
    assert forall|x: int, y: int|
        -1 <= x <= CHUNK_SIZE && -1 <= y <= CHUNK_SIZE implies #[trigger] p(x, y) == q(x, y) by {
        lemma_local_coords(c, x, y);
        let d = world::shift(c, world::side(x), world::side(y));
        if o.members().contains(d) {
            lemma_group_rests(w, c, d);
            assert(!w.chunks.contains_key(d));
            assert(w.current(d) == g.phases[k as int][d]);
        } else {
            world::lookup(g.phases[k as int], d).lemma_blank();
            assert(world::lookup(g.phases[k as int], d).blank());
            assert(!q(x, y));
            if !chunk::on_rim(x, y) {
                assert(d == c);
            } else if p(x, y) {
                lemma_unreached(w, c, x, y);
            }
        }
    }
    e.lemma_next_local(p, q);
    assert(chunk::quiet(p) == chunk::quiet(q)) by {
        assert forall|x: int, y: int| chunk::on_rim(x, y) implies #[trigger] q(x, y) == p(x, y) by {
            assert(p(x, y) == q(x, y));
        }
    }
}

/// One tick takes the chunk at `c` one step on in its field.
proof fn lemma_chunk_lives_on(w: WorldState, next: WorldState, c: ChunkCoord)
    requires
        w.coherent(),
        w.can_tick(),
        w.ticks_to(next),
    ensures
        next.current(c) == w.current(c).stepped(w.local(c)),
        next.chunks.contains_key(c) ==> !next.oscillators.contains_key(c),
{
    let e = w.current(c);
    let p = w.local(c);
    assert(world::entry(next.chunks, c) == w.outcome_at(c));
    if w.oscillators.contains_key(c) && !w.perturbed(c) {
        let o = w.oscillators[c];
        assert(!w.chunks.contains_key(c));
        world::lookup(w.awake(), c).lemma_blank();
        if world::reached(w.awake(), w.owned, c) {
            let d = choose|d: ChunkCoord| world::reaches(w.awake(), w.owned, d, c);
            if w.perturbed(d) {
                lemma_resumed(d, w.oscillators[d], w.tick);
                assert(world::adjacent(d, c));
                assert(w.leans_on(d, c));
                lemma_group_rests(w, c, d);
            } else {
                assert(world::reaches(w.chunks, w.owned, d, c));
            }
            assert(false);
        }
        assert(!w.active(c));
        if o.group is None {
            assert(chunk::quiet(p)) by {
                assert forall|x: int, y: int| chunk::on_rim(x, y) implies !#[trigger] p(x, y) by {
                    if p(x, y) {
                        lemma_unreached(w, c, x, y);
                    }
                }
            }
            lemma_quiet_alone(w, c);
            lemma_paused_next(c, o, w.tick);
        } else {
            lemma_grouped_next(w, c);
        }
    } else {
        if w.perturbed(c) {
            assert(!w.chunks.contains_key(c));
        }
        assert(e == world::lookup(w.awake(), c));
        if w.active(c) {
            lemma_seen(w, c);
            e.lemma_next_local(w.seen(c), p);
            assert(chunk::quiet(w.seen(c)) == chunk::quiet(p)) by {
                assert forall|x: int, y: int| chunk::on_rim(x, y) implies #[trigger] p(x, y)
                    == w.seen(c)(x, y) by {}
            }
        } else {
            assert(chunk::quiet(p)) by {
                assert forall|x: int, y: int| chunk::on_rim(x, y) implies !#[trigger] p(x, y) by {
                    if p(x, y) {
                        lemma_unreached(w, c, x, y);
                    }
                }
            }
            assert(e.blank());
        }
        if w.active(c) && !w.idle(c) {
            if w.vanishes(c) {
                let v = world::lookup(next.chunks, c);
                v.lemma_blank();
                e.lemma_next(w.seen(c));
                v.lemma_equal(w.successor(c));
            }
        } else {
            if !w.awake().contains_key(c) {
                assert(!next.chunks.contains_key(c));
            }
        }
    }
}

/// Where the frozen cells of a chunk have their values, a step of it is one generation.
proof fn lemma_stepped_is_next(w: WorldState, c: ChunkCoord)
    requires
        w.current(c).pins_hold(),
    ensures
        w.current(c).stepped(w.local(c)) == w.current(c).next(w.local(c)),
        w.current(c).stepped(w.local(c)).pins_hold(),
{
    let e = w.current(c);
    let p = w.local(c);
    e.lemma_next(p);
    e.lemma_pins_persist(p, e.next(p));
    if e.blank() && chunk::quiet(p) {
        assert forall|x: int, y: int|
            -1 <= x <= CHUNK_SIZE && -1 <= y <= CHUNK_SIZE implies !#[trigger] p(x, y) by {
            if !chunk::on_rim(x, y) {
                lemma_local_coords(c, x, y);
                assert(!e.cell(x, y));
            }
        }
        lemma_still(e, p);
    }
}

/// In a sound world every chunk has the values of its frozen cells, paused or not.
proof fn lemma_current_pins(w: WorldState, c: ChunkCoord)
    requires
        w.sound(),
    ensures
        w.current(c).pins_hold(),
{
    if w.oscillators.contains_key(c) && !w.chunks.contains_key(c) {
        lemma_resumed(c, w.oscillators[c], w.tick);
    }
}

/// One tick takes the cell at `(x, y)` one generation on.
#[verifier::spinoff_prover]
#[verifier::rlimit(60)]
proof fn lemma_cell_lives_on(w: WorldState, next: WorldState, x: int, y: int)
    requires
        w.sound(),
        w.can_tick(),
        w.ticks_to(next),
        world::addressable(x, y),
    ensures
        next.alive(x, y) == (if w.frozen(x, y) {
            w.alive(x, y)
        } else {
            chunk::life(
                w.alive(x, y),
                chunk::neighbors(w.field(world::home_coord(x, y)), x, y),
            )
        }),
        next.frozen(x, y) == w.frozen(x, y),
{
    let c = world::home_coord(x, y);
    let lx = x % CHUNK_SIZE as int;
    let ly = y % CHUNK_SIZE as int;
    let p = w.local(c);
    let f = w.field(c);
    let e = w.current(c);
    lemma_chunk_lives_on(w, next, c);
    lemma_current_pins(w, c);
    lemma_stepped_is_next(w, c);
    e.lemma_next(p);
    assert(CHUNK_SIZE * c.0 + lx == x && CHUNK_SIZE * c.1 + ly == y);
    assert(chunk::neighbors(p, lx, ly) == chunk::neighbors(f, x, y)) by {
        assert(p(lx - 1, ly - 1) == f(x - 1, y - 1));
        assert(p(lx, ly - 1) == f(x, y - 1));
        assert(p(lx + 1, ly - 1) == f(x + 1, y - 1));
        assert(p(lx - 1, ly) == f(x - 1, y));
        assert(p(lx + 1, ly) == f(x + 1, y));
        assert(p(lx - 1, ly + 1) == f(x - 1, y + 1));
        assert(p(lx, ly + 1) == f(x, y + 1));
        assert(p(lx + 1, ly + 1) == f(x + 1, y + 1));
    }
    assert(p(lx, ly) == w.alive(x, y));
    assert(next.current(c).cell(lx, ly) == e.next_cell(p, lx, ly));
    if w.frozen(x, y) {
        assert(w.chunks.contains_key(c)) by {
            if w.oscillators.contains_key(c) && !w.chunks.contains_key(c) {
                lemma_resumed(c, w.oscillators[c], w.tick);
            }
        }
        assert(e.cell(lx, ly) == e.pinned_at(lx, ly));
    }
}

/// A tick leaves a coherent world coherent, and a sound one sound.
pub proof fn lemma_tick_keeps(w: WorldState, next: WorldState)
    requires
        w.coherent(),
        w.can_tick(),
        w.ticks_to(next),
    ensures
        next.coherent(),
        w.sound() ==> next.sound(),
{
    assert forall|c: ChunkCoord| #[trigger] next.chunks.contains_key(c) implies
        !next.oscillators.contains_key(c) by {
        lemma_chunk_lives_on(w, next, c);
    }
    assert forall|c: ChunkCoord| #[trigger] next.oscillators.contains_key(c) implies
        w.oscillators.contains_key(c) && next.oscillators[c] == w.oscillators[c] && !w.perturbed(
        c,
    ) by {}
    assert forall|c: ChunkCoord, d: ChunkCoord|
        next.oscillators.contains_key(c) && #[trigger] next.leans_on(d, c) implies
        next.oscillators[c].members().contains(d) by {
        assert(next.oscillators.contains_key(d));
        lemma_resumed(d, w.oscillators[d], next.tick);
        assert(world::adjacent(d, c));
        assert(w.oscillators[d].members().contains(c));
        lemma_group_rests(w, d, c);
        lemma_group_rests(w, d, d);
    }
    assert forall|c: ChunkCoord, d: ChunkCoord| #[trigger] next.paired(c, d) implies w.paired(
        c,
        d,
    ) by {
        assert(next.oscillators.contains_key(c));
        assert(next.oscillators.contains_key(d));
    }
    if w.sound() {
        assert forall|c: ChunkCoord| #[trigger] next.chunks.contains_key(c) implies
            next.chunks[c].pins_hold() by {
            lemma_chunk_lives_on(w, next, c);
            lemma_current_pins(w, c);
            lemma_stepped_is_next(w, c);
            assert(next.current(c) == next.chunks[c]);
        }
    }
}

/// A tick is one generation of the Game of Life on the whole plane, and leaves the world sound:
/// neither the split into chunks, nor which chunks are skipped, nor which are paused or woken
/// shows in the cells.
pub proof fn law_tick_is_life(w: WorldState, next: WorldState)
    requires
        w.sound(),
        w.can_tick(),
        w.ticks_to(next),
    ensures
        next.sound(),
        w.lives_on(next),
{
    lemma_tick_keeps(w, next);
    assert forall|x: int, y: int| world::addressable(x, y) implies {
        let f = w.field(world::home_coord(x, y));
        &&& #[trigger] next.alive(x, y) == (if w.frozen(x, y) {
            w.alive(x, y)
        } else {
            chunk::life(w.alive(x, y), chunk::neighbors(f, x, y))
        })
        &&& next.frozen(x, y) == w.frozen(x, y)
    } by {
        lemma_cell_lives_on(w, next, x, y);
    }
}

/// Chunks of worlds that look alike have the same cells, of which the same are frozen and pinned
/// to the same values.
proof fn lemma_alike_chunks(a: WorldState, b: WorldState, c: ChunkCoord, x: int, y: int)
    requires
        a.looks_like(b),
        0 <= x < CHUNK_SIZE,
        0 <= y < CHUNK_SIZE,
    ensures
        a.current(c).cell(x, y) == b.current(c).cell(x, y),
        a.current(c).frozen_at(x, y) == b.current(c).frozen_at(x, y),
        a.current(c).frozen_at(x, y) ==> a.current(c).pinned_at(x, y) == b.current(c).pinned_at(
            x,
            y,
        ),
{
    let u = CHUNK_SIZE * c.0 + x;
    let v = CHUNK_SIZE * c.1 + y;
    lemma_local_coords(c, x, y);
    assert(a.alive(u, v) == b.alive(u, v));
    assert(a.frozen(u, v) == b.frozen(u, v));
    assert(a.pin(u, v) == b.pin(u, v));
}

/// Chunks of worlds that look alike step to the same cells.
proof fn lemma_alike_steps(a: WorldState, b: WorldState, c: ChunkCoord, x: int, y: int)
    requires
        a.looks_like(b),
        a.owned == b.owned,
        0 <= x < CHUNK_SIZE,
        0 <= y < CHUNK_SIZE,
    ensures
        ({
            let m = a.current(c).stepped(a.local(c));
            let n = b.current(c).stepped(b.local(c));
            &&& m.cell(x, y) == n.cell(x, y)
            &&& m.frozen_at(x, y) == n.frozen_at(x, y)
            &&& m.frozen_at(x, y) ==> m.pinned_at(x, y) == n.pinned_at(x, y)
        }),
{
    let (e, f) = (a.current(c), b.current(c));
    assert(a.field(c) =~= b.field(c));
    assert(a.local(c) =~= b.local(c));
    assert forall|i: int, j: int| 0 <= i < CHUNK_SIZE && 0 <= j < CHUNK_SIZE implies #[trigger] e.cell(
        i,
        j,
    ) == f.cell(i, j) by {
        lemma_alike_chunks(a, b, c, i, j);
    }
    assert(e.blank() == f.blank()) by {
        if e.blank() {
            assert forall|i: int, j: int|
                0 <= i < CHUNK_SIZE && 0 <= j < CHUNK_SIZE implies !#[trigger] f.cell(i, j) by {
                assert(e.cell(i, j) == f.cell(i, j));
            }
        }
    }
    lemma_alike_chunks(a, b, c, x, y);
    e.lemma_next(a.local(c));
    f.lemma_next(b.local(c));
}

/// Two coherent worlds that look alike and own the same chunks look alike after a tick, whatever
/// each of them has paused.
pub proof fn law_pauses_do_not_show(
    a: WorldState,
    b: WorldState,
    next_a: WorldState,
    next_b: WorldState,
)
    requires
        a.coherent(),
        b.coherent(),
        a.can_tick(),
        b.can_tick(),
        a.ticks_to(next_a),
        b.ticks_to(next_b),
        a.owned == b.owned,
        a.looks_like(b),
    ensures
        next_a.looks_like(next_b),
{
    assert forall|x: int, y: int| world::addressable(x, y) implies {
        &&& #[trigger] next_a.alive(x, y) == next_b.alive(x, y)
        &&& next_a.frozen(x, y) == next_b.frozen(x, y)
        &&& next_a.pin(x, y) == next_b.pin(x, y)
    } by {
        let c = world::home_coord(x, y);
        lemma_chunk_lives_on(a, next_a, c);
        lemma_chunk_lives_on(b, next_b, c);
        lemma_alike_steps(a, b, c, x % CHUNK_SIZE as int, y % CHUNK_SIZE as int);
    }
    assert forall|x: int, y: int| #[trigger] next_a.frozen(x, y) == next_b.frozen(x, y) by {
        assert(next_a.alive(x, y) == next_b.alive(x, y));
    }
    assert forall|x: int, y: int| #[trigger] next_a.pin(x, y) == next_b.pin(x, y) by {
        assert(next_a.alive(x, y) == next_b.alive(x, y));
    }
}

/// Sound worlds that show the same cells, of which the same are frozen, look alike: frozen cells
/// show what they are pinned to.
pub proof fn law_sound_worlds_look_alike(a: WorldState, b: WorldState)
    requires
        a.sound(),
        b.sound(),
        forall|x: int, y: int| #[trigger] a.alive(x, y) == b.alive(x, y),
        forall|x: int, y: int| #[trigger] a.frozen(x, y) == b.frozen(x, y),
    ensures
        a.looks_like(b),
{
    assert forall|x: int, y: int| #[trigger] a.pin(x, y) == b.pin(x, y) by {
        let c = world::home_coord(x, y);
        lemma_current_pins(a, c);
        lemma_current_pins(b, c);
        assert(a.alive(x, y) == b.alive(x, y));
        assert(a.frozen(x, y) == b.frozen(x, y));
        if a.frozen(x, y) {
            let (i, j) = (x % CHUNK_SIZE as int, y % CHUNK_SIZE as int);
            assert(a.current(c).cell(i, j) == a.current(c).pinned_at(i, j));
            assert(b.current(c).cell(i, j) == b.current(c).pinned_at(i, j));
        }
    }
}

/// Worlds that have the same chunks at the current tick look alike.
pub proof fn lemma_same_current(a: WorldState, b: WorldState)
    requires
        forall|c: ChunkCoord| #[trigger] a.current(c) == b.current(c),
    ensures
        a.looks_like(b),
{
    assert forall|x: int, y: int| #[trigger] a.alive(x, y) == b.alive(x, y) by {
        assert(a.current(world::home_coord(x, y)) == b.current(world::home_coord(x, y)));
    }
    assert forall|x: int, y: int| #[trigger] a.frozen(x, y) == b.frozen(x, y) by {
        assert(a.current(world::home_coord(x, y)) == b.current(world::home_coord(x, y)));
    }
    assert forall|x: int, y: int| #[trigger] a.pin(x, y) == b.pin(x, y) by {
        assert(a.current(world::home_coord(x, y)) == b.current(world::home_coord(x, y)));
    }
}

/// A chunk that has a live cell next to `c` in a world has one in each that looks like it; where
/// nothing is paused there, it takes part in the next tick.
proof fn lemma_reaches_plainly(a: WorldState, b: WorldState, d: ChunkCoord, c: ChunkCoord)
    requires
        a.looks_like(b),
        a.owned == b.owned,
        b.oscillators.dom().is_empty(),
        world::adjacent(c, d),
        world::accepts(a.owned, c, d),
        a.current(d).touches(c.0 - d.0, c.1 - d.1),
    ensures
        b.active(c),
{
    let (x, y) = choose|x: int, y: int|
        chunk::facing(x, c.0 - d.0) && chunk::facing(y, c.1 - d.1) && #[trigger] a.current(d).cell(
            x,
            y,
        );
    lemma_alike_chunks(a, b, d, x, y);
    assert(!b.oscillators.dom().contains(d));
    assert(b.current(d).cell(x, y));
    if !b.chunks.contains_key(d) {
        b.current(d).lemma_blank();
        assert(b.current(d).blank());
    }
    assert(b.awake().contains_key(d) && b.awake()[d] == b.chunks[d]);
    assert(world::reaches(b.awake(), b.owned, d, c));
}

/// Where a plain run of a world can go on, so can one with chunks paused that looks like it.
pub proof fn lemma_can_tick_paused(a: WorldState, b: WorldState)
    requires
        a.coherent(),
        a.looks_like(b),
        a.owned == b.owned,
        a.tick == b.tick,
        b.oscillators.dom().is_empty(),
        b.can_tick(),
    ensures
        a.can_tick(),
{
    assert forall|c: ChunkCoord| #[trigger] a.active(c) implies world::interior(c) by {
        if a.perturbed(c) && a.oscillators[c].group is Some {
            assert(a.oscillators[c].group->0.phases[0].contains_key(c));
        } else if a.perturbed(c) {
            assert(!a.stirred(c));
            let d = choose|d: ChunkCoord| world::reaches(a.chunks, a.owned, d, c);
            assert(a.current(d) == a.chunks[d]);
            lemma_reaches_plainly(a, b, d, c);
        } else if !world::lookup(a.awake(), c).blank() {
            let e = world::lookup(a.awake(), c);
            let (x, y) = choose|x: int, y: int|
                0 <= x < CHUNK_SIZE && 0 <= y < CHUNK_SIZE && #[trigger] e.cell(x, y);
            if !a.awake().contains_key(c) {
                e.lemma_blank();
            }
            assert(a.current(c) == e);
            lemma_alike_chunks(a, b, c, x, y);
            assert(!b.oscillators.dom().contains(c));
            assert(b.current(c).cell(x, y));
            if !b.chunks.contains_key(c) {
                b.current(c).lemma_blank();
                assert(b.current(c).blank());
            }
            assert(b.awake()[c] == b.chunks[c]);
            assert(!world::lookup(b.awake(), c).blank());
            assert(b.active(c));
        } else {
            let d = choose|d: ChunkCoord| world::reaches(a.awake(), a.owned, d, c);
            assert(a.current(d) == a.awake()[d]);
            lemma_reaches_plainly(a, b, d, c);
        }
    }
}

/// Of chunks of which fewer are paused the same holds at the same tick.
pub proof fn lemma_fewer_paused(w: WorldState, next: WorldState)
    requires
        w.coherent(),
        next.tick == w.tick,
        forall|c: ChunkCoord| #[trigger]
            next.oscillators.contains_key(c) ==> w.oscillators.contains_key(c)
                && next.oscillators[c] == w.oscillators[c],
        forall|c: ChunkCoord| #[trigger]
            next.chunks.contains_key(c) ==> !next.oscillators.contains_key(c),
    ensures
        next.coherent(),
{
    assert forall|c: ChunkCoord, d: ChunkCoord|
        next.oscillators.contains_key(c) && #[trigger] next.leans_on(d, c) implies
        next.oscillators[c].members().contains(d) by {
        assert(next.oscillators.contains_key(d));
        assert(w.leans_on(d, c));
    }
    assert forall|c: ChunkCoord, d: ChunkCoord| #[trigger] next.paired(c, d) implies w.paired(
        c,
        d,
    ) by {
        assert(next.oscillators.contains_key(c));
        assert(next.oscillators.contains_key(d));
    }
}

/// Pausing a chunk that does repeat itself after `period` steps changes no cell.
pub proof fn law_pausing_keeps_cells(
    w: WorldState,
    next: WorldState,
    c: ChunkCoord,
    period: u8,
)
    requires
        w.coherent(),
        w.pausable(c, period),
        world::coast(w.chunks[c], period as nat) == w.chunks[c],
        next == (WorldState {
            chunks: w.chunks.remove(c),
            oscillators: w.oscillators.insert(
                c,
                Paused { chunk: w.chunks[c], period, paused_at_tick: w.tick, group: None },
            ),
            ..w
        }),
    ensures
        next.coherent(),
        w.sound() ==> next.sound(),
        next.looks_like(w),
{
    let o = next.oscillators[c];
    vstd::arithmetic::div_mod::lemma_small_mod(0, period as nat);
    assert(o.phase(w.tick) == 0);
    assert(world::coast(o.chunk, 0) == o.chunk);
    assert(cycles(c, o));
    assert forall|d: ChunkCoord| #[trigger] next.current(d) == w.current(d) by {}
    lemma_same_current(next, w);
    assert forall|d: ChunkCoord| #[trigger] next.chunks.contains_key(d) implies
        !next.oscillators.contains_key(d) && (w.sound() ==> next.chunks[d].pins_hold()) by {
        assert(w.chunks.contains_key(d));
    }
    assert forall|d: ChunkCoord| #[trigger] next.oscillators.contains_key(d) implies cycles(
        d,
        next.oscillators[d],
    ) && next.oscillators[d].paused_at_tick <= next.tick && next.oscillators[d].wf(d) by {
        if d != c {
            assert(w.oscillators.contains_key(d));
        }
    }
    assert forall|a: ChunkCoord, d: ChunkCoord|
        next.oscillators.contains_key(a) && #[trigger] next.leans_on(d, a) implies
        next.oscillators[a].members().contains(d) by {
        assert(w.leans_on(d, a));
        assert(a != c);
    }
    assert forall|a: ChunkCoord, d: ChunkCoord| #[trigger] next.paired(a, d) implies w.paired(
        a,
        d,
    ) by {
        assert(a != c && d != c);
    }
}

/// The group that chunks make which can be paused together cycles.
proof fn lemma_ensemble_cycles(w: WorldState, s: Set<ChunkCoord>, period: u8)
    requires
        w.pausable_together(s, period),
    ensures
        w.ensemble(s, period).cycles(period),
        w.ensemble(s, period).phases[0] == w.chunks.restrict(s),
        w.chunks.restrict(s).dom() == s,
{
    let g = w.ensemble(s, period);
    let m = w.chunks.restrict(s);
    let own = w.owned.intersect(s);
    assert forall|c: ChunkCoord| #[trigger] m.dom().contains(c) == s.contains(c) by {
        if s.contains(c) {
            assert(w.sociable(c));
        }
    }
    assert(m.dom() =~= s);
    assert(g.phases[0] == ensemble::evolved(m, own, 0));
    assert forall|k: int| 0 <= k < period implies (#[trigger] g.phases[k]).dom()
        == g.phases[0].dom() by {
        ensemble::lemma_evolved(m, own, k as nat);
    }
    assert forall|c: ChunkCoord| #[trigger] g.phases[0].contains_key(c) implies world::interior(
        c,
    ) by {
        assert(w.sociable(c));
    }
    assert forall|k: int, c: ChunkCoord|
        0 <= k < period && g.phases[0].contains_key(c) implies #[trigger] g.turns(k, c) by {
        let p = ensemble::evolved(m, own, k as nat);
        ensemble::lemma_evolved(m, own, k as nat);
        assert(g.phases[k] == p);
        assert(w.sociable(c));
        assert(p.dom().contains(c));
        assert(ensemble::enclosed(p));
        assert forall|d: ChunkCoord| #[trigger]
            world::adjacent(c, d) && !g.phases[0].contains_key(d) implies !p[c].touches(
            d.0 - c.0,
            d.1 - c.1,
        ) by {
            assert(!p.dom().contains(d));
        }
        assert(ensemble::evolved(m, own, (k + 1) as nat) == ensemble::advanced(p, own));
    }
}

/// Pausing chunks together that do repeat themselves together changes no cell.
pub proof fn law_pausing_together_keeps_cells(w: WorldState, s: Set<ChunkCoord>, period: u8)
    requires
        w.coherent(),
        w.pausable_together(s, period),
    ensures
        w.pausing_together(s, period).coherent(),
        w.sound() ==> w.pausing_together(s, period).sound(),
        w.pausing_together(s, period).looks_like(w),
{
    let next = w.pausing_together(s, period);
    let g = w.ensemble(s, period);
    let m = w.chunks.restrict(s);
    lemma_ensemble_cycles(w, s, period);
    vstd::arithmetic::div_mod::lemma_small_mod(0, period as nat);
    assert forall|c: ChunkCoord| #[trigger] s.contains(c) implies w.chunks.contains_key(c)
        && next.oscillators.contains_key(c) && next.oscillators[c].phase(w.tick) == 0
        && next.oscillators[c].resumed(c, w.tick) == w.chunks[c]
        && next.oscillators[c].members() == s by {
        assert(w.sociable(c));
        assert(m.dom().contains(c));
    }
    assert forall|c: ChunkCoord| #[trigger] next.oscillators.contains_key(c) && !s.contains(
        c,
    ) implies w.oscillators.contains_key(c) && next.oscillators[c] == w.oscillators[c] by {}
    assert forall|c: ChunkCoord| #[trigger] next.current(c) == w.current(c) by {
        if s.contains(c) {
            assert(w.chunks.contains_key(c));
        }
    }
    lemma_same_current(next, w);
    assert forall|c: ChunkCoord| #[trigger] next.chunks.contains_key(c) implies
        !next.oscillators.contains_key(c) && (w.sound() ==> next.chunks[c].pins_hold()) by {
        assert(w.chunks.contains_key(c));
    }
    assert forall|c: ChunkCoord| #[trigger] next.oscillators.contains_key(c) implies cycles(
        c,
        next.oscillators[c],
    ) && next.oscillators[c].paused_at_tick <= next.tick && next.oscillators[c].wf(c) by {
        if s.contains(c) {
            assert(m.dom().contains(c));
            assert forall|k: int| 0 <= k < period implies (#[trigger] g.phases[k]).contains_key(
                c,
            ) by {
                assert(g.phases[k].dom() == g.phases[0].dom());
                assert(g.phases[0].dom().contains(c));
            }
        } else {
            assert(w.oscillators.contains_key(c));
        }
    }
    assert forall|c: ChunkCoord, d: ChunkCoord|
        next.oscillators.contains_key(c) && #[trigger] next.leans_on(d, c) implies
        next.oscillators[c].members().contains(d) by {
        assert(next.oscillators.contains_key(d));
        if s.contains(d) {
            assert(world::adjacent(d, c));
            assert(g.turns(0, d));
            assert(s.contains(c)) by {
                assert(g.phases[0].dom() == s);
                assert(g.phases[0][d] == w.chunks[d]);
            }
        } else {
            assert(w.leans_on(d, c));
            if s.contains(c) {
                assert(w.intrudes(d, c));
            }
        }
    }
    assert forall|c: ChunkCoord, d: ChunkCoord| #[trigger] next.paired(c, d) implies
        next.oscillators[c].group == next.oscillators[d].group && next.oscillators[c].period
        == next.oscillators[d].period && next.oscillators[c].paused_at_tick
        == next.oscillators[d].paused_at_tick by {
        assert(next.oscillators.contains_key(c) && next.oscillators.contains_key(d));
        assert(s.contains(c) == s.contains(d));
        if !s.contains(c) {
            assert(w.paired(c, d));
        }
    }
}

/// Waking a paused chunk changes no cell.
pub proof fn law_waking_keeps_cells(w: WorldState, next: WorldState, c: ChunkCoord)
    requires
        w.coherent(),
        w.oscillators.contains_key(c),
        next == (WorldState {
            chunks: w.chunks.insert(c, w.oscillators[c].resumed(c, w.tick)),
            oscillators: w.oscillators.remove(c),
            ..w
        }),
    ensures
        next.coherent(),
        w.sound() ==> next.sound(),
        next.looks_like(w),
{
    lemma_resumed(c, w.oscillators[c], w.tick);
    assert(!w.chunks.contains_key(c));
    assert forall|d: ChunkCoord| #[trigger] next.current(d) == w.current(d) by {}
    lemma_same_current(next, w);
    assert forall|d: ChunkCoord| #[trigger] next.chunks.contains_key(d) implies
        !next.oscillators.contains_key(d) && (w.sound() ==> next.chunks[d].pins_hold()) by {
        if d != c {
            assert(w.chunks.contains_key(d));
        }
    }
    lemma_fewer_paused(w, next);
}

/// Setting a cell of a chunk that is not paused changes that cell, unless it is frozen, and no
/// other.
pub proof fn law_edit_sets_one_cell(
    w: WorldState,
    next: WorldState,
    x: int,
    y: int,
    alive: bool,
)
    requires
        w.sound(),
        world::addressable(x, y),
        !w.oscillators.contains_key(world::home_coord(x, y)),
        next == (WorldState {
            chunks: w.chunks.insert(
                world::home_coord(x, y),
                next.chunks[world::home_coord(x, y)],
            ),
            ..w
        }),
        world::lookup(w.chunks, world::home_coord(x, y)).sets(
            x % CHUNK_SIZE as int,
            y % CHUNK_SIZE as int,
            alive,
            next.chunks[world::home_coord(x, y)],
        ),
    ensures
        next.sound(),
        forall|u: int, v: int| #[trigger]
            next.alive(u, v) == (if u == x && v == y && !w.frozen(x, y) {
                alive
            } else {
                w.alive(u, v)
            }),
        forall|u: int, v: int| #[trigger] next.frozen(u, v) == w.frozen(u, v),
{
    let c = world::home_coord(x, y);
    let before = world::lookup(w.chunks, c);
    let after = next.chunks[c];
    assert(w.current(c) == before && next.current(c) == after);
    assert forall|u: int, v: int| #[trigger] next.alive(u, v) == (if u == x && v == y && !w.frozen(
        x,
        y,
    ) {
        alive
    } else {
        w.alive(u, v)
    }) by {
        let d = world::home_coord(u, v);
        if world::addressable(u, v) {
            if d == c {
                assert(after.cell(u % CHUNK_SIZE as int, v % CHUNK_SIZE as int) == (if u
                    % CHUNK_SIZE as int == x % CHUNK_SIZE as int && v % CHUNK_SIZE as int == y
                    % CHUNK_SIZE as int && !before.frozen_at(
                    u % CHUNK_SIZE as int,
                    v % CHUNK_SIZE as int,
                ) {
                    alive
                } else {
                    before.cell(u % CHUNK_SIZE as int, v % CHUNK_SIZE as int)
                }));
            } else {
                assert(next.current(d) == w.current(d));
            }
        }
    }
    assert forall|u: int, v: int| #[trigger] next.frozen(u, v) == w.frozen(u, v) by {
        let d = world::home_coord(u, v);
        if d != c {
            assert(next.current(d) == w.current(d));
        }
    }
    assert(before.pins_hold()) by {
        if !w.chunks.contains_key(c) {
            assert(before.frozen is None);
        }
    }
    assert forall|d: ChunkCoord| #[trigger] next.chunks.contains_key(d) implies
        !next.oscillators.contains_key(d) && next.chunks[d].pins_hold() by {
        if d != c {
            assert(w.chunks.contains_key(d));
        } else {
            assert forall|i: int, j: int|
                0 <= i < CHUNK_SIZE && 0 <= j < CHUNK_SIZE && after.frozen_at(i, j) implies
                after.cell(i, j) == #[trigger] after.pinned_at(i, j) by {
                assert(before.frozen_at(i, j));
                assert(before.cell(i, j) == before.pinned_at(i, j));
            }
        }
    }
    lemma_fewer_paused(w, next);
}

} // verus!
