//! Chunk eviction policy.
//!
//! Hard-immortal:
//!   1. Frozen chunks (`is_frozen`).
//!   2. Chunks currently subscribed by any peer.
//!
//! Soft sort over the rest, reap-first ascending by:
//!   ( -ticks_since_last_in_viewport,  // older = smaller (more reapable)
//!     live_cell_count,                  // emptier = smaller (more reapable)
//!     -manhattan_distance_from_origin ) // farther = smaller (more reapable)

use crate::coord::{ChunkCoord, CoordMap};
use crate::sort;
use crate::sort::Ranked;
use vstd::prelude::*;

verus! {

/// What the policy needs to know of a chunk.
#[derive(Debug, Clone, Copy, PartialEq, Eq)]
pub struct ReapInfo {
    pub live_count: u32,
    pub is_frozen: bool,
}

/// A chunk that may be reaped, with what decides how soon.
#[derive(Debug, Clone, Copy, PartialEq, Eq)]
pub struct Candidate {
    pub coord: ChunkCoord,
    pub ticks_since: u64,
    pub live_count: u32,
    pub distance: i64,
}

pub open spec fn abs(x: int) -> int {
    if x < 0 {
        -x
    } else {
        x
    }
}

/// Ticks since the chunk was last seen. One never seen counts from tick zero, one seen later than
/// `now` as just seen.
pub open spec fn ticks_since(last_seen: Map<ChunkCoord, u64>, now: u64, c: ChunkCoord) -> u64 {
    let last = if last_seen.contains_key(c) {
        last_seen[c]
    } else {
        0
    };
    if now < last {
        0
    } else {
        (now - last) as u64
    }
}

/// The candidate that chunk `c` makes.
pub open spec fn candidate(
    chunks: Map<ChunkCoord, ReapInfo>,
    last_seen: Map<ChunkCoord, u64>,
    now: u64,
    c: ChunkCoord,
) -> Candidate {
    Candidate {
        coord: c,
        ticks_since: ticks_since(last_seen, now, c),
        live_count: chunks[c].live_count,
        distance: (abs(c.0 as int) + abs(c.1 as int)) as i64,
    }
}

/// Whether chunk `c` may be reaped at all.
pub open spec fn mortal(
    chunks: Map<ChunkCoord, ReapInfo>,
    subscribed: Set<ChunkCoord>,
    c: ChunkCoord,
) -> bool {
    chunks.contains_key(c) && !chunks[c].is_frozen && !subscribed.contains(c)
}

/// Candidates rank by how soon they go: longest unseen first, then emptiest, then farthest.
impl Ranked for Candidate {
    open spec fn le(self, other: Self) -> bool {
        ||| self.ticks_since > other.ticks_since
        ||| self.ticks_since == other.ticks_since && (self.live_count < other.live_count || (
        self.live_count == other.live_count && self.distance >= other.distance))
    }

    proof fn lemma_total(a: Self, b: Self) {
    }

    proof fn lemma_transitive(a: Self, b: Self, c: Self) {
    }

    fn at_most(&self, other: &Self) -> (r: bool) {
        self.ticks_since > other.ticks_since || (self.ticks_since == other.ticks_since && (
        self.live_count < other.live_count || (self.live_count == other.live_count && self.distance
            >= other.distance)))
    }
}

/// `order` lists the candidates of all chunks that may be reaped, soonest first; candidates that
/// rank equally stand in some order.
pub open spec fn queue(
    chunks: Map<ChunkCoord, ReapInfo>,
    subscribed: Set<ChunkCoord>,
    last_seen: Map<ChunkCoord, u64>,
    now: u64,
    order: Seq<Candidate>,
) -> bool {
    &&& sort::ascending(order)
    &&& order.no_duplicates()
    &&& forall|k: Candidate| #[trigger]
        order.contains(k) <==> mortal(chunks, subscribed, k.coord) && k == candidate(
            chunks,
            last_seen,
            now,
            k.coord,
        )
}

/// `reaped` are the coordinates of the first chunks of the queue: as many as there are chunks over
/// `cap`, or all of them.
pub open spec fn reaps(
    chunks: Map<ChunkCoord, ReapInfo>,
    subscribed: Set<ChunkCoord>,
    last_seen: Map<ChunkCoord, u64>,
    now: u64,
    cap: nat,
    reaped: Seq<ChunkCoord>,
) -> bool {
    exists|order: Seq<Candidate>| #[trigger] queue(chunks, subscribed, last_seen, now, order) && {
        let over = chunks.len() - cap;
        let n = if over <= 0 {
            0
        } else if over < order.len() {
            over
        } else {
            order.len() as int
        };
        reaped == order.take(n).map_values(|k: Candidate| k.coord)
    }
}

fn distance(c: ChunkCoord) -> (d: i64)
    ensures
        d == abs(c.0 as int) + abs(c.1 as int),
{
    let x = c.0 as i64;
    let y = c.1 as i64;
    (if x < 0 {
        -x
    } else {
        x
    }) + (if y < 0 {
        -y
    } else {
        y
    })
}

/// Returns the chunks to remove to bring their number down to `cap`.
pub fn pick_reapable(
    chunks: &CoordMap<ReapInfo>,
    subscribed: &CoordMap<()>,
    last_seen_tick: &CoordMap<u64>,
    now: u64,
    cap: usize,
) -> (r: Vec<ChunkCoord>)
    ensures
        reaps(chunks@, subscribed@.dom(), last_seen_tick@, now, cap as nat, r@),
{
    let live = chunks.len();
    let coords = chunks.keys();
    let ghost subs = subscribed@.dom();
    let ghost seen = last_seen_tick@;
    let mut candidates: Vec<Candidate> = Vec::new();
    let mut i: usize = 0;
    while i < coords.len()
        invariant
            i <= coords.len(),
            coords@.no_duplicates(),
            coords@.to_set() == chunks@.dom(),
            subs == subscribed@.dom(),
            seen == last_seen_tick@,
            candidates@.no_duplicates(),
            forall|k: Candidate| #[trigger]
                candidates@.contains(k) <==> coords@.take(i as int).contains(k.coord) && mortal(
                    chunks@,
                    subs,
                    k.coord,
                ) && k == candidate(chunks@, seen, now, k.coord),
        decreases coords.len() - i,
    {
        let c = coords[i];
        proof {
            assert(coords@.to_set().contains(c));
            assert(coords@.take(i + 1) =~= coords@.take(i as int).push(c));
            sort::lemma_push_contains(coords@.take(i as int), c);
            assert(!coords@.take(i as int).contains(c));
        }
        if let Some(info) = chunks.get(&c) {
            if !info.is_frozen && !subscribed.contains_key(&c) {
                let last = match last_seen_tick.get(&c) {
                    Some(t) => *t,
                    None => 0,
                };
                let k = Candidate {
                    coord: c,
                    ticks_since: if now < last {
                        0
                    } else {
                        now - last
                    },
                    live_count: info.live_count,
                    distance: distance(c),
                };
                proof {
                    assert(k == candidate(chunks@, seen, now, c));
                    assert(!candidates@.contains(k));
                    sort::lemma_push_contains(candidates@, k);
                    sort::lemma_push_distinct(candidates@, k);
                }
                candidates.push(k);
            }
        }
        i = i + 1;
    }
    let order = sort::sorted(&candidates);
    proof {
        sort::lemma_same_members(order@, candidates@);
        assert(coords@.take(i as int) =~= coords@);
        assert forall|k: Candidate| #[trigger] order@.contains(k) <==> mortal(chunks@, subs, k.coord)
            && k == candidate(chunks@, seen, now, k.coord) by {
            assert(order@.to_set().contains(k) == candidates@.to_set().contains(k));
            assert(coords@.to_set().contains(k.coord) == chunks@.dom().contains(k.coord));
        }
        assert(queue(chunks@, subs, seen, now, order@));
    }
    let n: usize = if live <= cap {
        0
    } else if live - cap < order.len() {
        live - cap
    } else {
        order.len()
    };
    let ghost f = |k: Candidate| k.coord;
    let mut r: Vec<ChunkCoord> = Vec::new();
    let mut j: usize = 0;
    while j < n
        invariant
            j <= n <= order.len(),
            f == (|k: Candidate| k.coord),
            r@ =~= order@.take(j as int).map_values(f),
        decreases n - j,
    {
        r.push(order[j].coord);
        j = j + 1;
    }
    r
}

/// What is reaped is neither frozen nor subscribed, each chunk is reaped once, and no more are
/// reaped than there are over `cap`; fewer only where no chunk is left that may be reaped. None
/// that is kept ranks before one that is reaped.
pub proof fn law_reaping_is_bounded(
    chunks: Map<ChunkCoord, ReapInfo>,
    subscribed: Set<ChunkCoord>,
    last_seen: Map<ChunkCoord, u64>,
    now: u64,
    cap: nat,
    reaped: Seq<ChunkCoord>,
)
    requires
        reaps(chunks, subscribed, last_seen, now, cap, reaped),
    ensures
        forall|i: int|
            0 <= i < reaped.len() ==> mortal(chunks, subscribed, #[trigger] reaped[i]),
        reaped.no_duplicates(),
        chunks.len() <= cap ==> reaped.len() == 0,
        chunks.len() > cap ==> reaped.len() <= chunks.len() - cap,
        chunks.len() > cap && reaped.len() < chunks.len() - cap ==> forall|c: ChunkCoord|
            mortal(chunks, subscribed, c) ==> #[trigger] reaped.contains(c),
        forall|i: int, c: ChunkCoord|
            0 <= i < reaped.len() && mortal(chunks, subscribed, c) && !(#[trigger] reaped.contains(
                c,
            )) ==> candidate(chunks, last_seen, now, #[trigger] reaped[i]).le(
                candidate(chunks, last_seen, now, c),
            ),
{
    let order = choose|order: Seq<Candidate>| #[trigger]
        queue(chunks, subscribed, last_seen, now, order) && {
            let over = chunks.len() - cap;
            let n = if over <= 0 {
                0
            } else if over < order.len() {
                over
            } else {
                order.len() as int
            };
            reaped == order.take(n).map_values(|k: Candidate| k.coord)
        };
    assert forall|i: int| 0 <= i < reaped.len() implies mortal(
        chunks,
        subscribed,
        #[trigger] reaped[i],
    ) by {
        assert(order.contains(order[i]));
    }
    assert forall|i: int, j: int|
        0 <= i < reaped.len() && 0 <= j < reaped.len() && i != j implies reaped[i] != reaped[j] by {
        assert(order.contains(order[i]));
        assert(order.contains(order[j]));
        assert(order[i] != order[j]);
    }
    assert forall|i: int, c: ChunkCoord|
        0 <= i < reaped.len() && mortal(chunks, subscribed, c) && !(#[trigger] reaped.contains(
            c,
        )) implies candidate(chunks, last_seen, now, #[trigger] reaped[i]).le(
        candidate(chunks, last_seen, now, c),
    ) by {
        let k = candidate(chunks, last_seen, now, c);
        assert(order.contains(k));
        let j = choose|j: int| 0 <= j < order.len() && order[j] == k;
        if j < reaped.len() {
            assert(reaped[j] == c);
        }
        assert(order.contains(order[i]));
        assert(order[i].le(order[j]));
    }
    if chunks.len() > cap && reaped.len() < chunks.len() - cap {
        assert forall|c: ChunkCoord| mortal(chunks, subscribed, c) implies #[trigger] reaped.contains(
            c,
        ) by {
            let k = candidate(chunks, last_seen, now, c);
            assert(order.contains(k));
            let i = choose|i: int| 0 <= i < order.len() && order[i] == k;
            assert(reaped[i] == c);
        }
    }
}

} // verus!
