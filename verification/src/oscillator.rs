//! Per-chunk cycle detection.

use crate::chunk::Chunk;
use crate::coord::{ChunkCoord, CoordMap};
use crate::shared::share;
use std::collections::VecDeque;
use std::sync::Arc;
use vstd::prelude::*;

verus! {

/// Longest period that is detected.
pub const MAX_PERIOD: usize = 5;

/// Hashes that are kept of each chunk.
pub const HISTORY: usize = MAX_PERIOD * 3;

/// A chunk that is paused because it repeats itself.
#[derive(Debug)]
pub struct Oscillator {
    pub chunk: Chunk,
    pub period: u8,
    pub paused_at_tick: u64,
    /// The group that the chunk was paused with, if it was not paused by itself.
    pub group: Option<Arc<Group>>,
}

/// Chunks that are paused together, as each of them takes notice of others.
#[derive(Debug)]
pub struct Group {
    /// What the chunks hold in each phase of their period.
    pub phases: Vec<CoordMap<Chunk>>,
    /// Those of the chunks that were owned when they were paused.
    pub owned: CoordMap<()>,
}

impl Clone for Oscillator {
    fn clone(&self) -> (o: Self)
        ensures
            o == *self,
    {
        Oscillator {
            chunk: self.chunk.clone(),
            period: self.period,
            paused_at_tick: self.paused_at_tick,
            group: match &self.group {
                Some(g) => Some(share(g)),
                None => None,
            },
        }
    }
}

/// What a [`Group`] says.
#[verifier::ext_equal]
pub struct Ensemble {
    pub phases: Seq<Map<ChunkCoord, Chunk>>,
    pub owned: Set<ChunkCoord>,
}

/// What an [`Oscillator`] says.
#[verifier::ext_equal]
pub struct Paused {
    pub chunk: Chunk,
    pub period: u8,
    pub paused_at_tick: u64,
    pub group: Option<Ensemble>,
}

impl View for Group {
    type V = Ensemble;

    open spec fn view(&self) -> Ensemble {
        Ensemble {
            phases: self.phases@.map_values(|m: CoordMap<Chunk>| m@),
            owned: self.owned@.dom(),
        }
    }
}

impl View for Oscillator {
    type V = Paused;

    open spec fn view(&self) -> Paused {
        Paused {
            chunk: self.chunk,
            period: self.period,
            paused_at_tick: self.paused_at_tick,
            group: match self.group {
                Some(g) => Some(g@),
                None => None,
            },
        }
    }
}

/// State of one stepped chunk after a tick.
#[derive(Debug, Clone, Copy)]
pub struct HashReport {
    pub coord: ChunkCoord,
    pub hash: u64,
    pub halo_was_zero: bool,
    pub tick: u64,
}

/// A chunk that was seen to repeat itself.
#[derive(Debug, Clone, Copy)]
pub struct PromoteRequest {
    pub coord: ChunkCoord,
    pub period: u8,
}

/// The latest hashes of one chunk, in a ring.
#[derive(Debug)]
struct Ring {
    hashes: [u64; HISTORY],
    head: u8,
    filled: u8,
    poisoned: bool,
    in_pending: bool,
    last_tick: u64,
}

/// What the detector knows of one chunk.
#[verifier::ext_equal]
pub struct RingState {
    /// Latest hashes, oldest first.
    pub recent: Seq<u64>,
    pub poisoned: bool,
    pub in_pending: bool,
    pub last_tick: u64,
}

/// What the detector holds.
#[verifier::ext_equal]
pub struct DetectorState {
    pub rings: Map<ChunkCoord, RingState>,
    pub pending: Seq<ChunkCoord>,
}

/// `recent` with one hash more; the oldest is dropped where there are [`HISTORY`] already.
pub open spec fn remember(recent: Seq<u64>, hash: u64) -> Seq<u64> {
    if recent.len() < HISTORY {
        recent.push(hash)
    } else {
        recent.drop_first().push(hash)
    }
}

/// Whether each of the latest `2 * p` hashes equals the one `p` before it.
pub open spec fn repeats(recent: Seq<u64>, p: int) -> bool {
    forall|i: int| #![trigger recent[recent.len() - 1 - i]]
        0 <= i < 2 * p ==> recent[recent.len() - 1 - i] == recent[recent.len() - 1 - i - p]
}

/// The least period from `p` on, up to [`MAX_PERIOD`], with which the hashes repeat.
pub open spec fn least_period(recent: Seq<u64>, p: int) -> Option<u8>
    decreases MAX_PERIOD + 1 - p,
{
    if p > MAX_PERIOD {
        None
    } else if repeats(recent, p) {
        Some(p as u8)
    } else {
        least_period(recent, p + 1)
    }
}

impl RingState {
    /// What is known of a chunk that was never observed.
    pub open spec fn fresh() -> RingState {
        RingState { recent: Seq::empty(), poisoned: false, in_pending: false, last_tick: 0 }
    }

    /// Whether the ring can be judged.
    pub open spec fn ripe(self) -> bool {
        !self.poisoned && self.recent.len() == HISTORY
    }
}

impl DetectorState {
    pub open spec fn ring(self, c: ChunkCoord) -> RingState {
        if self.rings.contains_key(c) {
            self.rings[c]
        } else {
            RingState::fresh()
        }
    }

    /// The state after one report.
    pub open spec fn observed(self, report: HashReport) -> DetectorState {
        let c = report.coord;
        let r = self.ring(c);
        if !report.halo_was_zero {
            DetectorState {
                rings: self.rings.insert(
                    c,
                    RingState {
                        recent: Seq::empty(),
                        poisoned: true,
                        last_tick: report.tick,
                        ..r
                    },
                ),
                ..self
            }
        } else {
            let recent = remember(r.recent, report.hash);
            let full = recent.len() == HISTORY;
            DetectorState {
                rings: self.rings.insert(
                    c,
                    RingState {
                        recent,
                        poisoned: false,
                        in_pending: r.in_pending || full,
                        last_tick: report.tick,
                    },
                ),
                pending: if full && !r.in_pending {
                    self.pending.push(c)
                } else {
                    self.pending
                },
            }
        }
    }

    /// The state without what is known of `c`.
    pub open spec fn forgotten(self, c: ChunkCoord) -> DetectorState {
        DetectorState { rings: self.rings.remove(c), ..self }
    }

    /// The state after the front of the queue was judged, and what was found.
    pub open spec fn judged(self) -> (DetectorState, Option<PromoteRequest>) {
        let c = self.pending[0];
        let pending = self.pending.drop_first();
        if !self.rings.contains_key(c) || !self.rings[c].in_pending {
            (DetectorState { pending, ..self }, None)
        } else {
            let r = RingState { in_pending: false, ..self.rings[c] };
            match least_period(r.recent, 1) {
                Some(period) if r.ripe() => (
                    DetectorState { rings: self.rings.remove(c), pending },
                    Some(PromoteRequest { coord: c, period }),
                ),
                _ => (DetectorState { rings: self.rings.insert(c, r), pending }, None),
            }
        }
    }

    /// Whether the front of the queue counts against the budget of a scan.
    pub open spec fn charged(self) -> bool {
        self.rings.contains_key(self.pending[0]) && self.rings[self.pending[0]].in_pending
    }

    /// The state after a scan, and the requests that it makes.
    pub open spec fn scanned(self, budget: nat) -> (DetectorState, Seq<PromoteRequest>)
        decreases self.pending.len(),
    {
        if budget == 0 || self.pending.len() == 0 {
            (self, Seq::empty())
        } else {
            let (next, found) = self.judged();
            let left = if self.charged() {
                (budget - 1) as nat
            } else {
                budget
            };
            let (end, rest) = next.scanned(left);
            match found {
                Some(req) => (end, seq![req] + rest),
                None => (end, rest),
            }
        }
    }

    /// Every ring that is marked as queued is in the queue.
    pub open spec fn tidy(self) -> bool {
        forall|c: ChunkCoord| #[trigger]
            self.rings.contains_key(c) && self.rings[c].in_pending ==> self.pending.contains(c)
    }
}

impl Ring {
    spec fn wf(self) -> bool {
        &&& self.head < HISTORY
        &&& self.filled <= HISTORY
        &&& self.filled < HISTORY ==> self.head == self.filled
    }

    spec fn recent(self) -> Seq<u64> {
        Seq::new(
            self.filled as nat,
            |i: int| self.hashes[(self.head + HISTORY - self.filled + i) % HISTORY as int],
        )
    }

    spec fn state(self) -> RingState {
        RingState {
            recent: self.recent(),
            poisoned: self.poisoned,
            in_pending: self.in_pending,
            last_tick: self.last_tick,
        }
    }

    fn new() -> (r: Ring)
        ensures
            r.wf(),
            r.state() == RingState::fresh(),
    {
        let r = Ring {
            hashes: [0u64;HISTORY],
            head: 0,
            filled: 0,
            poisoned: false,
            in_pending: false,
            last_tick: 0,
        };
        assert(r.recent() =~= Seq::<u64>::empty());
        r
    }

    /// Add one hash.
    fn remember(&mut self, hash: u64)
        requires
            old(self).wf(),
        ensures
            final(self).wf(),
            final(self).recent() == remember(old(self).recent(), hash),
            final(self).poisoned == old(self).poisoned,
            final(self).in_pending == old(self).in_pending,
            final(self).last_tick == old(self).last_tick,
    {
        let ghost before = *self;
        let h = self.head as usize;
        self.hashes[h] = hash;
        self.head = ((h + 1) % HISTORY) as u8;
        if (self.filled as usize) < HISTORY {
            self.filled = self.filled + 1;
        }
        proof {
            let want = remember(before.recent(), hash);
            assert(self.recent().len() == want.len());
            assert forall|i: int| 0 <= i < want.len() implies self.recent()[i] == want[i] by {
                let n = HISTORY as int;
                let k = (self.head + n - self.filled + i) % n;
                if before.filled < HISTORY {
                    if i < before.filled {
                        assert(k == i);
                    }
                } else {
                    if i < n - 1 {
                        assert(k == (before.head + i + 1) % n);
                        assert(k != before.head);
                    } else {
                        assert(k == before.head);
                    }
                }
            }
            assert(self.recent() =~= want);
        }
    }

    /// The least period with which the hashes of a full ring repeat.
    fn detect_period(&self) -> (p: Option<u8>)
        requires
            self.wf(),
            self.filled == HISTORY,
        ensures
            p == least_period(self.recent(), 1),
    {
        let mut ordered = [0u64;HISTORY];
        let mut i: usize = 0;
        while i < HISTORY
            invariant
                i <= HISTORY,
                self.wf(),
                self.filled == HISTORY,
                forall|j: int| 0 <= j < i ==> #[trigger] ordered[j] == self.recent()[j],
            decreases HISTORY - i,
        {
            let k = (self.head as usize + i) % HISTORY;
            ordered[i] = self.hashes[k];
            i = i + 1;
        }
        let ghost recent = self.recent();
        let mut p: usize = 1;
        while p <= MAX_PERIOD
            invariant
                1 <= p <= MAX_PERIOD + 1,
                recent == self.recent(),
                recent.len() == HISTORY,
                forall|j: int| 0 <= j < HISTORY ==> #[trigger] ordered[j] == recent[j],
                least_period(recent, 1) == least_period(recent, p as int),
            decreases MAX_PERIOD + 1 - p,
        {
            let mut ok = true;
            let mut k: usize = 0;
            while ok && k < 2 * p
                invariant
                    1 <= p <= MAX_PERIOD,
                    k <= 2 * p,
                    recent.len() == HISTORY,
                    forall|j: int| 0 <= j < HISTORY ==> #[trigger] ordered[j] == recent[j],
                    ok ==> forall|j: int| #![trigger recent[recent.len() - 1 - j]]
                        0 <= j < k ==> recent[recent.len() - 1 - j] == recent[recent.len() - 1 - j
                            - p],
                    !ok ==> !repeats(recent, p as int),
                decreases 2 * p - k,
            {
                let a = ordered[HISTORY - 1 - k];
                let b = ordered[HISTORY - 1 - k - p];
                if a != b {
                    assert(recent[recent.len() - 1 - k] != recent[recent.len() - 1 - k - p]);
                    ok = false;
                }
                k = k + 1;
            }
            if ok {
                return Some(p as u8);
            }
            p = p + 1;
        }
        None
    }
}

/// Watches the hashes of all chunks for short cycles.
#[derive(Debug)]
pub struct Detector {
    rings: CoordMap<Ring>,
    pending: VecDeque<ChunkCoord>,
}

impl View for Detector {
    type V = DetectorState;

    closed spec fn view(&self) -> DetectorState {
        DetectorState {
            rings: self.rings@.map_values(|r: Ring| r.state()),
            pending: self.pending@,
        }
    }
}

impl Default for Detector {
    fn default() -> (d: Self)
        ensures
            d.wf(),
            d@ == (DetectorState { rings: Map::empty(), pending: Seq::empty() }),
    {
        Self::new()
    }
}

impl Detector {
    pub closed spec fn wf(&self) -> bool {
        forall|c: ChunkCoord| #[trigger] self.rings@.contains_key(c) ==> self.rings@[c].wf()
    }

    pub fn new() -> (d: Self)
        ensures
            d.wf(),
            d@ == (DetectorState { rings: Map::empty(), pending: Seq::empty() }),
    {
        let d = Detector { rings: CoordMap::new(), pending: VecDeque::new() };
        assert(d@ =~= DetectorState { rings: Map::empty(), pending: Seq::empty() });
        d
    }

    /// Take in the state of one chunk. A report with a halo starts the history anew.
    pub fn observe(&mut self, report: HashReport)
        requires
            old(self).wf(),
        ensures
            final(self).wf(),
            final(self)@ == old(self)@.observed(report),
    {
        let ghost before = self@;
        let c = report.coord;
        let r = self.rings.slot(c, Ring::new());
        if !report.halo_was_zero {
            r.head = 0;
            r.filled = 0;
            r.poisoned = true;
            r.last_tick = report.tick;
            assert(r.recent() =~= Seq::<u64>::empty());
        } else {
            r.poisoned = false;
            r.remember(report.hash);
            r.last_tick = report.tick;
            if (r.filled as usize) == HISTORY && !r.in_pending {
                r.in_pending = true;
                self.pending.push_back(c);
            }
        }
        assert(self@ =~= before.observed(report));
    }

    /// Drop what is known of a chunk.
    pub fn forget(&mut self, coord: ChunkCoord)
        requires
            old(self).wf(),
        ensures
            final(self).wf(),
            final(self)@ == old(self)@.forgotten(coord),
    {
        let ghost before = self@;
        self.rings.remove(&coord);
        assert(self@ =~= before.forgotten(coord));
    }

    /// Pop up to `budget` queued rings, emit promote requests for any that
    /// match a period in `1..=MAX_PERIOD`. A successfully-promoted ring is
    /// dropped (the chunk will be paused and stop reporting; if the sim
    /// refuses, [`Detector::observe`] recreates the ring).
    pub fn scan(&mut self, budget: usize, out: &mut Vec<PromoteRequest>)
        requires
            old(self).wf(),
        ensures
            final(self).wf(),
            final(self)@ == old(self)@.scanned(budget as nat).0,
            final(out)@ == old(out)@ + old(self)@.scanned(budget as nat).1,
    {
        let ghost start = self@;
        let ghost out0 = out@;
        let mut taken: usize = 0;
        proof {
            assert(out0 + start.scanned(budget as nat).1 =~= out@ + self@.scanned(
                (budget - taken) as nat,
            ).1);
        }
        while taken < budget && self.pending.len() > 0
            invariant
                taken <= budget,
                self.wf(),
                start.scanned(budget as nat).0 == self@.scanned((budget - taken) as nat).0,
                out0 + start.scanned(budget as nat).1 == out@ + self@.scanned(
                    (budget - taken) as nat,
                ).1,
            decreases self.pending.len(),
        {
            let ghost before = self@;
            let ghost outb = out@;
            let ghost left = (budget - taken) as nat;
            let coord = match self.pending.pop_front() {
                Some(c) => c,
                None => {
                    assert(false);
                    return ;
                },
            };
            assert(coord == before.pending[0]);
            assert(self.pending@ =~= before.pending.drop_first());
            let mut found: Option<u8> = None;
            let mut charged = false;
            if let Some(ring) = self.rings.get_mut(&coord) {
                if ring.in_pending {
                    charged = true;
                    ring.in_pending = false;
                    if !ring.poisoned && (ring.filled as usize) == HISTORY {
                        found = ring.detect_period();
                    }
                }
            }
            if let Some(period) = found {
                self.rings.remove(&coord);
                out.push(PromoteRequest { coord, period });
            }
            proof {
                assert(charged == before.charged());
                assert(self@ =~= before.judged().0);
                let rest = self@.scanned(if charged {
                    (left - 1) as nat
                } else {
                    left
                }).1;
                match before.judged().1 {
                    Some(req) => {
                        assert(out@ =~= outb.push(req));
                        assert(outb + (seq![req] + rest) =~= out@ + rest);
                    },
                    None => {
                        assert(out@ == outb);
                    },
                }
            }
            if charged {
                taken = taken + 1;
            }
        }
        proof {
            assert(out@ + Seq::<PromoteRequest>::empty() =~= out@);
        }
    }

    /// Number of chunks that something is known of.
    pub fn len(&self) -> (n: usize)
        ensures
            n == self@.rings.len(),
    {
        assert(self@.rings.dom() =~= self.rings@.dom());
        self.rings.len()
    }

    pub fn is_empty(&self) -> (e: bool)
        ensures
            e == (self@.rings.dom().is_empty()),
    {
        assert(self@.rings.dom() =~= self.rings@.dom());
        let n = self.rings.len();
        proof {
            if n == 0 {
                self.rings@.dom().lemma_len0_is_empty();
            } else if self@.rings.dom().is_empty() {
                assert(self@.rings.dom() =~= Set::<ChunkCoord>::empty());
            }
        }
        n == 0
    }

    /// Number of queue entries, stale ones counted too.
    pub fn pending_len(&self) -> (n: usize)
        ensures
            n == self@.pending.len(),
    {
        self.pending.len()
    }
}

/// A period that is found is a period of the hashes, and no shorter one is.
pub proof fn law_period_is_least(recent: Seq<u64>, from: int)
    requires
        1 <= from <= MAX_PERIOD + 1,
    ensures
        match least_period(recent, from) {
            Some(p) => from <= p <= MAX_PERIOD && repeats(recent, p as int) && forall|q: int|
                from <= q < p ==> !#[trigger] repeats(recent, q),
            None => forall|q: int| from <= q <= MAX_PERIOD ==> !#[trigger] repeats(recent, q),
        },
    decreases MAX_PERIOD + 1 - from,
{
    if from <= MAX_PERIOD && !repeats(recent, from) {
        law_period_is_least(recent, from + 1);
    }
}

/// A scan makes no more requests than its budget, and only for chunks that are known, with a
/// period of their latest hashes under a zero halo.
pub proof fn law_scan_is_honest(d: DetectorState, budget: nat)
    ensures
        d.scanned(budget).1.len() <= budget,
        forall|i: int|
            0 <= i < d.scanned(budget).1.len() ==> {
                let req = #[trigger] d.scanned(budget).1[i];
                &&& d.rings.contains_key(req.coord)
                &&& d.rings[req.coord].ripe()
                &&& 1 <= req.period <= MAX_PERIOD
                &&& repeats(d.rings[req.coord].recent, req.period as int)
                &&& !d.scanned(budget).0.rings.contains_key(req.coord)
            },
        forall|c: ChunkCoord| #[trigger]
            d.scanned(budget).0.rings.contains_key(c) ==> d.rings.contains_key(c)
                && d.scanned(budget).0.rings[c].recent == d.rings[c].recent,
    decreases d.pending.len(),
{
    if budget > 0 && d.pending.len() > 0 {
        let (next, found) = d.judged();
        let left = if d.charged() {
            (budget - 1) as nat
        } else {
            budget
        };
        law_scan_is_honest(next, left);
        let rest = next.scanned(left).1;
        let c = d.pending[0];
        if d.rings.contains_key(c) {
            law_period_is_least(d.rings[c].recent, 1);
        }
        assert forall|e: ChunkCoord| #[trigger] next.rings.contains_key(e) implies
            d.rings.contains_key(e) && next.rings[e].recent == d.rings[e].recent
            && next.rings[e].ripe() == d.rings[e].ripe() by {}
        assert forall|i: int| 0 <= i < d.scanned(budget).1.len() implies {
            let req = #[trigger] d.scanned(budget).1[i];
            &&& d.rings.contains_key(req.coord)
            &&& d.rings[req.coord].ripe()
            &&& 1 <= req.period <= MAX_PERIOD
            &&& repeats(d.rings[req.coord].recent, req.period as int)
            &&& !d.scanned(budget).0.rings.contains_key(req.coord)
        } by {
            match found {
                Some(req) => {
                    if i > 0 {
                        assert(d.scanned(budget).1[i] == rest[i - 1]);
                    }
                },
                None => {
                    assert(d.scanned(budget).1[i] == rest[i]);
                },
            }
        }
    }
}

/// A chunk that was forgotten is not proposed by the next scan.
pub proof fn law_forgotten_is_not_proposed(d: DetectorState, c: ChunkCoord, budget: nat)
    ensures
        forall|i: int|
            0 <= i < d.forgotten(c).scanned(budget).1.len() ==> (#[trigger] d.forgotten(
                c,
            ).scanned(budget).1[i]).coord != c,
{
    law_scan_is_honest(d.forgotten(c), budget);
}

/// Whatever is marked as queued stays in the queue until it is judged.
pub proof fn law_queue_stays_tidy(d: DetectorState, report: HashReport, c: ChunkCoord, budget: nat)
    requires
        d.tidy(),
    ensures
        d.observed(report).tidy(),
        d.forgotten(c).tidy(),
        d.scanned(budget).0.tidy(),
    decreases d.pending.len(),
{
    let o = d.observed(report);
    assert forall|e: ChunkCoord| #[trigger]
        o.rings.contains_key(e) && o.rings[e].in_pending implies o.pending.contains(e) by {
        if d.rings.contains_key(e) && d.rings[e].in_pending {
            let i = choose|i: int| 0 <= i < d.pending.len() && d.pending[i] == e;
            assert(o.pending[i] == e);
        } else {
            assert(o.pending[d.pending.len() as int] == e);
        }
    }
    if budget > 0 && d.pending.len() > 0 {
        let next = d.judged().0;
        assert forall|e: ChunkCoord| #[trigger]
            next.rings.contains_key(e) && next.rings[e].in_pending implies next.pending.contains(
            e,
        ) by {
            let i = choose|i: int| 0 <= i < d.pending.len() && d.pending[i] == e;
            assert(e != d.pending[0]);
            assert(next.pending[i - 1] == e);
        }
        let left = if d.charged() {
            (budget - 1) as nat
        } else {
            budget
        };
        law_queue_stays_tidy(next, report, c, left);
    }
}

} // verus!
