//! Who is told what: what peers can count on when they subscribe, edit and leave, and when the
//! simulation tells of what happened.

use crate::chunk;
use crate::claims;
use crate::claims::Claim;
use crate::coord::ChunkCoord;
use crate::hub;
use crate::hub::{HubState, MirrorEntry, Outgoing, OutgoingModel, PeerId, Reaction};
use crate::protocol::{ClientModel, EditCell, Region, ServerModel, ServerMsg, BITS_BYTES};
use crate::reaper;
use crate::region;
use crate::sim::{ChunkSnap, SimCmd, SimEvent};
use crate::sort;
use crate::wire;
use crate::world;
use vstd::prelude::*;

verus! {

impl HubState {
    /// Whether the index has peer `q` among the subscribers of chunk `c`.
    pub open spec fn listed(self, q: PeerId, c: ChunkCoord) -> bool {
        self.subs.contains_key(c) && self.subs[c].contains(q)
    }

    /// Whether somebody is subscribed to chunk `c`.
    pub open spec fn heard(self, c: ChunkCoord) -> bool {
        exists|q: PeerId| self.listed(q, c)
    }

    /// The changes that somebody is told of.
    spec fn changes_due(self, ev: SimEvent) -> Seq<ChunkSnap> {
        ev.changed@.filter(
            |s: ChunkSnap|
                !ev.initial && self.heard(s.coord) && (rim_alive(s.bits@) || self.owned.contains(
                    s.coord,
                )),
        )
    }

    /// The edits that somebody is told of.
    spec fn edits_due(self, ev: SimEvent) -> Seq<(ChunkCoord, Vec<EditCell>)> {
        ev.edits@.filter(|e: (ChunkCoord, Vec<EditCell>)| !ev.initial && self.heard(e.0))
    }

    /// Whether peer `p` is owed chunk `c`, where `next` is the state after it subscribed: it is
    /// subscribed to the chunk and was not before, and something in it lives or is frozen.
    pub open spec fn owed(self, next: HubState, p: PeerId, c: ChunkCoord) -> bool {
        &&& next.peers[p].contains(c)
        &&& !self.peers[p].contains(c)
        &&& self.mirror.contains_key(c)
        &&& self.mirror[c].live_count > 0 || self.mirror[c].frozen_mask is Some
    }
}

/// Where a list of new subscriptions has led, in terms of its members.
proof fn lemma_subscribing(w: HubState, p: PeerId, coords: Seq<ChunkCoord>)
    requires
        w.peers.contains_key(p),
    ensures
        ({
            let s = w.subscribing(p, coords);
            &&& s.taken.no_duplicates()
            &&& s.fresh.no_duplicates()
            &&& s.state == HubState {
                peers: s.state.peers,
                subs: s.state.subs,
                last_seen: s.state.last_seen,
                ..w
            }
            &&& s.state.peers.dom() == w.peers.dom()
            &&& forall|q: PeerId| q != p ==> #[trigger] s.state.peers[q] == w.peers[q]
            &&& forall|c: ChunkCoord| #[trigger]
                s.taken.contains(c) ==> coords.contains(c) && !w.peers[p].contains(c)
            &&& forall|c: ChunkCoord| #[trigger]
                s.state.peers[p].contains(c) <==> w.peers[p].contains(c) || s.taken.contains(c)
            &&& !s.full ==> forall|c: ChunkCoord| #[trigger]
                coords.contains(c) ==> s.state.peers[p].contains(c)
            &&& forall|q: PeerId, c: ChunkCoord| #[trigger]
                s.state.listed(q, c) <==> w.listed(q, c) || (q == p && s.taken.contains(c))
            &&& forall|c: ChunkCoord| #[trigger]
                s.state.subs.contains_key(c) <==> w.subs.contains_key(c) || s.taken.contains(c)
            &&& forall|c: ChunkCoord| #[trigger]
                s.fresh.contains(c) <==> s.taken.contains(c) && !w.heard(c)
            &&& forall|c: ChunkCoord| #[trigger]
                s.state.last_seen.contains_key(c) <==> w.last_seen.contains_key(c)
                    || s.taken.contains(c)
            &&& forall|c: ChunkCoord| #[trigger]
                s.state.last_seen.contains_key(c) ==> s.state.last_seen[c] == (
                if s.taken.contains(c) {
                    w.latest_tick
                } else {
                    w.last_seen[c]
                })
        }),
    decreases coords.len(),
{
    let s = w.subscribing(p, coords);
    if coords.len() > 0 {
        let init = coords.drop_last();
        let s0 = w.subscribing(p, init);
        let c0 = coords.last();
        lemma_subscribing(w, p, init);
        assert(coords =~= init.push(c0));
        sort::lemma_push_contains(init, c0);
        if !s0.full && !s0.state.peers[p].contains(c0) && s0.state.peers[p].len()
            < w.client_max_chunks {
            sort::lemma_push_contains(s0.taken, c0);
            sort::lemma_push_distinct(s0.taken, c0);
            sort::lemma_push_contains(s0.fresh, c0);
            let quiet = s0.state.subscribers(c0).is_empty();
            assert(quiet == !w.heard(c0)) by {
                if w.heard(c0) {
                    let q = choose|q: PeerId| w.listed(q, c0);
                    assert(s0.state.listed(q, c0));
                    assert(s0.state.subscribers(c0).contains(q));
                    if quiet {
                        assert(s0.state.subscribers(c0) =~= Set::<PeerId>::empty());
                    }
                } else {
                    assert forall|q: PeerId| !s0.state.subscribers(c0).contains(q) by {
                        assert(s0.state.listed(q, c0) <==> w.listed(q, c0) || (q == p
                            && s0.taken.contains(c0)));
                    }
                    assert(s0.state.subscribers(c0) =~= Set::<PeerId>::empty());
                }
            }
            if quiet {
                sort::lemma_push_distinct(s0.fresh, c0);
            }
            assert(s.state.peers.dom() =~= w.peers.dom());
            assert forall|q: PeerId, c: ChunkCoord| #[trigger] s.state.listed(q, c) <==> w.listed(
                q,
                c,
            ) || (q == p && s.taken.contains(c)) by {
                assert(s0.state.listed(q, c) <==> w.listed(q, c) || (q == p && s0.taken.contains(c)));
            }
        }
    } else {
        assert(s.state.peers.dom() =~= w.peers.dom());
    }
}

/// Whether the message shows the bits of a chunk as of a tick, to one peer alone.
pub open spec fn shows_state(
    o: Outgoing,
    p: PeerId,
    c: ChunkCoord,
    tick: u64,
    bits: Seq<u8>,
) -> bool {
    &&& o.msg matches ServerMsg::ChunkState { cx, cy, tick: t, bits: b } && cx == c.0 && cy == c.1
        && t == tick && b@ == bits
    &&& forall|q: PeerId| #[trigger] o.to@.contains(q) <==> q == p
}

/// The chunk whose bits a message shows.
pub open spec fn chunk_shown(o: Outgoing) -> ChunkCoord {
    match o.msg {
        ServerMsg::ChunkState { cx, cy, .. } => (cx, cy),
        ServerMsg::ChunkDelta { cx, cy, .. } => (cx, cy),
        _ => (0, 0),
    }
}

/// A peer that subscribes, and is not dropped for it, is subscribed to what it was subscribed to
/// and to all that it asked for; nobody else's subscriptions change, and the index has the same.
pub proof fn law_subscribing_takes_all(
    w: HubState,
    p: PeerId,
    coords: Seq<ChunkCoord>,
    r: Reaction,
    next: HubState,
)
    requires
        w.peers.contains_key(p),
        w.reacts(p, ClientModel::Subscribe(coords), r, next),
        !r.kicked,
    ensures
        next.peers.dom() == w.peers.dom(),
        forall|c: ChunkCoord| #[trigger]
            next.peers[p].contains(c) <==> w.peers[p].contains(c) || coords.contains(c),
        forall|q: PeerId| q != p ==> #[trigger] next.peers[q] == w.peers[q],
        forall|q: PeerId, c: ChunkCoord| #[trigger]
            next.listed(q, c) <==> w.listed(q, c) || (q == p && coords.contains(c)
                && !w.peers[p].contains(c)),
        forall|c: ChunkCoord| #[trigger]
            next.last_seen.contains_key(c) <==> w.last_seen.contains_key(c) || (coords.contains(c)
                && !w.peers[p].contains(c)),
        forall|c: ChunkCoord| #[trigger]
            next.last_seen.contains_key(c) ==> next.last_seen[c] == (if coords.contains(c)
                && !w.peers[p].contains(c) {
                w.latest_tick
            } else {
                w.last_seen[c]
            }),
        next == (HubState {
            peers: next.peers,
            subs: next.subs,
            last_seen: next.last_seen,
            ..w
        }),
{
    lemma_subscribing(w, p, coords);
    let s = w.subscribing(p, coords);
    assert forall|c: ChunkCoord| #[trigger] s.taken.contains(c) <==> coords.contains(c)
        && !w.peers[p].contains(c) by {
        if coords.contains(c) {
            assert(s.state.peers[p].contains(c));
        }
    }
}

/// A peer that subscribes, and is not dropped for it, is told of every chunk that it was not
/// subscribed to before and in which something lives or is frozen, whoever else is subscribed to
/// it: by exactly one message, which shows the bits and the tick that the mirror holds. It is told
/// nothing else, and nobody else is told anything.
pub proof fn law_new_subscriber_is_told(
    w: HubState,
    p: PeerId,
    coords: Seq<ChunkCoord>,
    r: Reaction,
    next: HubState,
)
    requires
        w.peers.contains_key(p),
        w.reacts(p, ClientModel::Subscribe(coords), r, next),
        !r.kicked,
    ensures
        forall|c: ChunkCoord|
            #![trigger w.owed(next, p, c)]
            w.owed(next, p, c) ==> exists|i: int|
                0 <= i < r.out@.len() && shows_state(
                    #[trigger] r.out@[i],
                    p,
                    c,
                    w.mirror[c].tick,
                    w.mirror[c].bits@,
                ),
        forall|i: int|
            #![trigger r.out@[i]]
            0 <= i < r.out@.len() ==> ({
                let c = chunk_shown(r.out@[i]);
                w.owed(next, p, c) && shows_state(
                    r.out@[i],
                    p,
                    c,
                    w.mirror[c].tick,
                    w.mirror[c].bits@,
                )
            }),
        forall|i: int, j: int, c: ChunkCoord, t: u64, u: u64, a: Seq<u8>, b: Seq<u8>|
            0 <= i < r.out@.len() && 0 <= j < r.out@.len() && #[trigger] shows_state(
                r.out@[i],
                p,
                c,
                t,
                a,
            ) && #[trigger] shows_state(r.out@[j], p, c, u, b) ==> i == j,
{
    lemma_subscribing(w, p, coords);
    let s = w.subscribing(p, coords);
    let f = |c: ChunkCoord| w.worth_telling(c);
    let told = s.taken.filter(f);
    sort::lemma_filter_members(s.taken, f);
    sort::lemma_filter_distinct(s.taken, f);
    assert(sent_len(r.out@) == told.len());
    assert forall|i: int| 0 <= i < told.len() implies shows_state(
        #[trigger] r.out@[i],
        p,
        told[i],
        w.mirror[told[i]].tick,
        w.mirror[told[i]].bits@,
    ) by {
        assert(hub::sent(r.out@)[i] == (OutgoingModel { msg: w.chunk_state(told[i]), to: set![p] }));
        assert(r.out@[i]@ == hub::sent(r.out@)[i]);
        lemma_to(r.out@[i]);
    }
    assert forall|c: ChunkCoord|
        #![trigger w.owed(next, p, c)]
        w.owed(next, p, c) implies exists|i: int|
        0 <= i < r.out@.len() && shows_state(
            #[trigger] r.out@[i],
            p,
            c,
            w.mirror[c].tick,
            w.mirror[c].bits@,
        ) by {
        assert(s.taken.contains(c));
        assert(told.contains(c));
        let i = choose|i: int| 0 <= i < told.len() && told[i] == c;
        assert(shows_state(r.out@[i], p, told[i], w.mirror[c].tick, w.mirror[c].bits@));
    }
    assert forall|i: int|
        #![trigger r.out@[i]]
        0 <= i < r.out@.len() implies ({
        let c = chunk_shown(r.out@[i]);
        w.owed(next, p, c) && shows_state(
            r.out@[i],
            p,
            c,
            w.mirror[c].tick,
            w.mirror[c].bits@,
        )
    }) by {
        let c = told[i];
        assert(told.contains(c));
        assert(s.taken.contains(c) && f(c));
        assert(w.owed(next, p, c));
        assert(shows_state(r.out@[i], p, c, w.mirror[c].tick, w.mirror[c].bits@));
    }
    assert forall|i: int, j: int, c: ChunkCoord, t: u64, u: u64, a: Seq<u8>, b: Seq<u8>|
        0 <= i < r.out@.len() && 0 <= j < r.out@.len() && #[trigger] shows_state(
            r.out@[i],
            p,
            c,
            t,
            a,
        ) && #[trigger] shows_state(r.out@[j], p, c, u, b) implies i == j by {
        assert(shows_state(
            r.out@[i],
            p,
            told[i],
            w.mirror[told[i]].tick,
            w.mirror[told[i]].bits@,
        ));
        assert(shows_state(
            r.out@[j],
            p,
            told[j],
            w.mirror[told[j]].tick,
            w.mirror[told[j]].bits@,
        ));
        assert(told[i] == c && told[j] == c);
    }
}

spec fn sent_len(out: Seq<Outgoing>) -> nat {
    hub::sent(out).len()
}

/// Who a message is for.
proof fn lemma_to(o: Outgoing)
    ensures
        forall|q: PeerId| #[trigger] o.to@.contains(q) <==> o@.to.contains(q),
{
}

/// When a peer subscribes, the simulation is told of exactly those chunks that it was not
/// subscribed to before and that nobody was subscribed to, each once.
pub proof fn law_first_subscriber_is_passed_on(
    w: HubState,
    p: PeerId,
    coords: Seq<ChunkCoord>,
    r: Reaction,
    next: HubState,
)
    requires
        w.peers.contains_key(p),
        w.reacts(p, ClientModel::Subscribe(coords), r, next),
        !r.kicked,
    ensures
        r.sim matches Some(SimCmd::Subscribe(v)) ==> v@.no_duplicates() && forall|c: ChunkCoord|
         #[trigger]
            v@.contains(c) <==> coords.contains(c) && !w.peers[p].contains(c) && !w.heard(c),
        r.sim is None || (r.sim matches Some(SimCmd::Subscribe(v)) && v@.len() > 0),
        r.sim is None ==> forall|c: ChunkCoord|
            #![trigger coords.contains(c)]
            coords.contains(c) && !w.peers[p].contains(c) ==> w.heard(c),
{
    lemma_subscribing(w, p, coords);
    let s = w.subscribing(p, coords);
    assert forall|c: ChunkCoord| #[trigger] s.taken.contains(c) <==> coords.contains(c)
        && !w.peers[p].contains(c) by {
        if coords.contains(c) {
            assert(s.state.peers[p].contains(c));
        }
    }
    if r.sim is None {
        assert forall|c: ChunkCoord|
            #![trigger coords.contains(c)]
            coords.contains(c) && !w.peers[p].contains(c) implies w.heard(c) by {
            assert(s.taken.contains(c));
            if !w.heard(c) {
                assert(s.fresh.contains(c));
            }
        }
    }
}

/// How many chunks a peer has come to.
proof fn lemma_subscribing_len(w: HubState, p: PeerId, coords: Seq<ChunkCoord>)
    requires
        w.peers.contains_key(p),
        w.peers[p].finite(),
    ensures
        ({
            let s = w.subscribing(p, coords);
            &&& s.state.peers[p].finite()
            &&& s.state.peers[p].len() == w.peers[p].len() + s.taken.len()
            &&& s.taken.len() > 0 ==> s.state.peers[p].len() <= w.client_max_chunks
            &&& s.full ==> s.state.peers[p].len() >= w.client_max_chunks && exists|c: ChunkCoord|
                #[trigger] coords.contains(c) && !s.state.peers[p].contains(c)
        }),
    decreases coords.len(),
{
    if coords.len() > 0 {
        let init = coords.drop_last();
        let c0 = coords.last();
        lemma_subscribing_len(w, p, init);
        assert(coords =~= init.push(c0));
        sort::lemma_push_contains(init, c0);
        let s0 = w.subscribing(p, init);
        if s0.full {
            let c = choose|c: ChunkCoord| #[trigger]
                init.contains(c) && !s0.state.peers[p].contains(c);
            assert(coords.contains(c));
        } else if !s0.state.peers[p].contains(c0) {
            assert(coords.contains(c0));
        }
    }
}

/// A peer is dropped exactly if it asks for some chunk that it is not subscribed to, and with all
/// that it asks for would be subscribed to more chunks than it may.
pub proof fn law_greedy_peers_are_dropped(
    w: HubState,
    p: PeerId,
    coords: Seq<ChunkCoord>,
    r: Reaction,
    next: HubState,
)
    requires
        w.peers.contains_key(p),
        w.peers[p].finite(),
        forall|c: ChunkCoord| #[trigger] w.listed(p, c) ==> w.peers[p].contains(c),
        w.reacts(p, ClientModel::Subscribe(coords), r, next),
    ensures
        r.kicked <==> (exists|c: ChunkCoord| #[trigger]
            coords.contains(c) && !w.peers[p].contains(c)) && w.peers[p].union(
            coords.to_set(),
        ).len() > w.client_max_chunks,
        r.kicked ==> r.sim is None && r.out@.len() == 0 && !next.peers.contains_key(p)
            && !next.users.contains_key(p),
        r.kicked ==> forall|q: PeerId, c: ChunkCoord| #[trigger]
            next.listed(q, c) <==> w.listed(q, c) && q != p,
        r.kicked ==> forall|q: PeerId|
            q != p ==> #[trigger] next.peers.contains_key(q) == w.peers.contains_key(q)
                && next.peers[q] == w.peers[q],
{
    lemma_subscribing(w, p, coords);
    lemma_subscribing_len(w, p, coords);
    let s = w.subscribing(p, coords);
    let all = w.peers[p].union(coords.to_set());
    let got = s.state.peers[p];
    coords.lemma_cardinality_of_set();
    assert(got.subset_of(all)) by {
        assert forall|c: ChunkCoord| got.contains(c) implies #[trigger] all.contains(c) by {
            if s.taken.contains(c) {
                assert(coords.to_set().contains(c));
            }
        }
    }
    assert(all.finite());
    if s.full {
        let c = choose|c: ChunkCoord| #[trigger] coords.contains(c) && !got.contains(c);
        assert(coords.to_set().contains(c));
        assert(got.insert(c).subset_of(all));
        vstd::set_lib::lemma_len_subset(got.insert(c), all);
        assert(coords.contains(c) && !w.peers[p].contains(c));
        let gone = choose|gone: Seq<ChunkCoord>| s.state.drops(p, gone, next);
        assert forall|q: PeerId, d: ChunkCoord| #[trigger] next.listed(q, d) <==> w.listed(q, d) && q
            != p by {
            assert(s.state.listed(q, d) <==> w.listed(q, d) || (q == p && s.taken.contains(d)));
            assert(s.state.listed(p, d) <==> w.listed(p, d) || s.taken.contains(d));
            lemma_dropping(s.state, p, gone, next, q, d);
        }
    } else {
        assert(got =~= all) by {
            assert forall|c: ChunkCoord| #[trigger] all.contains(c) implies got.contains(c) by {
                if !w.peers[p].contains(c) {
                    assert(coords.to_set().contains(c));
                    assert(coords.contains(c));
                }
            }
        }
        if exists|c: ChunkCoord| #[trigger] coords.contains(c) && !w.peers[p].contains(c) {
            let c = choose|c: ChunkCoord| #[trigger] coords.contains(c) && !w.peers[p].contains(c);
            assert(got.contains(c));
            assert(s.taken.contains(c));
            assert(s.taken.len() > 0);
        }
    }
}

/// Who is listed once a peer was dropped. The index lists a peer only for chunks that the peer is
/// subscribed to.
proof fn lemma_dropping(
    w: HubState,
    p: PeerId,
    gone: Seq<ChunkCoord>,
    next: HubState,
    q: PeerId,
    c: ChunkCoord,
)
    requires
        w.drops(p, gone, next),
        w.listed(p, c) ==> w.peers.contains_key(p) && w.peers[p].contains(c),
    ensures
        next.listed(q, c) <==> w.listed(q, c) && q != p,
{
}

/// Where a list of ended subscriptions has led, in terms of its members.
proof fn lemma_unsubscribing(w: HubState, p: PeerId, coords: Seq<ChunkCoord>)
    requires
        w.peers.contains_key(p),
    ensures
        ({
            let s = w.unsubscribing(p, coords);
            &&& s.gone.no_duplicates()
            &&& s.state == HubState { peers: s.state.peers, subs: s.state.subs, ..w }
            &&& s.state.peers.dom() == w.peers.dom()
            &&& forall|q: PeerId| q != p ==> #[trigger] s.state.peers[q] == w.peers[q]
            &&& forall|c: ChunkCoord| #[trigger]
                s.state.peers[p].contains(c) <==> w.peers[p].contains(c) && !coords.contains(c)
            &&& forall|q: PeerId, c: ChunkCoord| #[trigger]
                s.state.listed(q, c) <==> w.listed(q, c) && !(q == p && coords.contains(c)
                    && w.peers[p].contains(c))
            &&& forall|c: ChunkCoord| #[trigger]
                s.gone.contains(c) <==> coords.contains(c) && w.peers[p].contains(c)
                    && w.subs.contains_key(c) && forall|q: PeerId| #[trigger]
                    w.listed(q, c) ==> q == p
            &&& forall|c: ChunkCoord| #[trigger]
                s.state.subs.contains_key(c) <==> w.subs.contains_key(c) && !s.gone.contains(c)
        }),
    decreases coords.len(),
{
    let s = w.unsubscribing(p, coords);
    if coords.len() > 0 {
        let init = coords.drop_last();
        let s0 = w.unsubscribing(p, init);
        let c0 = coords.last();
        lemma_unsubscribing(w, p, init);
        assert(coords =~= init.push(c0));
        sort::lemma_push_contains(init, c0);
        if s0.state.peers[p].contains(c0) {
            let left = s0.state.subs[c0].remove(p);
            let empty = s0.state.subs.contains_key(c0) && left.is_empty();
            assert(s0.state.subs.contains_key(c0) == w.subs.contains_key(c0));
            assert(empty == (w.subs.contains_key(c0) && forall|q: PeerId| #[trigger]
                w.listed(q, c0) ==> q == p)) by {
                if empty {
                    assert forall|q: PeerId| #[trigger] w.listed(q, c0) implies q == p by {
                        assert(s0.state.listed(q, c0));
                        if q != p {
                            assert(left.contains(q));
                            assert(left =~= Set::<PeerId>::empty());
                        }
                    }
                } else if w.subs.contains_key(c0) {
                    if forall|q: PeerId| #[trigger] w.listed(q, c0) ==> q == p {
                        assert forall|q: PeerId| !left.contains(q) by {
                            if left.contains(q) {
                                assert(s0.state.listed(q, c0));
                                assert(w.listed(q, c0));
                            }
                        }
                        assert(left =~= Set::<PeerId>::empty());
                    }
                }
            }
            if empty {
                sort::lemma_push_contains(s0.gone, c0);
                sort::lemma_push_distinct(s0.gone, c0);
                assert(left =~= Set::<PeerId>::empty());
            }
            assert(s.state.peers.dom() =~= w.peers.dom());
            assert forall|q: PeerId, c: ChunkCoord| #[trigger] s.state.listed(q, c) <==> w.listed(
                q,
                c,
            ) && !(q == p && coords.contains(c) && w.peers[p].contains(c)) by {
                assert(s0.state.listed(q, c) <==> w.listed(q, c) && !(q == p && init.contains(c)
                    && w.peers[p].contains(c)));
                if c == c0 && empty && q != p && s0.state.listed(q, c) {
                    assert(left.contains(q));
                }
            }
        }
    } else {
        assert(s.state.peers.dom() =~= w.peers.dom());
    }
}

/// A peer that ends subscriptions has exactly these no longer; nobody else's subscriptions change,
/// nothing is sent, and the simulation is told of exactly those of the chunks that nobody else is
/// subscribed to, each once.
pub proof fn law_unsubscribing_ends_all(
    w: HubState,
    p: PeerId,
    coords: Seq<ChunkCoord>,
    r: Reaction,
    next: HubState,
)
    requires
        w.peers.contains_key(p),
        w.reacts(p, ClientModel::Unsubscribe(coords), r, next),
    ensures
        !r.kicked,
        r.out@.len() == 0,
        next == (HubState { peers: next.peers, subs: next.subs, ..w }),
        next.peers.dom() == w.peers.dom(),
        forall|q: PeerId| q != p ==> #[trigger] next.peers[q] == w.peers[q],
        forall|c: ChunkCoord| #[trigger]
            next.peers[p].contains(c) <==> w.peers[p].contains(c) && !coords.contains(c),
        forall|q: PeerId, c: ChunkCoord| #[trigger]
            next.listed(q, c) <==> w.listed(q, c) && !(q == p && coords.contains(c)
                && w.peers[p].contains(c)),
        r.sim is None || (r.sim matches Some(SimCmd::Unsubscribe(v)) && v@.len() > 0),
        r.sim matches Some(SimCmd::Unsubscribe(v)) ==> v@.no_duplicates() && forall|c: ChunkCoord|
         #[trigger]
            v@.contains(c) <==> coords.contains(c) && w.peers[p].contains(c)
                && w.subs.contains_key(c) && forall|q: PeerId| #[trigger]
                w.listed(q, c) ==> q == p,
        r.sim is None ==> forall|c: ChunkCoord|
            #![trigger coords.contains(c)]
            coords.contains(c) && w.peers[p].contains(c) && w.subs.contains_key(c)
                ==> next.heard(c),
{
    lemma_unsubscribing(w, p, coords);
    let s = w.unsubscribing(p, coords);
    if r.sim is None {
        assert forall|c: ChunkCoord|
            #![trigger coords.contains(c)]
            coords.contains(c) && w.peers[p].contains(c) && w.subs.contains_key(c) implies
            next.heard(c) by {
            assert(!s.gone.contains(c)) by {
                if s.gone.contains(c) {
                    let i = choose|i: int| 0 <= i < s.gone.len() && s.gone[i] == c;
                }
            }
            let q = choose|q: PeerId| #[trigger] w.listed(q, c) && q != p;
            assert(next.listed(q, c));
        }
    }
}

/// A peer that leaves is known no longer, with its subscriptions and its login; nobody else's
/// change. The chunks that it alone was subscribed to, each once, are noted behind those that the
/// simulation is yet to be told of.
pub proof fn law_leaving_ends_all(w: HubState, p: PeerId, gone: Seq<ChunkCoord>, next: HubState)
    requires
        w.drops(p, gone, next),
        forall|c: ChunkCoord| #[trigger]
            w.listed(p, c) ==> w.peers.contains_key(p) && w.peers[p].contains(c),
    ensures
        next.peers == w.peers.remove(p),
        next.users == w.users.remove(p),
        forall|q: PeerId, c: ChunkCoord| #[trigger]
            next.listed(q, c) <==> w.listed(q, c) && q != p,
        next.pending == w.pending + gone,
        gone.no_duplicates(),
        forall|c: ChunkCoord| #[trigger]
            gone.contains(c) <==> w.peers.contains_key(p) && w.peers[p].contains(c)
                && w.subs.contains_key(c) && forall|q: PeerId| #[trigger]
                w.listed(q, c) ==> q == p,
        next == (HubState {
            peers: next.peers,
            users: next.users,
            subs: next.subs,
            pending: next.pending,
            ..w
        }),
{
    assert forall|q: PeerId, c: ChunkCoord| #[trigger] next.listed(q, c) <==> w.listed(q, c) && q
        != p by {
        assert(w.listed(p, c) ==> w.peers.contains_key(p) && w.peers[p].contains(c));
        lemma_dropping(w, p, gone, next, q, c);
    }
    assert forall|c: ChunkCoord| #[trigger] gone.contains(c) <==> w.peers.contains_key(p)
        && w.peers[p].contains(c) && w.subs.contains_key(c) && forall|q: PeerId| #[trigger]
        w.listed(q, c) ==> q == p by {
        if w.orphaned(p, c) {
            assert forall|q: PeerId| #[trigger] w.listed(q, c) implies q == p by {
                assert(w.subs[c].contains(q));
            }
        }
        if w.peers.contains_key(p) && w.peers[p].contains(c) && w.subs.contains_key(c) && (forall|
            q: PeerId,
        | #[trigger]
            w.listed(q, c) ==> q == p) {
            assert forall|q: PeerId| #[trigger] w.subs[c].contains(q) implies q == p by {
                assert(w.listed(q, c));
            }
        }
    }
}

/// Whether a user, or somebody who is not logged in, is let at cell `(x, y)`: the first region
/// with the LOCKED flag whose rectangle holds the cell, if there is one, has the OWNED flag and is
/// the user's.
pub open spec fn let_at(regions: Seq<Region>, x: int, y: int, user: Option<u32>) -> bool {
    forall|k: int|
        0 <= k < regions.len() && first_lock(regions, x, y, k) ==> (#[trigger] regions[k]).flags & 4
            != 0 && user == Some(regions[k].owner)
}

/// Whether region `k` is the first with the LOCKED flag whose rectangle holds cell `(x, y)`.
pub open spec fn first_lock(regions: Seq<Region>, x: int, y: int, k: int) -> bool {
    &&& regions[k].flags & 2 != 0
    &&& regions[k].x <= x < regions[k].x + regions[k].w
    &&& regions[k].y <= y < regions[k].y + regions[k].h
    &&& forall|i: int|
        0 <= i < k ==> !((#[trigger] regions[i]).flags & 2 != 0 && regions[i].x <= x < regions[i].x
            + regions[i].w && regions[i].y <= y < regions[i].y + regions[i].h)
}

proof fn lemma_let_at(regions: Seq<Region>, x: int, y: int, user: Option<u32>)
    ensures
        region::may_edit(regions, x, y, user) == let_at(regions, x, y, user),
    decreases regions.len(),
{
    if exists|k: int| 0 <= k < regions.len() && #[trigger] first_lock(regions, x, y, k) {
        let k = choose|k: int| 0 <= k < regions.len() && #[trigger] first_lock(regions, x, y, k);
        region::law_first_lock_decides(regions, x, y, user, k);
        assert forall|j: int| 0 <= j < regions.len() && #[trigger] first_lock(regions, x, y, j)
            implies j == k by {
            if j < k {
                assert(regions[j].flags & 2 != 0);
            } else if k < j {
                assert(regions[k].flags & 2 != 0);
            }
        }
        if let_at(regions, x, y, user) {
            assert(regions[k].flags & 4 != 0);
        }
    } else {
        lemma_no_lock(regions, x, y, regions.len() as int);
        region::law_who_may_edit(regions, x, y, user, 0);
        assert(let_at(regions, x, y, user)) by {
            assert forall|k: int|
                0 <= k < regions.len() && first_lock(regions, x, y, k) implies (
            #[trigger] regions[k]).flags & 4 != 0 && user == Some(regions[k].owner) by {
                assert(first_lock(regions, x, y, k));
            }
        }
    }
}

/// Where no region is the first to lock a cell, none locks it.
proof fn lemma_no_lock(regions: Seq<Region>, x: int, y: int, n: int)
    requires
        0 <= n <= regions.len(),
        forall|k: int| 0 <= k < regions.len() ==> !#[trigger] first_lock(regions, x, y, k),
    ensures
        forall|i: int|
            0 <= i < n && (#[trigger] regions[i]).flags & 2 != 0 ==> !(regions[i].x <= x
                < regions[i].x + regions[i].w && regions[i].y <= y < regions[i].y + regions[i].h),
    decreases n,
{
    if n > 0 {
        lemma_no_lock(regions, x, y, n - 1);
        assert(!first_lock(regions, x, y, n - 1));
    }
}

/// Of the cells that a peer asks to edit, exactly those that it is let at are passed on to the
/// simulation, in their order and as they are; nothing else happens.
pub proof fn law_edits_are_passed_on(
    w: HubState,
    p: PeerId,
    cells: Seq<EditCell>,
    r: Reaction,
    next: HubState,
)
    requires
        w.reacts(p, ClientModel::Edit(cells), r, next),
    ensures
        next == w,
        r.out@.len() == 0,
        !r.kicked,
        ({
            let user = if w.users.contains_key(p) {
                Some(w.users[p].uid)
            } else {
                None
            };
            let let_through = cells.filter(
                |c: EditCell| let_at(w.regions, 64 * c.cx + c.lx, 64 * c.cy + c.ly, user),
            );
            match r.sim {
                Some(SimCmd::Edit(v)) => v@ == let_through && v@.len() > 0,
                None => let_through.len() == 0,
                _ => false,
            }
        }),
{
    let user = if w.users.contains_key(p) {
        Some(w.users[p].uid)
    } else {
        None
    };
    let f = |c: EditCell| w.permits(p, c);
    let g = |c: EditCell| let_at(w.regions, 64 * c.cx + c.lx, 64 * c.cy + c.ly, user);
    assert forall|c: EditCell| #[trigger] f(c) == g(c) by {
        lemma_let_at(w.regions, 64 * c.cx + c.lx, 64 * c.cy + c.ly, user);
    }
    assert(f =~= g);
}

/// A filter that all items pass keeps them all; one that none passes keeps none.
pub proof fn lemma_filter_all<T>(s: Seq<T>, f: spec_fn(T) -> bool)
    ensures
        (forall|i: int| 0 <= i < s.len() ==> f(#[trigger] s[i])) ==> s.filter(f) == s,
        (forall|i: int| 0 <= i < s.len() ==> !f(#[trigger] s[i])) ==> s.filter(f) == Seq::<
            T,
        >::empty(),
    decreases s.len(),
{
    reveal_with_fuel(Seq::filter, 2);
    if s.len() > 0 {
        let init = s.drop_last();
        lemma_filter_all(init, f);
        assert(init.push(s.last()) =~= s);
        assert forall|i: int| 0 <= i < init.len() implies init[i] == #[trigger] s[i] by {}
        if forall|i: int| 0 <= i < s.len() ==> f(#[trigger] s[i]) {
            assert(f(s[s.len() - 1]));
            assert forall|i: int| 0 <= i < init.len() implies f(#[trigger] init[i]) by {
                assert(f(s[i]));
            }
        }
        if forall|i: int| 0 <= i < s.len() ==> !f(#[trigger] s[i]) {
            assert(!f(s[s.len() - 1]));
            assert forall|i: int| 0 <= i < init.len() implies !f(#[trigger] init[i]) by {
                assert(!f(s[i]));
            }
        }
    } else {
        assert(s.filter(f) =~= s);
        assert(s =~= Seq::<T>::empty());
    }
}

/// What of a list in four parts, each of one sort, is of one sort.
proof fn lemma_parts<T>(
    a: Seq<T>,
    b: Seq<T>,
    c: Seq<T>,
    d: Seq<T>,
    f: spec_fn(T) -> bool,
    which: int,
)
    requires
        forall|i: int| 0 <= i < a.len() ==> f(#[trigger] a[i]) == (which == 0),
        forall|i: int| 0 <= i < b.len() ==> f(#[trigger] b[i]) == (which == 1),
        forall|i: int| 0 <= i < c.len() ==> f(#[trigger] c[i]) == (which == 2),
        forall|i: int| 0 <= i < d.len() ==> f(#[trigger] d[i]) == (which == 3),
        0 <= which <= 3,
    ensures
        (a + b + c + d).filter(f) == (if which == 0 {
            a
        } else if which == 1 {
            b
        } else if which == 2 {
            c
        } else {
            d
        }),
{
    Seq::filter_distributes_over_add(a + b + c, d, f);
    Seq::filter_distributes_over_add(a + b, c, f);
    Seq::filter_distributes_over_add(a, b, f);
    lemma_filter_all(a, f);
    lemma_filter_all(b, f);
    lemma_filter_all(c, f);
    lemma_filter_all(d, f);
    let e = Seq::<T>::empty();
    assert(e + a =~= a && a + e =~= a);
    assert(e + b =~= b && b + e =~= b);
    assert(e + c =~= c && c + e =~= c);
    assert(e + d =~= d && d + e =~= d);
    assert(e + e =~= e);
}

/// Whether some cell on the rim of a chunk is alive, by the bits of its bitset.
pub open spec fn rim_alive(bits: Seq<u8>) -> bool {
    exists|k: int| 0 <= k < 64 && #[trigger] rim_alive_at(bits, k)
}

/// Whether the cell at `k` along one of the four sides is alive.
pub open spec fn rim_alive_at(bits: Seq<u8>, k: int) -> bool {
    ||| wire::bit_of_bytes(bits, k, 0)
    ||| wire::bit_of_bytes(bits, k, 63)
    ||| wire::bit_of_bytes(bits, 0, k)
    ||| wire::bit_of_bytes(bits, 63, k)
}

/// A chunk is told to have live cells on its rim exactly if it has.
pub proof fn law_rim_is_seen(bits: Seq<u8>)
    requires
        bits.len() == BITS_BYTES,
    ensures
        world::sealed(hub::chunk_of_bits(bits)) == !rim_alive(bits),
{
    let c = hub::chunk_of_bits(bits);
    assert forall|x: int, y: int| 0 <= x < 64 && 0 <= y < 64 implies #[trigger] c.cell(x, y)
        == wire::bit_of_bytes(bits, x, y) by {
        wire::law_bitset_layout(bits, x, y);
    }
    if rim_alive(bits) {
        let k = choose|k: int| 0 <= k < 64 && #[trigger] rim_alive_at(bits, k);
        if wire::bit_of_bytes(bits, k, 0) {
            assert(c.cell(k, 0));
            assert(chunk::facing(k, 0) && chunk::facing(0, -1));
            assert(c.touches(0, -1));
        } else if wire::bit_of_bytes(bits, k, 63) {
            assert(c.cell(k, 63));
            assert(chunk::facing(k, 0) && chunk::facing(63, 1));
            assert(c.touches(0, 1));
        } else if wire::bit_of_bytes(bits, 0, k) {
            assert(c.cell(0, k));
            assert(chunk::facing(0, -1) && chunk::facing(k, 0));
            assert(c.touches(-1, 0));
        } else {
            assert(c.cell(63, k));
            assert(chunk::facing(63, 1) && chunk::facing(k, 0));
            assert(c.touches(1, 0));
        }
    }
    if !world::sealed(c) {
        let (dx, dy) = choose|dx: int, dy: int|
            -1 <= dx <= 1 && -1 <= dy <= 1 && (dx != 0 || dy != 0) && #[trigger] c.touches(dx, dy);
        let (x, y) = choose|x: int, y: int|
            0 <= x < 64 && 0 <= y < 64 && chunk::facing(x, dx) && chunk::facing(y, dy)
                && #[trigger] c.cell(x, y);
        if dy != 0 {
            assert(rim_alive_at(bits, x));
        } else {
            assert(rim_alive_at(bits, y));
        }
    }
}

/// Whether the message tells exactly the subscribers of a chunk of the edits in it, all of them.
pub open spec fn tells_edit(w: HubState, o: Outgoing, e: (ChunkCoord, Vec<EditCell>)) -> bool {
    &&& o.msg matches ServerMsg::EditApplied { cx, cy, cells } && cx == e.0.0 && cy == e.0.1
        && cells@ == e.1@
    &&& forall|q: PeerId| #[trigger] o.to@.contains(q) <==> w.listed(q, e.0)
}

/// Whether the message tells exactly the subscribers of a chunk that it changed, and shows it.
pub open spec fn tells_change(w: HubState, o: Outgoing, tick: u64, s: ChunkSnap) -> bool {
    &&& o.msg matches ServerMsg::ChunkDelta { cx, cy, tick: t, bits } && cx == s.coord.0 && cy
        == s.coord.1 && t == tick && bits@ == s.bits@
    &&& forall|q: PeerId| #[trigger] o.to@.contains(q) <==> w.listed(q, s.coord)
}

/// Whether the message tells every peer that a chunk is gone.
pub open spec fn tells_gone(w: HubState, o: Outgoing, c: ChunkCoord) -> bool {
    &&& o.msg matches ServerMsg::Reaped { cx, cy } && cx == c.0 && cy == c.1
    &&& forall|q: PeerId| #[trigger] o.to@.contains(q) <==> w.peers.contains_key(q)
}

/// Whether the message tells every peer that a tick was made.
pub open spec fn tells_tick(w: HubState, o: Outgoing, tick: u64) -> bool {
    &&& o.msg matches ServerMsg::Sync { tick: t } && t == tick
    &&& forall|q: PeerId| #[trigger] o.to@.contains(q) <==> w.peers.contains_key(q)
}

/// `out` has four parts: what is gone, what changed, what was edited, and that a tick was made.
#[verifier::opaque]
spec fn parted(
    w: HubState,
    ev: SimEvent,
    out: Seq<Outgoing>,
    a: Seq<Outgoing>,
    b: Seq<Outgoing>,
    c: Seq<Outgoing>,
    d: Seq<Outgoing>,
) -> bool {
    &&& out == a + b + c + d
    &&& a.len() == ev.removed@.len()
    &&& forall|i: int| 0 <= i < a.len() ==> tells_gone(w, #[trigger] a[i], ev.removed@[i])
    &&& b.len() == w.changes_due(ev).len()
    &&& forall|i: int|
        0 <= i < b.len() ==> tells_change(w, #[trigger] b[i], ev.tick, w.changes_due(ev)[i])
    &&& c.len() == w.edits_due(ev).len()
    &&& forall|i: int| 0 <= i < c.len() ==> tells_edit(w, #[trigger] c[i], w.edits_due(ev)[i])
    &&& d.len() == (if ev.is_tick && !ev.initial {
        1int
    } else {
        0
    })
    &&& d.len() > 0 ==> tells_tick(w, d[0], ev.tick)
}

/// The four parts of what is sent about what the simulation told.
proof fn lemma_fanout_parts(w: HubState, ev: SimEvent, out: Seq<Outgoing>) -> (parts: (
    Seq<Outgoing>,
    Seq<Outgoing>,
    Seq<Outgoing>,
    Seq<Outgoing>,
))
    requires
        hub::sent(out) == w.fanout(ev),
    ensures
        parted(w, ev, out, parts.0, parts.1, parts.2, parts.3),
{
    let f1 = |s: ChunkSnap| w.tells_delta(ev, s);
    let g1 = |s: ChunkSnap|
        !ev.initial && w.heard(s.coord) && (rim_alive(s.bits@) || w.owned.contains(s.coord));
    let f2 = |e: (ChunkCoord, Vec<EditCell>)| !w.subscribers(e.0).is_empty();
    let g2 = |e: (ChunkCoord, Vec<EditCell>)| !ev.initial && w.heard(e.0);
    let m0 = ev.removed@.map_values(|c: ChunkCoord| w.reaped(c));
    let m1 = ev.changed@.filter(f1).map_values(|s: ChunkSnap| w.delta_of(ev, s));
    let e2 = ev.edits@.filter(f2);
    let m2 = if ev.initial {
        Seq::empty()
    } else {
        e2.map_values(|e: (ChunkCoord, Vec<EditCell>)| w.edit_of(e))
    };
    let m3 = if ev.initial || !ev.is_tick {
        Seq::empty()
    } else {
        seq![OutgoingModel { msg: ServerModel::Sync { tick: ev.tick }, to: w.peers.dom() }]
    };
    assert(w.fanout(ev) =~= m0 + m1 + m2 + m3);
    assert forall|c: ChunkCoord| #[trigger] w.subscribers(c).is_empty() == !w.heard(c) by {
        lemma_heard(w, c);
    }
    assert forall|s: ChunkSnap| #[trigger] f1(s) == g1(s) by {
        law_rim_is_seen(s.bits@);
    }
    assert(f1 =~= g1);
    if ev.initial {
        lemma_filter_all(ev.edits@, g2);
    } else {
        assert forall|e: (ChunkCoord, Vec<EditCell>)| #[trigger] f2(e) == g2(e) by {}
        assert(f2 =~= g2);
    }
    let n0 = m0.len() as int;
    let n1 = n0 + m1.len();
    let n2 = n1 + m2.len();
    let n3 = n2 + m3.len();
    assert(hub::sent(out).len() == out.len());
    assert(out.len() == n3);
    let p0 = out.subrange(0, n0);
    let p1 = out.subrange(n0, n1);
    let p2 = out.subrange(n1, n2);
    let p3 = out.subrange(n2, n3);
    assert(out =~= p0 + p1 + p2 + p3);
    assert forall|i: int| 0 <= i < out.len() implies (#[trigger] out[i])@ == w.fanout(ev)[i] by {
        assert(hub::sent(out)[i] == out[i]@);
    }
    assert forall|i: int| 0 <= i < p0.len() implies tells_gone(
        w,
        #[trigger] p0[i],
        ev.removed@[i],
    ) by {
        assert(out[i]@ == m0[i]);
        lemma_to(out[i]);
    }
    let due1 = ev.changed@.filter(f1);
    sort::lemma_filter_members(ev.changed@, f1);
    assert forall|i: int| 0 <= i < p1.len() implies tells_change(
        w,
        #[trigger] p1[i],
        ev.tick,
        due1[i],
    ) by {
        assert(out[n0 + i]@ == m1[i]);
        lemma_to(out[n0 + i]);
        assert(due1.contains(due1[i]));
        assert(f1(due1[i]));
        lemma_heard(w, due1[i].coord);
    }
    sort::lemma_filter_members(ev.edits@, f2);
    assert forall|i: int| 0 <= i < p2.len() implies tells_edit(w, #[trigger] p2[i], e2[i]) by {
        assert(out[n1 + i]@ == m2[i]);
        lemma_to(out[n1 + i]);
        assert(e2.contains(e2[i]));
        assert(f2(e2[i]));
        lemma_heard(w, e2[i].0);
    }
    if p3.len() > 0 {
        assert(out[n2]@ == m3[0]);
        lemma_to(out[n2]);
    }
    assert(parted(w, ev, out, p0, p1, p2, p3)) by {
        reveal(parted);
    }
    (p0, p1, p2, p3)
}

proof fn lemma_heard(w: HubState, c: ChunkCoord)
    ensures
        w.subscribers(c).is_empty() == !w.heard(c),
        w.heard(c) ==> w.subs.contains_key(c),
{
    if w.heard(c) {
        let q = choose|q: PeerId| w.listed(q, c);
        assert(w.subscribers(c).contains(q));
        if w.subscribers(c).is_empty() {
            assert(w.subscribers(c) =~= Set::<PeerId>::empty());
        }
    } else {
        assert forall|q: PeerId| !w.subscribers(c).contains(q) by {
            assert(!w.listed(q, c));
        }
        assert(w.subscribers(c) =~= Set::<PeerId>::empty());
    }
}

/// The kinds of messages in the parts.
proof fn lemma_part_kinds(
    w: HubState,
    ev: SimEvent,
    out: Seq<Outgoing>,
    a: Seq<Outgoing>,
    b: Seq<Outgoing>,
    c: Seq<Outgoing>,
    d: Seq<Outgoing>,
)
    requires
        parted(w, ev, out, a, b, c, d),
    ensures
        out == a + b + c + d,
        forall|i: int| 0 <= i < a.len() ==> kind(#[trigger] a[i]) == 0,
        forall|i: int| 0 <= i < b.len() ==> kind(#[trigger] b[i]) == 1,
        forall|i: int| 0 <= i < c.len() ==> kind(#[trigger] c[i]) == 2,
        forall|i: int| 0 <= i < d.len() ==> kind(#[trigger] d[i]) == 3,
{
    assert(out == a + b + c + d) by {
        reveal(parted);
    }
    assert forall|i: int| 0 <= i < a.len() implies kind(#[trigger] a[i]) == 0 by {
        reveal(parted);
        assert(tells_gone(w, a[i], ev.removed@[i]));
    }
    assert forall|i: int| 0 <= i < b.len() implies kind(#[trigger] b[i]) == 1 by {
        reveal(parted);
        assert(tells_change(w, b[i], ev.tick, w.changes_due(ev)[i]));
    }
    assert forall|i: int| 0 <= i < c.len() implies kind(#[trigger] c[i]) == 2 by {
        reveal(parted);
        assert(tells_edit(w, c[i], w.edits_due(ev)[i]));
    }
    assert forall|i: int| 0 <= i < d.len() implies kind(#[trigger] d[i]) == 3 by {
        reveal(parted);
        assert(tells_tick(w, d[0], ev.tick));
    }
}

/// What is sent about what the simulation told, by kind of message.
proof fn lemma_by_kind(
    w: HubState,
    ev: SimEvent,
    out: Seq<Outgoing>,
    a: Seq<Outgoing>,
    b: Seq<Outgoing>,
    c: Seq<Outgoing>,
    d: Seq<Outgoing>,
    which: int,
)
    requires
        parted(w, ev, out, a, b, c, d),
        0 <= which <= 3,
    ensures
        out.filter(|o: Outgoing| kind(o) == which) == (if which == 0 {
            a
        } else if which == 1 {
            b
        } else if which == 2 {
            c
        } else {
            d
        }),
{
    lemma_part_kinds(w, ev, out, a, b, c, d);
    lemma_sorted_kinds(out, a, b, c, d, which);
}

/// The part that tells of edits.
proof fn lemma_edits_part(
    w: HubState,
    ev: SimEvent,
    out: Seq<Outgoing>,
    a: Seq<Outgoing>,
    b: Seq<Outgoing>,
    c: Seq<Outgoing>,
    d: Seq<Outgoing>,
)
    requires
        parted(w, ev, out, a, b, c, d),
    ensures
        c.len() == w.edits_due(ev).len(),
        forall|i: int| 0 <= i < c.len() ==> tells_edit(w, #[trigger] c[i], w.edits_due(ev)[i]),
{
    reveal(parted);
}

/// Kinds of messages that tell of what the simulation told.
spec fn kind(o: Outgoing) -> int {
    if o.msg is Reaped {
        0
    } else if o.msg is ChunkDelta {
        1
    } else if o.msg is EditApplied {
        2
    } else if o.msg is Sync {
        3
    } else {
        4
    }
}

/// A list of messages in four parts, by kind.
proof fn lemma_sorted_kinds(
    all: Seq<Outgoing>,
    a: Seq<Outgoing>,
    b: Seq<Outgoing>,
    c: Seq<Outgoing>,
    d: Seq<Outgoing>,
    which: int,
)
    requires
        all == a + b + c + d,
        forall|i: int| 0 <= i < a.len() ==> kind(#[trigger] a[i]) == 0,
        forall|i: int| 0 <= i < b.len() ==> kind(#[trigger] b[i]) == 1,
        forall|i: int| 0 <= i < c.len() ==> kind(#[trigger] c[i]) == 2,
        forall|i: int| 0 <= i < d.len() ==> kind(#[trigger] d[i]) == 3,
        0 <= which <= 3,
    ensures
        all.filter(|o: Outgoing| kind(o) == which) == (if which == 0 {
            a
        } else if which == 1 {
            b
        } else if which == 2 {
            c
        } else {
            d
        }),
{
    lemma_parts(a, b, c, d, |o: Outgoing| kind(o) == which, which);
}

/// A message of a list in four parts is one of its part.
proof fn lemma_kind_at(
    all: Seq<Outgoing>,
    a: Seq<Outgoing>,
    b: Seq<Outgoing>,
    c: Seq<Outgoing>,
    d: Seq<Outgoing>,
    i: int,
)
    requires
        all == a + b + c + d,
        forall|i: int| 0 <= i < a.len() ==> kind(#[trigger] a[i]) == 0,
        forall|i: int| 0 <= i < b.len() ==> kind(#[trigger] b[i]) == 1,
        forall|i: int| 0 <= i < c.len() ==> kind(#[trigger] c[i]) == 2,
        forall|i: int| 0 <= i < d.len() ==> kind(#[trigger] d[i]) == 3,
        0 <= i < all.len(),
    ensures
        kind(all[i]) < 4,
{
    let m = a.len() as int;
    let n = m + b.len();
    let k = n + c.len();
    if i < m {
        assert(all[i] == a[i]);
    } else if i < n {
        assert(all[i] == b[i - m]);
    } else if i < k {
        assert(all[i] == c[i - n]);
    } else {
        assert(all[i] == d[i - k]);
    }
}

/// Every peer is told of each chunk that is gone, by one message for each, in their order.
pub proof fn law_all_learn_of_gone_chunks(w: HubState, ev: SimEvent, out: Seq<Outgoing>)
    requires
        hub::sent(out) == w.fanout(ev),
    ensures
        ({
            let gone = out.filter(|o: Outgoing| o.msg is Reaped);
            &&& gone.len() == ev.removed@.len()
            &&& forall|i: int|
                0 <= i < gone.len() ==> tells_gone(w, #[trigger] gone[i], ev.removed@[i])
        }),
{
    let (a, b, c, d) = lemma_fanout_parts(w, ev, out);
    lemma_by_kind(w, ev, out, a, b, c, d, 0);
    reveal(parted);
    assert((|o: Outgoing| o.msg is Reaped) =~= (|o: Outgoing| kind(o) == 0));
}

/// The subscribers of a chunk that changed are told by one message per change, which shows the
/// chunk, if the chunk is owned or has a live cell on its rim. Of the first dump none is told.
pub proof fn law_subscribers_learn_of_changes(w: HubState, ev: SimEvent, out: Seq<Outgoing>)
    requires
        hub::sent(out) == w.fanout(ev),
    ensures
        ({
            let changes = out.filter(|o: Outgoing| o.msg is ChunkDelta);
            let due = ev.changed@.filter(
                |s: ChunkSnap|
                    !ev.initial && w.heard(s.coord) && (rim_alive(s.bits@) || w.owned.contains(
                        s.coord,
                    )),
            );
            &&& changes.len() == due.len()
            &&& forall|i: int|
                0 <= i < due.len() ==> tells_change(w, #[trigger] changes[i], ev.tick, due[i])
        }),
{
    let (a, b, c, d) = lemma_fanout_parts(w, ev, out);
    lemma_by_kind(w, ev, out, a, b, c, d, 1);
    reveal(parted);
    assert((|o: Outgoing| o.msg is ChunkDelta) =~= (|o: Outgoing| kind(o) == 1));
}

/// The subscribers of a chunk that was edited are told by exactly one message for each entry of the
/// event's edits, which holds all edits of the entry in their order. Of the first dump none is told.
pub proof fn law_subscribers_learn_of_edits(w: HubState, ev: SimEvent, out: Seq<Outgoing>)
    requires
        hub::sent(out) == w.fanout(ev),
    ensures
        ({
            let edits = out.filter(|o: Outgoing| o.msg is EditApplied);
            let due = ev.edits@.filter(
                |e: (ChunkCoord, Vec<EditCell>)| !ev.initial && w.heard(e.0),
            );
            &&& edits.len() == due.len()
            &&& forall|i: int| 0 <= i < due.len() ==> tells_edit(w, #[trigger] edits[i], due[i])
        }),
{
    let (a, b, c, d) = lemma_fanout_parts(w, ev, out);
    lemma_by_kind(w, ev, out, a, b, c, d, 2);
    lemma_edits_part(w, ev, out, a, b, c, d);
    assert((|o: Outgoing| o.msg is EditApplied) =~= (|o: Outgoing| kind(o) == 2));
}

/// Every peer is told of a tick, once and last, and only of a tick. Nothing is sent but that, what
/// is gone, what changed and what was edited.
pub proof fn law_all_learn_of_ticks(w: HubState, ev: SimEvent, out: Seq<Outgoing>)
    requires
        hub::sent(out) == w.fanout(ev),
    ensures
        ({
            let ticks = out.filter(|o: Outgoing| o.msg is Sync);
            &&& ticks.len() == (if ev.is_tick && !ev.initial {
                1int
            } else {
                0
            })
            &&& ev.is_tick && !ev.initial ==> tells_tick(w, out.last(), ev.tick)
        }),
        forall|i: int|
            0 <= i < out.len() ==> (#[trigger] out[i]).msg is Reaped || out[i].msg is ChunkDelta
                || out[i].msg is EditApplied || out[i].msg is Sync,
{
    let (a, b, c, d) = lemma_fanout_parts(w, ev, out);
    lemma_by_kind(w, ev, out, a, b, c, d, 3);
    reveal(parted);
    assert((|o: Outgoing| o.msg is Sync) =~= (|o: Outgoing| kind(o) == 3));
    if d.len() > 0 {
        assert(out.last() == d[0]);
    }
    assert forall|i: int| 0 <= i < out.len() implies (#[trigger] out[i]).msg is Reaped
        || out[i].msg is ChunkDelta || out[i].msg is EditApplied || out[i].msg is Sync by {
        lemma_part_kinds(w, ev, out, a, b, c, d);
        lemma_kind_at(out, a, b, c, d, i);
    }
}

/// A client that patches its copy of a chunk with the edits that it is told of has the same copy as
/// one that patches it with the edits that the simulation tells of.
pub proof fn law_told_edits_patch_alike(
    w: HubState,
    ev: SimEvent,
    out: Seq<Outgoing>,
    i: int,
    x: int,
    y: int,
    was: bool,
)
    requires
        hub::sent(out) == w.fanout(ev),
        !ev.initial,
        0 <= i < ev.edits@.len(),
        w.heard(ev.edits@[i].0),
    ensures
        exists|k: int|
            0 <= k < out.len() && tells_edit(w, #[trigger] out[k], ev.edits@[i]) && patched(
                out[k].msg->EditApplied_cells@,
                x,
                y,
                was,
            ) == patched(ev.edits@[i].1@, x, y, was),
{
    let (a, b, c, d) = lemma_fanout_parts(w, ev, out);
    reveal(parted);
    let f = |e: (ChunkCoord, Vec<EditCell>)| !ev.initial && w.heard(e.0);
    let due = ev.edits@.filter(f);
    sort::lemma_filter_members(ev.edits@, f);
    assert(ev.edits@.contains(ev.edits@[i]) && f(ev.edits@[i]));
    assert(due.contains(ev.edits@[i]));
    let k = choose|k: int| 0 <= k < due.len() && due[k] == ev.edits@[i];
    assert(tells_edit(w, c[k], due[k]));
    assert(out[a.len() + b.len() + k] == c[k]);
}

/// Whether the local cell `(x, y)` of a chunk, which was `was`, is alive once the chunk was patched
/// with edits: as the last of them that names it has it.
pub open spec fn patched(cells: Seq<EditCell>, x: int, y: int, was: bool) -> bool
    decreases cells.len(),
{
    if cells.len() == 0 {
        was
    } else if cells.last().lx == x && cells.last().ly == y {
        cells.last().alive
    } else {
        patched(cells.drop_last(), x, y, was)
    }
}

/// The mirror holds what it held of chunks that it is not told of.
proof fn lemma_mirror_untold(
    m: Map<ChunkCoord, MirrorEntry>,
    snaps: Seq<ChunkSnap>,
    tick: u64,
    c: ChunkCoord,
)
    requires
        forall|i: int| 0 <= i < snaps.len() ==> (#[trigger] snaps[i]).coord != c,
    ensures
        HubState::mirrored(m, snaps, tick).contains_key(c) == m.contains_key(c),
        HubState::mirrored(m, snaps, tick)[c] == m[c],
    decreases snaps.len(),
{
    if snaps.len() > 0 {
        assert forall|i: int| 0 <= i < snaps.drop_last().len() implies (
        #[trigger] snaps.drop_last()[i]).coord != c by {
            assert(snaps[i].coord != c);
        }
        lemma_mirror_untold(m, snaps.drop_last(), tick, c);
        assert(snaps[snaps.len() - 1].coord != c);
    }
}

/// The mirror holds of a chunk what it was told last.
proof fn lemma_mirror_told(
    m: Map<ChunkCoord, MirrorEntry>,
    snaps: Seq<ChunkSnap>,
    tick: u64,
    k: int,
)
    requires
        0 <= k < snaps.len(),
        forall|i: int| k < i < snaps.len() ==> (#[trigger] snaps[i]).coord != snaps[k].coord,
    ensures
        ({
            let next = HubState::mirrored(m, snaps, tick);
            let c = snaps[k].coord;
            &&& next.contains_key(c)
            &&& next[c].bits == snaps[k].bits
            &&& next[c].frozen_mask == snaps[k].frozen_mask
            &&& next[c].live_count == snaps[k].live_count
            &&& next[c].tick == tick
        }),
    decreases snaps.len(),
{
    if k < snaps.len() - 1 {
        let init = snaps.drop_last();
        assert forall|i: int| k < i < init.len() implies (#[trigger] init[i]).coord
            != init[k].coord by {
            assert(snaps[i].coord != snaps[k].coord);
        }
        lemma_mirror_told(m, init, tick, k);
        assert(snaps[snaps.len() - 1].coord != snaps[k].coord);
    }
}

/// After an event the mirror holds of each chunk what it was told last, as of the tick of the
/// event, nothing of chunks that are gone, and of the others what it held.
pub proof fn law_mirror_holds_last_told(w: HubState, ev: SimEvent, c: ChunkCoord)
    ensures
        (forall|i: int| 0 <= i < ev.changed@.len() ==> (#[trigger] ev.changed@[i]).coord != c) ==> ({
            let next = w.after_event(ev).mirror;
            &&& next.contains_key(c) <==> w.mirror.contains_key(c) && !ev.removed@.contains(c)
            &&& next.contains_key(c) ==> next[c] == w.mirror[c]
        }),
        forall|k: int|
            0 <= k < ev.changed@.len() && (#[trigger] ev.changed@[k]).coord == c && (forall|i: int|
                k < i < ev.changed@.len() ==> (#[trigger] ev.changed@[i]).coord != c) ==> ({
                let next = w.after_event(ev).mirror;
                &&& next.contains_key(c)
                &&& next[c].bits == ev.changed@[k].bits
                &&& next[c].frozen_mask == ev.changed@[k].frozen_mask
                &&& next[c].live_count == ev.changed@[k].live_count
                &&& next[c].tick == ev.tick
            }),
{
    let m = w.mirror.remove_keys(ev.removed@.to_set());
    assert(ev.removed@.to_set().contains(c) == ev.removed@.contains(c));
    if forall|i: int| 0 <= i < ev.changed@.len() ==> (#[trigger] ev.changed@[i]).coord != c {
        lemma_mirror_untold(m, ev.changed@, ev.tick, c);
    }
    assert forall|k: int|
        0 <= k < ev.changed@.len() && (#[trigger] ev.changed@[k]).coord == c && (forall|i: int|
            k < i < ev.changed@.len() ==> (#[trigger] ev.changed@[i]).coord != c) implies ({
        let next = w.after_event(ev).mirror;
        &&& next.contains_key(c)
        &&& next[c].bits == ev.changed@[k].bits
        &&& next[c].frozen_mask == ev.changed@[k].frozen_mask
        &&& next[c].live_count == ev.changed@[k].live_count
        &&& next[c].tick == ev.tick
    }) by {
        lemma_mirror_told(m, ev.changed@, ev.tick, k);
    }
}

/// An event sets the clock; a tick counts as seeing all chunks that the index has subscribers for;
/// what is gone is forgotten. Peers, subscriptions, logins, regions and claims stay as they are.
pub proof fn law_events_keep_the_clock(w: HubState, ev: SimEvent, c: ChunkCoord)
    ensures
        ({
            let next = w.after_event(ev);
            &&& next.latest_tick == ev.tick
            &&& next.last_seen.contains_key(c) <==> !ev.removed@.contains(c) && (
            w.last_seen.contains_key(c) || (ev.is_tick && w.subs.contains_key(c)))
            &&& next.last_seen.contains_key(c) ==> next.last_seen[c] == (if ev.is_tick
                && w.subs.contains_key(c) {
                ev.tick
            } else {
                w.last_seen[c]
            })
            &&& next == HubState {
                latest_tick: next.latest_tick,
                last_seen: next.last_seen,
                mirror: next.mirror,
                ..w
            }
        }),
{
    assert(ev.removed@.to_set().contains(c) == ev.removed@.contains(c));
}

/// Whether chunk `c` may be dropped to make room: it is mirrored, nothing in it is frozen, and no
/// peer is subscribed to it.
pub open spec fn spare(w: HubState, c: ChunkCoord) -> bool {
    &&& w.mirror.contains_key(c)
    &&& w.mirror[c].frozen_mask is None
    &&& forall|p: PeerId| #[trigger] w.peers.contains_key(p) ==> !w.peers[p].contains(c)
}

/// For how many ticks chunk `c` was not seen.
pub open spec fn unseen(w: HubState, c: ChunkCoord) -> int {
    let last = if w.last_seen.contains_key(c) {
        w.last_seen[c] as int
    } else {
        0
    };
    if w.latest_tick >= last {
        w.latest_tick - last
    } else {
        0
    }
}

/// How many chunks lie between chunk `c` and the origin, going along the axes.
pub open spec fn afar(c: ChunkCoord) -> int {
    (if c.0 < 0 {
        -c.0
    } else {
        c.0 as int
    }) + (if c.1 < 0 {
        -c.1
    } else {
        c.1 as int
    })
}

/// What is dropped to make room are spare chunks only, each once, as many as there are too many, or
/// all that are spare. Of two spare chunks the one that was not seen for longer goes first, then
/// the one with fewer live cells, then the one farther out.
pub proof fn law_room_is_made_in_order(w: HubState, reaped: Seq<ChunkCoord>)
    requires
        w.reaps(reaped),
    ensures
        reaped.no_duplicates(),
        forall|i: int| 0 <= i < reaped.len() ==> spare(w, #[trigger] reaped[i]),
        w.mirror.len() <= w.max_live_chunks ==> reaped.len() == 0,
        w.mirror.len() > w.max_live_chunks ==> reaped.len() <= w.mirror.len() - w.max_live_chunks,
        w.mirror.len() > w.max_live_chunks && reaped.len() < w.mirror.len() - w.max_live_chunks
            ==> forall|c: ChunkCoord| spare(w, c) ==> #[trigger] reaped.contains(c),
        forall|i: int, c: ChunkCoord|
            0 <= i < reaped.len() && spare(w, c) && !(#[trigger] reaped.contains(c)) ==> ({
                let d = #[trigger] reaped[i];
                ||| unseen(w, d) > unseen(w, c)
                ||| unseen(w, d) == unseen(w, c) && w.mirror[d].live_count < w.mirror[c].live_count
                ||| unseen(w, d) == unseen(w, c) && w.mirror[d].live_count == w.mirror[c].live_count
                    && afar(d) >= afar(c)
            }),
{
    if w.mirror.len() > w.max_live_chunks {
        let info = w.reap_info();
        assert(info.dom() =~= w.mirror.dom());
        reaper::law_reaping_is_bounded(
            info,
            w.watched(),
            w.last_seen,
            w.latest_tick,
            w.max_live_chunks,
            reaped,
        );
        assert forall|c: ChunkCoord| spare(w, c) == #[trigger] reaper::mortal(
            info,
            w.watched(),
            c,
        ) by {
            if spare(w, c) {
                assert(!w.watched().contains(c));
            }
            if reaper::mortal(info, w.watched(), c) {
                assert forall|p: PeerId| #[trigger] w.peers.contains_key(p) implies
                    !w.peers[p].contains(c) by {}
            }
        }
        assert forall|i: int, c: ChunkCoord|
            0 <= i < reaped.len() && spare(w, c) && !(#[trigger] reaped.contains(c)) implies ({
            let d = #[trigger] reaped[i];
            ||| unseen(w, d) > unseen(w, c)
            ||| unseen(w, d) == unseen(w, c) && w.mirror[d].live_count < w.mirror[c].live_count
            ||| unseen(w, d) == unseen(w, c) && w.mirror[d].live_count == w.mirror[c].live_count
                && afar(d) >= afar(c)
        }) by {
            assert(reaper::mortal(info, w.watched(), c));
            assert(reaper::mortal(info, w.watched(), reaped[i]));
        }
    }
}

/// Whether the message is for one peer alone.
pub open spec fn only_to(o: Outgoing, p: PeerId) -> bool {
    forall|q: PeerId| #[trigger] o.to@.contains(q) <==> q == p
}

/// A peer that asked for a claim, or gave one up, is told whether that was done. If it was, every
/// peer is told of all regions first, and the peer is told last of its user and of the claim that
/// the user has now.
pub proof fn law_claims_are_answered(w: HubState, p: PeerId, ok: bool, out: Seq<Outgoing>)
    requires
        hub::sent(out) == w.claim_answer(p, ok),
    ensures
        !ok ==> out.len() == 1 && only_to(out[0], p) && (out[0].msg matches ServerMsg::ClaimResult {
            ok: k,
        } && !k),
        ok ==> out.len() == 3 && only_to(out[1], p) && only_to(out[2], p) && (forall|q: PeerId|
         #[trigger]
            out[0].to@.contains(q) <==> w.peers.contains_key(q)),
        ok ==> (out[0].msg matches ServerMsg::Regions { regions } && regions@ == w.regions),
        ok ==> (out[1].msg matches ServerMsg::ClaimResult { ok: k } && k),
        ok ==> (out[2].msg matches ServerMsg::AuthState { uid, claim, name, email } && name@.len()
            == 0 && email@.len() == 0 && uid == (if w.users.contains_key(p) {
            w.users[p].uid
        } else {
            0
        }) && (w.users.contains_key(p) ==> (match claim {
            Some(c) => w.claims.contains(Claim { user_id: uid, cx: c.0, cy: c.1 }),
            None => forall|i: int|
                0 <= i < w.claims.len() ==> (#[trigger] w.claims[i]).user_id != uid,
        })) && (!w.users.contains_key(p) ==> claim is None)),
{
    assert(hub::sent(out).len() == out.len());
    assert forall|i: int| 0 <= i < out.len() implies (#[trigger] out[i])@ == w.claim_answer(
        p,
        ok,
    )[i] by {
        assert(hub::sent(out)[i] == out[i]@);
    }
    if ok {
        lemma_to(out[0]);
        lemma_to(out[1]);
        lemma_to(out[2]);
        assert(out[0]@ == w.claim_answer(p, ok)[0]);
        assert(out[1]@ == w.claim_answer(p, ok)[1]);
        assert(out[2]@ == w.claim_answer(p, ok)[2]);
        if w.users.contains_key(p) {
            let uid = w.users[p].uid;
            claims::law_claims_are_found(w.claims, uid);
        }
    } else {
        lemma_to(out[0]);
        assert(out[0]@ == w.claim_answer(p, ok)[0]);
    }
}

/// With other claims the regions are the static ones and one for each claim, LOCKED and OWNED by
/// its user, and the owned chunks are those of the claims; nothing else changes.
pub proof fn law_claims_make_regions(w: HubState, list: Seq<Claim>)
    requires
        0 <= w.claim_w <= claims::MAX_CLAIM_SIDE,
        0 <= w.claim_h <= claims::MAX_CLAIM_SIDE,
    ensures
        ({
            let next = w.with_claims(list);
            &&& next.claims == list
            &&& next.regions.len() == w.fixed.len() + list.len()
            &&& forall|i: int|
                0 <= i < w.fixed.len() ==> #[trigger] next.regions[i] == w.fixed[i]
            &&& forall|i: int|
                #![trigger list[i]]
                0 <= i < list.len() ==> ({
                    let r = next.regions[w.fixed.len() + i];
                    &&& r.x == 64 * list[i].cx
                    &&& r.y == 64 * list[i].cy
                    &&& r.w == 64 * w.claim_w
                    &&& r.h == 64 * w.claim_h
                    &&& r.flags == 6
                    &&& r.owner == list[i].user_id
                })
            &&& forall|d: ChunkCoord| #[trigger]
                next.owned.contains(d) <==> exists|i: int|
                    0 <= i < list.len() && (#[trigger] list[i]).cx <= d.0 && d.0 < list[i].cx
                        + w.claim_w && list[i].cy <= d.1 && d.1 < list[i].cy + w.claim_h
            &&& next == HubState {
                claims: next.claims,
                regions: next.regions,
                owned: next.owned,
                ..w
            }
        }),
{
    claims::law_regions_of_claims(w.fixed, list, w.claim_w, w.claim_h);
    let next = w.with_claims(list);
    assert forall|d: ChunkCoord| #[trigger] next.owned.contains(d) <==> exists|i: int|
        0 <= i < list.len() && (#[trigger] list[i]).cx <= d.0 && d.0 < list[i].cx + w.claim_w
            && list[i].cy <= d.1 && d.1 < list[i].cy + w.claim_h by {
        claims::law_owned_chunks_of_claims(list, w.claim_w, w.claim_h, d);
    }
}

/// A claim that stands in nobody's way has no cell in common with any region that has the LOCKED
/// or the FROZEN flag and is not an OWNED region of the same user; one that is refused has.
pub proof fn law_claims_are_weighed(w: HubState, uid: u32, c: ChunkCoord)
    requires
        0 <= w.claim_w <= claims::MAX_CLAIM_SIDE,
        0 <= w.claim_h <= claims::MAX_CLAIM_SIDE,
    ensures
        !w.obstructed(uid, c) ==> forall|i: int, x: int, y: int|
            #![trigger claims::in_both(w.regions[i], 64 * c.0, 64 * c.1, 64 * w.claim_w, 64 * w.claim_h, x, y)]
            0 <= i < w.regions.len() && (w.regions[i].flags & 2 != 0 || w.regions[i].flags & 1 != 0)
                && claims::in_both(
                w.regions[i],
                64 * c.0,
                64 * c.1,
                64 * w.claim_w,
                64 * w.claim_h,
                x,
                y,
            ) ==> w.regions[i].flags & 4 != 0 && w.regions[i].owner == uid,
        w.obstructed(uid, c) && w.claim_w > 0 && w.claim_h > 0 && (forall|i: int|
            0 <= i < w.regions.len() ==> (#[trigger] w.regions[i]).w > 0 && w.regions[i].h > 0)
            ==> exists|i: int, x: int, y: int|
            #![trigger claims::in_both(w.regions[i], 64 * c.0, 64 * c.1, 64 * w.claim_w, 64 * w.claim_h, x, y)]
            0 <= i < w.regions.len() && (w.regions[i].flags & 2 != 0 || w.regions[i].flags & 1 != 0)
                && !(w.regions[i].flags & 4 != 0 && w.regions[i].owner == uid) && claims::in_both(
                w.regions[i],
                64 * c.0,
                64 * c.1,
                64 * w.claim_w,
                64 * w.claim_h,
                x,
                y,
            ),
{
    claims::law_grants_keep_off(
        w.regions,
        uid,
        c.0,
        c.1,
        w.claim_w,
        w.claim_h,
        !w.obstructed(uid, c),
    );
}

/// What somebody who is no peer asks about subscriptions is ignored, and so are requests about
/// claims that come as ordinary messages.
pub proof fn law_strangers_are_ignored(
    w: HubState,
    p: PeerId,
    m: ClientModel,
    r: Reaction,
    next: HubState,
)
    requires
        w.reacts(p, m, r, next),
        !w.peers.contains_key(p) && (m is Subscribe || m is Unsubscribe) || m is ClaimCreate
            || m is ClaimDelete,
    ensures
        next == w,
        r.sim is None,
        r.out@.len() == 0,
        !r.kicked,
{
}

/// No message is for the same peer twice.
pub proof fn law_messages_come_once(out: Seq<Outgoing>, i: int, a: int, b: int)
    requires
        hub::once_each(out),
        0 <= i < out.len(),
        0 <= a < b < out[i].to@.len(),
    ensures
        out[i].to@[a] != out[i].to@[b],
{
    assert(out[i].to@.no_duplicates());
}

/// Whether `c` comes up in a list before `d` does.
pub open spec fn comes_before(coords: Seq<ChunkCoord>, c: ChunkCoord, d: ChunkCoord) -> bool {
    exists|n: int|
        0 <= n <= coords.len() && (#[trigger] coords.take(n)).contains(c) && !coords.take(
            n,
        ).contains(d)
}

proof fn lemma_comes_before_push(
    coords: Seq<ChunkCoord>,
    last: ChunkCoord,
    c: ChunkCoord,
    d: ChunkCoord,
)
    ensures
        comes_before(coords, c, d) ==> comes_before(coords.push(last), c, d),
        coords.contains(c) && !coords.contains(d) ==> comes_before(coords.push(last), c, d),
{
    let all = coords.push(last);
    if comes_before(coords, c, d) {
        let n = choose|n: int|
            0 <= n <= coords.len() && (#[trigger] coords.take(n)).contains(c) && !coords.take(
                n,
            ).contains(d);
        assert(all.take(n) =~= coords.take(n));
    }
    if coords.contains(c) && !coords.contains(d) {
        assert(all.take(coords.len() as int) =~= coords);
    }
}

/// What is taken and what is new come in the order in which they were asked for.
proof fn lemma_subscribing_order(w: HubState, p: PeerId, coords: Seq<ChunkCoord>)
    requires
        w.peers.contains_key(p),
    ensures
        ({
            let s = w.subscribing(p, coords);
            &&& forall|i: int, j: int|
                0 <= i < j < s.taken.len() ==> comes_before(
                    coords,
                    #[trigger] s.taken[i],
                    #[trigger] s.taken[j],
                )
            &&& forall|i: int, j: int|
                0 <= i < j < s.fresh.len() ==> comes_before(
                    coords,
                    #[trigger] s.fresh[i],
                    #[trigger] s.fresh[j],
                )
        }),
    decreases coords.len(),
{
    if coords.len() > 0 {
        let init = coords.drop_last();
        let last = coords.last();
        let a = w.subscribing(p, init);
        let s = w.subscribing(p, coords);
        lemma_subscribing_order(w, p, init);
        lemma_subscribing(w, p, init);
        assert(coords =~= init.push(last));
        assert(!a.full && !a.state.peers[p].contains(last) ==> !init.contains(last));
        assert forall|i: int, j: int| 0 <= i < j < s.taken.len() implies comes_before(
            coords,
            #[trigger] s.taken[i],
            #[trigger] s.taken[j],
        ) by {
            lemma_comes_before_push(init, last, s.taken[i], s.taken[j]);
            if j == a.taken.len() {
                assert(a.taken.contains(a.taken[i]));
                assert(init.contains(a.taken[i]));
            }
        }
        assert forall|i: int, j: int| 0 <= i < j < s.fresh.len() implies comes_before(
            coords,
            #[trigger] s.fresh[i],
            #[trigger] s.fresh[j],
        ) by {
            lemma_comes_before_push(init, last, s.fresh[i], s.fresh[j]);
            if j == a.fresh.len() {
                assert(a.fresh.contains(a.fresh[i]));
                assert(a.taken.contains(a.fresh[i]));
                assert(init.contains(a.fresh[i]));
            }
        }
    }
}

/// A filter keeps the order.
proof fn lemma_filter_order(
    s: Seq<ChunkCoord>,
    f: spec_fn(ChunkCoord) -> bool,
    coords: Seq<ChunkCoord>,
)
    requires
        forall|i: int, j: int|
            0 <= i < j < s.len() ==> comes_before(coords, #[trigger] s[i], #[trigger] s[j]),
    ensures
        forall|i: int, j: int|
            0 <= i < j < s.filter(f).len() ==> comes_before(
                coords,
                #[trigger] s.filter(f)[i],
                #[trigger] s.filter(f)[j],
            ),
    decreases s.len(),
{
    reveal_with_fuel(Seq::filter, 2);
    if s.len() > 0 {
        let init = s.drop_last();
        let last = s.last();
        assert forall|i: int, j: int| 0 <= i < j < init.len() implies comes_before(
            coords,
            #[trigger] init[i],
            #[trigger] init[j],
        ) by {
            assert(comes_before(coords, s[i], s[j]));
        }
        lemma_filter_order(init, f, coords);
        sort::lemma_filter_members(init, f);
        let rest = init.filter(f);
        let all = s.filter(f);
        assert forall|i: int, j: int| 0 <= i < j < all.len() implies comes_before(
            coords,
            #[trigger] all[i],
            #[trigger] all[j],
        ) by {
            assert(all[i] == rest[i]);
            if j < rest.len() {
                assert(all[j] == rest[j]);
            } else {
                assert(rest.contains(rest[i]));
                assert(init.contains(rest[i]));
                let k = choose|k: int| 0 <= k < init.len() && init[k] == rest[i];
                assert(comes_before(coords, s[k], s[s.len() - 1]));
            }
        }
    }
}

/// A new subscriber is told of chunks, and the simulation of new ones, in the order in which they
/// were asked for.
pub proof fn law_subscribers_are_told_in_order(
    w: HubState,
    p: PeerId,
    coords: Seq<ChunkCoord>,
    r: Reaction,
    next: HubState,
    i: int,
    j: int,
)
    requires
        w.peers.contains_key(p),
        w.reacts(p, ClientModel::Subscribe(coords), r, next),
        !r.kicked,
        0 <= i < j,
    ensures
        j < r.out@.len() ==> comes_before(coords, chunk_shown(r.out@[i]), chunk_shown(r.out@[j])),
        r.sim matches Some(SimCmd::Subscribe(v)) ==> j < v@.len() ==> comes_before(
            coords,
            v@[i],
            v@[j],
        ),
{
    lemma_subscribing_order(w, p, coords);
    let s = w.subscribing(p, coords);
    let f = |c: ChunkCoord| w.worth_telling(c);
    let told = s.taken.filter(f);
    lemma_filter_order(s.taken, f, coords);
    assert(sent_len(r.out@) == told.len());
    if j < r.out@.len() {
        assert(hub::sent(r.out@)[i] == r.out@[i]@);
        assert(hub::sent(r.out@)[j] == r.out@[j]@);
        assert(r.out@[i]@.msg == w.chunk_state(told[i]));
        assert(r.out@[j]@.msg == w.chunk_state(told[j]));
        assert(chunk_shown(r.out@[i]) == told[i]);
        assert(chunk_shown(r.out@[j]) == told[j]);
        assert(comes_before(coords, told[i], told[j]));
    }
}

/// Peers are told first of what is gone, then of what changed, then of what was edited, and last of
/// the tick.
pub proof fn law_kinds_come_in_order(
    w: HubState,
    ev: SimEvent,
    out: Seq<Outgoing>,
    i: int,
    j: int,
)
    requires
        hub::sent(out) == w.fanout(ev),
        0 <= i < j < out.len(),
    ensures
        out[j].msg is Reaped ==> out[i].msg is Reaped,
        out[j].msg is ChunkDelta ==> out[i].msg is Reaped || out[i].msg is ChunkDelta,
        out[j].msg is EditApplied ==> !(out[i].msg is Sync),
        !(out[i].msg is Sync),
{
    let (a, b, c, d) = lemma_fanout_parts(w, ev, out);
    lemma_part_kinds(w, ev, out, a, b, c, d);
    lemma_kind_place(out, a, b, c, d, i);
    lemma_kind_place(out, a, b, c, d, j);
    assert(d.len() <= 1) by {
        reveal(parted);
    }
}

/// Which part a message is of.
proof fn lemma_kind_place(
    all: Seq<Outgoing>,
    a: Seq<Outgoing>,
    b: Seq<Outgoing>,
    c: Seq<Outgoing>,
    d: Seq<Outgoing>,
    i: int,
)
    requires
        all == a + b + c + d,
        forall|i: int| 0 <= i < a.len() ==> kind(#[trigger] a[i]) == 0,
        forall|i: int| 0 <= i < b.len() ==> kind(#[trigger] b[i]) == 1,
        forall|i: int| 0 <= i < c.len() ==> kind(#[trigger] c[i]) == 2,
        forall|i: int| 0 <= i < d.len() ==> kind(#[trigger] d[i]) == 3,
        0 <= i < all.len(),
    ensures
        kind(all[i]) == (if i < a.len() {
            0int
        } else if i < a.len() + b.len() {
            1
        } else if i < a.len() + b.len() + c.len() {
            2
        } else {
            3
        }),
        all.len() == a.len() + b.len() + c.len() + d.len(),
{
    let m = a.len() as int;
    let n = m + b.len();
    let k = n + c.len();
    if i < m {
        assert(all[i] == a[i]);
    } else if i < n {
        assert(all[i] == b[i - m]);
    } else if i < k {
        assert(all[i] == c[i - n]);
    } else {
        assert(all[i] == d[i - k]);
    }
}

} // verus!
