//! Network/peer hub. Owns the peer registry, subscription index, and a passive chunk
//! mirror. Takes in what the simulation tells and what peers ask, and decides what is sent to
//! whom and what is asked of the simulation. Never touches the world.

use crate::chunk::Chunk;
use crate::claims;
use crate::claims::{Claim, ClaimManager};
use crate::coord::{ChunkCoord, CoordMap};
use crate::protocol;
use crate::protocol::{ClientModel, ClientMsg, EditCell, Region, ServerModel, ServerMsg, BITS_BYTES};
use crate::reaper;
use crate::reaper::ReapInfo;
use crate::region;
use crate::shared;
use crate::sim::{ChunkSnap, SimCmd, SimEvent};
use crate::sort;
use crate::world;
use crate::{CHUNK_SIZE, CHUNK_SIZE_I64};
use std::collections::{HashMap, HashSet};
use std::sync::Arc;
use vstd::prelude::*;

verus! {

broadcast use vstd::std_specs::hash::group_hash_axioms;

/// Number of a peer.
pub type PeerId = u64;

/// The user that a peer is logged in as.
#[derive(Debug)]
pub struct PeerUser {
    pub uid: u32,
    pub email_key: String,
}

impl Clone for PeerUser {
    fn clone(&self) -> (u: Self)
        ensures
            u.uid == self.uid,
            u.email_key@ == self.email_key@,
    {
        PeerUser { uid: self.uid, email_key: self.email_key.clone() }
    }
}

/// What the hub knows of a chunk.
pub struct MirrorEntry {
    pub bits: [u8; BITS_BYTES],
    /// Cached frozen mask for the chunk (1 bit/cell), or none if nothing in it is frozen.
    /// Boxed because most chunks are unfrozen.
    pub frozen_mask: Option<Box<[u8; BITS_BYTES]>>,
    pub live_count: u32,
    pub tick: u64,
}

/// A message and the peers that it is for.
#[derive(Debug)]
pub struct Outgoing {
    pub msg: ServerMsg,
    pub to: Vec<PeerId>,
}

/// What an [`Outgoing`] says.
#[verifier::ext_equal]
pub struct OutgoingModel {
    pub msg: ServerModel,
    pub to: Set<PeerId>,
}

/// What a hub holds.
#[verifier::ext_equal]
pub struct HubState {
    /// Peers, with the chunks that each is subscribed to.
    pub peers: Map<PeerId, Set<ChunkCoord>>,
    /// Chunks that some peer is subscribed to, with the peers.
    pub subs: Map<ChunkCoord, Set<PeerId>>,
    pub last_seen: Map<ChunkCoord, u64>,
    pub mirror: Map<ChunkCoord, MirrorEntry>,
    pub users: Map<PeerId, PeerUser>,
    pub fixed: Seq<Region>,
    pub regions: Seq<Region>,
    pub claims: Seq<Claim>,
    pub claim_w: int,
    pub claim_h: int,
    pub owned: Set<ChunkCoord>,
    pub next_peer_id: PeerId,
    pub latest_tick: u64,
    /// Chunks that no peer is subscribed to any more, for the simulation to be told.
    pub pending: Seq<ChunkCoord>,
    pub client_max_chunks: nat,
    pub max_live_chunks: nat,
}

/// Peers, subscriptions, mirror, regions and claims.
pub struct Hub {
    peers: HashMap<PeerId, CoordMap<()>>,
    chunk_subs: CoordMap<HashSet<PeerId>>,
    last_seen_tick: CoordMap<u64>,
    mirror: CoordMap<MirrorEntry>,
    peer_user: HashMap<PeerId, PeerUser>,
    /// Immutable static regions.
    static_regions: Arc<[Region]>,
    /// Combined static + claim regions broadcast to clients.
    regions: Arc<[Region]>,
    claim_mgr: ClaimManager,
    /// Chunk coords covered by any claim; they are told even where nothing crosses their sides.
    owned_chunk_set: CoordMap<()>,
    next_peer_id: PeerId,
    latest_tick: u64,
    /// Coords whose subscriber count just hit zero, until the simulation is told.
    pending_sim_unsub: Vec<ChunkCoord>,
    client_max_chunks: u32,
    max_live_chunks: usize,
}

impl View for Outgoing {
    type V = OutgoingModel;

    open spec fn view(&self) -> OutgoingModel {
        OutgoingModel { msg: self.msg@, to: self.to@.to_set() }
    }
}

impl View for Hub {
    type V = HubState;

    closed spec fn view(&self) -> HubState {
        HubState {
            peers: self.peers@.map_values(|s: CoordMap<()>| s@.dom()),
            subs: self.chunk_subs@.map_values(|s: HashSet<PeerId>| s@),
            last_seen: self.last_seen_tick@,
            mirror: self.mirror@,
            users: self.peer_user@,
            fixed: self.static_regions@,
            regions: self.regions@,
            claims: self.claim_mgr.claims@,
            claim_w: self.claim_mgr.claim_w as int,
            claim_h: self.claim_mgr.claim_h as int,
            owned: self.owned_chunk_set@.dom(),
            next_peer_id: self.next_peer_id,
            latest_tick: self.latest_tick,
            pending: self.pending_sim_unsub@,
            client_max_chunks: self.client_max_chunks as nat,
            max_live_chunks: self.max_live_chunks as nat,
        }
    }
}

impl HubState {
    /// The subscription index agrees with the peers, and has no chunk without subscribers.
    pub open spec fn indexed(self) -> bool {
        &&& forall|c: ChunkCoord, p: PeerId|
            #![trigger self.peers[p].contains(c)]
            #![trigger self.subs[c].contains(p)]
            (self.subs.contains_key(c) && self.subs[c].contains(p)) <==> (self.peers.contains_key(
                p,
            ) && self.peers[p].contains(c))
        &&& forall|c: ChunkCoord| #[trigger]
            self.subs.contains_key(c) ==> exists|p: PeerId| self.subs[c].contains(p)
    }

    /// Whether `p` was the last subscriber of `c`.
    pub open spec fn orphaned(self, p: PeerId, c: ChunkCoord) -> bool {
        &&& self.peers.contains_key(p) && self.peers[p].contains(c)
        &&& self.subs.contains_key(c)
        &&& forall|q: PeerId| #[trigger] self.subs[c].contains(q) ==> q == p
    }

    /// The subscription index without `p` for the chunks in `coords`.
    pub open spec fn subs_without(self, p: PeerId, coords: Set<ChunkCoord>) -> Map<
        ChunkCoord,
        Set<PeerId>,
    > {
        Map::new(
            |c: ChunkCoord|
                self.subs.contains_key(c) && !(coords.contains(c) && forall|q: PeerId| #[trigger]
                    self.subs[c].contains(q) ==> q == p),
            |c: ChunkCoord|
                if coords.contains(c) {
                    self.subs[c].remove(p)
                } else {
                    self.subs[c]
                },
        )
    }

    /// `next` is this state without peer `p`; `gone` are the chunks that it was the last to be
    /// subscribed to.
    pub open spec fn drops(self, p: PeerId, gone: Seq<ChunkCoord>, next: HubState) -> bool {
        &&& gone.no_duplicates()
        &&& forall|c: ChunkCoord| #[trigger] gone.contains(c) <==> self.orphaned(p, c)
        &&& next == HubState {
            peers: self.peers.remove(p),
            users: self.users.remove(p),
            subs: if self.peers.contains_key(p) {
                self.subs_without(p, self.peers[p])
            } else {
                self.subs
            },
            pending: self.pending + gone,
            ..self
        }
    }
}

/// Where a peer's list of new subscriptions has led so far.
#[verifier::ext_equal]
pub struct Subscribing {
    pub state: HubState,
    /// Whether the peer asked for more chunks than it may have.
    pub full: bool,
    /// Chunks that had no subscriber before.
    pub fresh: Seq<ChunkCoord>,
    /// Chunks that the peer was not subscribed to before.
    pub taken: Seq<ChunkCoord>,
}

/// Where a peer's list of ended subscriptions has led so far.
#[verifier::ext_equal]
pub struct Unsubscribing {
    pub state: HubState,
    /// Chunks that have no subscriber any more.
    pub gone: Seq<ChunkCoord>,
}

impl HubState {
    /// The peers that are subscribed to `c`.
    pub open spec fn subscribers(self, c: ChunkCoord) -> Set<PeerId> {
        if self.subs.contains_key(c) {
            self.subs[c]
        } else {
            Set::empty()
        }
    }

    /// The state with `p` subscribed to `c`.
    pub open spec fn with_sub(self, p: PeerId, c: ChunkCoord) -> HubState {
        HubState {
            peers: self.peers.insert(p, self.peers[p].insert(c)),
            subs: self.subs.insert(c, self.subscribers(c).insert(p)),
            last_seen: self.last_seen.insert(c, self.latest_tick),
            ..self
        }
    }

    /// What becomes of a peer's wish to subscribe to `coords`, one after the other: a chunk that
    /// it is subscribed to is passed over, and where it has as many as it may have, that is it.
    pub open spec fn subscribing(self, p: PeerId, coords: Seq<ChunkCoord>) -> Subscribing
        decreases coords.len(),
    {
        if coords.len() == 0 {
            Subscribing { state: self, full: false, fresh: Seq::empty(), taken: Seq::empty() }
        } else {
            let s = self.subscribing(p, coords.drop_last());
            let c = coords.last();
            if s.full || s.state.peers[p].contains(c) {
                s
            } else if s.state.peers[p].len() >= self.client_max_chunks {
                Subscribing { full: true, ..s }
            } else {
                Subscribing {
                    state: s.state.with_sub(p, c),
                    full: false,
                    fresh: if s.state.subscribers(c).is_empty() {
                        s.fresh.push(c)
                    } else {
                        s.fresh
                    },
                    taken: s.taken.push(c),
                }
            }
        }
    }

    /// The state with `p` not subscribed to `c`.
    pub open spec fn without_sub(self, p: PeerId, c: ChunkCoord) -> HubState {
        HubState {
            peers: self.peers.insert(p, self.peers[p].remove(c)),
            subs: if !self.subs.contains_key(c) {
                self.subs
            } else if self.subs[c].remove(p).is_empty() {
                self.subs.remove(c)
            } else {
                self.subs.insert(c, self.subs[c].remove(p))
            },
            ..self
        }
    }

    /// What becomes of a peer's wish to end its subscriptions to `coords`, one after the other.
    pub open spec fn unsubscribing(self, p: PeerId, coords: Seq<ChunkCoord>) -> Unsubscribing
        decreases coords.len(),
    {
        if coords.len() == 0 {
            Unsubscribing { state: self, gone: Seq::empty() }
        } else {
            let s = self.unsubscribing(p, coords.drop_last());
            let c = coords.last();
            if !s.state.peers[p].contains(c) {
                s
            } else {
                Unsubscribing {
                    state: s.state.without_sub(p, c),
                    gone: if s.state.subs.contains_key(c) && s.state.subs[c].remove(p).is_empty() {
                        s.gone.push(c)
                    } else {
                        s.gone
                    },
                }
            }
        }
    }

    /// Whether a new subscriber is told of chunk `c`: something in it lives or is frozen.
    pub open spec fn worth_telling(self, c: ChunkCoord) -> bool {
        self.mirror.contains_key(c) && (self.mirror[c].live_count > 0
            || self.mirror[c].frozen_mask is Some)
    }

    /// What a new subscriber is told of chunk `c`.
    pub open spec fn chunk_state(self, c: ChunkCoord) -> ServerModel {
        ServerModel::ChunkState {
            cx: c.0,
            cy: c.1,
            tick: self.mirror[c].tick,
            bits: self.mirror[c].bits@,
        }
    }

    /// The user id that peer `p` edits as.
    pub open spec fn editor(self, p: PeerId) -> Option<u32> {
        if self.users.contains_key(p) {
            Some(self.users[p].uid)
        } else {
            None
        }
    }

    /// Whether peer `p` may make the edit `c`.
    pub open spec fn permits(self, p: PeerId, c: EditCell) -> bool {
        region::may_edit(
            self.regions,
            CHUNK_SIZE * c.cx + c.lx,
            CHUNK_SIZE * c.cy + c.ly,
            self.editor(p),
        )
    }
}

/// What the hub does about something that a peer asked.
#[derive(Debug)]
pub struct Reaction {
    /// What is asked of the simulation.
    pub sim: Option<SimCmd>,
    /// What is sent, in this order.
    pub out: Vec<Outgoing>,
    /// Whether the peer was dropped because it asked for too much.
    pub kicked: bool,
}

impl Reaction {
    fn none() -> (r: Reaction)
        ensures
            r.sim is None,
            r.out@.len() == 0,
            !r.kicked,
    {
        Reaction { sim: None, out: Vec::new(), kicked: false }
    }
}

/// The views of a list of outgoing messages.
pub open spec fn sent(out: Seq<Outgoing>) -> Seq<OutgoingModel> {
    out.map_values(|o: Outgoing| o@)
}

/// Each message is for every peer at most once.
pub open spec fn once_each(out: Seq<Outgoing>) -> bool {
    forall|i: int| 0 <= i < out.len() ==> (#[trigger] out[i]).to@.no_duplicates()
}

/// A message for one peer.
fn to_peer(p: PeerId, msg: ServerMsg) -> (o: Outgoing)
    ensures
        o@ == (OutgoingModel { msg: msg@, to: set![p] }),
        o.to@.no_duplicates(),
{
    let mut to: Vec<PeerId> = Vec::new();
    to.push(p);
    proof {
        assert(to@.to_set() =~= set![p]) by {
            assert(to@[0] == p);
        }
    }
    Outgoing { msg, to }
}

impl Hub {
    /// Whether the claims have an extent that can be counted and chunks that have coordinates.
    pub closed spec fn wf(&self) -> bool {
        self.claim_mgr.wf() && self.claim_mgr.in_range()
    }

    /// Forget a peer, and whatever it was subscribed to.
    pub fn drop_peer(&mut self, peer_id: PeerId)
        requires
            old(self).wf(),
        ensures
            final(self).wf(),
            exists|gone: Seq<ChunkCoord>| old(self)@.drops(peer_id, gone, final(self)@),
    {
        let ghost w = self@;
        let ghost p = peer_id;
        let ghost mut gone: Seq<ChunkCoord> = Seq::empty();
        match self.peers.remove(&peer_id) {
            Some(set) => {
                let coords = set.keys();
                let ghost mine = set@.dom();
                let mut i: usize = 0;
                proof {
                    assert(w.peers[p] == mine);
                    assert(self@.peers =~= w.peers.remove(p));
                    assert(self@.subs =~= w.subs_without(p, coords@.take(0).to_set()));
                    assert(self@ =~= HubState {
                        peers: w.peers.remove(p),
                        subs: w.subs_without(p, coords@.take(0).to_set()),
                        pending: w.pending + gone,
                        ..w
                    });
                }
                while i < coords.len()
                    invariant
                        i <= coords.len(),
                        self.wf(),
                        coords@.no_duplicates(),
                        coords@.to_set() == mine,
                        w.peers.contains_key(p),
                        w.peers[p] == mine,
                        p == peer_id,
                        gone.no_duplicates(),
                        forall|c: ChunkCoord| #[trigger]
                            gone.contains(c) <==> coords@.take(i as int).contains(c) && w.orphaned(
                                p,
                                c,
                            ),
                        self@ == (HubState {
                            peers: w.peers.remove(p),
                            subs: w.subs_without(p, coords@.take(i as int).to_set()),
                            pending: w.pending + gone,
                            ..w
                        }),
                    decreases coords.len() - i,
                {
                    let c = coords[i];
                    let ghost done = coords@.take(i as int);
                    let ghost before = self@;
                    let ghost gone0 = gone;
                    proof {
                        assert(coords@.take(i + 1) =~= done.push(c));
                        sort::lemma_push_contains(done, c);
                        assert(!done.contains(c));
                        assert(coords@.to_set().contains(c));
                        assert(!done.to_set().contains(c));
                        assert(before.subs.contains_key(c) == w.subs.contains_key(c));
                        assert(w.subs.contains_key(c) ==> before.subs[c] == w.subs[c]);
                    }
                    let mut empty = false;
                    if let Some(subs) = self.chunk_subs.get_mut(&c) {
                        assert(subs@ == before.subs[c]);
                        subs.remove(&peer_id);
                        empty = subs.is_empty();
                        assert(empty == w.subs[c].remove(p).is_empty());
                    }
                    assert(empty == (w.subs.contains_key(c) && w.subs[c].remove(p).is_empty()));
                    if empty {
                        self.chunk_subs.remove(&c);
                        self.pending_sim_unsub.push(c);
                        proof {
                            gone = gone.push(c);
                            assert(w.orphaned(p, c)) by {
                                assert forall|q: PeerId| #[trigger] w.subs[c].contains(q) implies q
                                    == p by {
                                    if q != p {
                                        assert(w.subs[c].remove(p).contains(q));
                                        assert(w.subs[c].remove(p) =~= Set::<PeerId>::empty());
                                    }
                                }
                            }
                            sort::lemma_push_contains(gone0, c);
                            sort::lemma_push_distinct(gone0, c);
                        }
                    } else {
                        assert(!w.orphaned(p, c)) by {
                            if w.orphaned(p, c) {
                                assert(w.subs[c].remove(p) =~= Set::<PeerId>::empty());
                            }
                        }
                    }
                    proof {
                        let next = w.subs_without(p, coords@.take(i + 1).to_set());
                        assert forall|d: ChunkCoord| #[trigger] self@.subs.dom().contains(d)
                            == next.dom().contains(d) by {
                            assert(before.subs.dom().contains(d) == w.subs_without(
                                p,
                                done.to_set(),
                            ).dom().contains(d));
                        }
                        assert forall|d: ChunkCoord| next.dom().contains(d) implies
                            #[trigger] self@.subs[d] == next[d] by {
                            assert(before.subs.contains_key(d));
                            assert(before.subs[d] == w.subs_without(p, done.to_set())[d]);
                            if d != c {
                                assert(self@.subs[d] == before.subs[d]);
                                assert(done.push(c).to_set().contains(d) == done.to_set().contains(
                                    d,
                                ));
                            } else {
                                assert(done.push(c).to_set().contains(c));
                                assert(self@.subs[c] =~= w.subs[c].remove(p));
                            }
                        }
                        assert(self@.subs =~= next);
                        assert(self@.pending =~= w.pending + gone);
                        assert(self@ =~= HubState {
                            peers: w.peers.remove(p),
                            subs: next,
                            pending: w.pending + gone,
                            ..w
                        });
                    }
                    i = i + 1;
                }
                proof {
                    assert(coords@.take(i as int) =~= coords@);
                    assert forall|c: ChunkCoord| #[trigger] gone.contains(c) <==> w.orphaned(
                        p,
                        c,
                    ) by {
                        assert(coords@.to_set().contains(c) <==> mine.contains(c));
                    }
                }
            },
            None => {
                assert(self@.peers =~= w.peers.remove(p));
            },
        }
        let ghost before = self@;
        self.peer_user.remove(&peer_id);
        proof {
            assert(self@ =~= HubState { users: w.users.remove(p), ..before });
            assert(w.pending + Seq::<ChunkCoord>::empty() =~= w.pending);
            assert(w.drops(p, gone, self@));
        }
    }

    /// Subscribe a peer to chunks. A peer that asks for more than it may have is dropped.
    fn subscribe(&mut self, peer_id: PeerId, coords: &Vec<ChunkCoord>) -> (r: Reaction)
        requires
            old(self).wf(),
            old(self)@.peers.contains_key(peer_id),
        ensures
            final(self).wf(),
            ({
                let s = old(self)@.subscribing(peer_id, coords@);
                let told = s.taken.filter(|c: ChunkCoord| old(self)@.worth_telling(c));
                &&& r.kicked == s.full
                &&& once_each(r.out@)
                &&& if s.full {
                    &&& r.sim is None
                    &&& r.out@.len() == 0
                    &&& exists|gone: Seq<ChunkCoord>| s.state.drops(peer_id, gone, final(self)@)
                } else {
                    &&& final(self)@ == s.state
                    &&& match r.sim {
                        Some(SimCmd::Subscribe(v)) => v@ == s.fresh && s.fresh.len() > 0,
                        None => s.fresh.len() == 0,
                        _ => false,
                    }
                    &&& sent(r.out@) == told.map_values(
                        |c: ChunkCoord|
                            OutgoingModel { msg: old(self)@.chunk_state(c), to: set![peer_id] },
                    )
                }
            }),
    {
        let ghost w = self@;
        let ghost f = |c: ChunkCoord| w.worth_telling(c);
        let ghost g = |c: ChunkCoord|
            OutgoingModel { msg: w.chunk_state(c), to: set![peer_id] };
        let mut set = match self.peers.remove(&peer_id) {
            Some(s) => s,
            None => CoordMap::new(),
        };
        let now = self.latest_tick;
        let cap = self.client_max_chunks as usize;
        let mut fresh: Vec<ChunkCoord> = Vec::new();
        let mut out: Vec<Outgoing> = Vec::new();
        let ghost mut taken: Seq<ChunkCoord> = Seq::empty();
        let mut full = false;
        let mut i: usize = 0;
        proof {
            assert(self@.peers.insert(peer_id, set@.dom()) =~= w.peers);
            assert(coords@.take(0) =~= Seq::<ChunkCoord>::empty());
            assert(w.subscribing(peer_id, coords@.take(0)).state == w);
            assert(taken.filter(f) =~= Seq::<ChunkCoord>::empty()) by {
                reveal_with_fuel(Seq::filter, 1);
            }
            assert(sent(out@) =~= taken.filter(f).map_values(g));
            assert((HubState {
                peers: self@.peers.insert(peer_id, set@.dom()),
                ..self@
            }) =~= w);
        }
        while i < coords.len() && !full
            invariant
                i <= coords.len(),
                self.wf(),
                now == w.latest_tick,
                self@.latest_tick == w.latest_tick,
                cap == w.client_max_chunks,
                f == (|c: ChunkCoord| w.worth_telling(c)),
                g == (|c: ChunkCoord|
                    OutgoingModel { msg: w.chunk_state(c), to: set![peer_id] }),
                self@.mirror == w.mirror,
                once_each(out@),
                sent(out@) == taken.filter(f).map_values(g),
                w.subscribing(peer_id, coords@.take(i as int)) == (Subscribing {
                    state: HubState {
                        peers: self@.peers.insert(peer_id, set@.dom()),
                        ..self@
                    },
                    full,
                    fresh: fresh@,
                    taken,
                }),
            decreases coords.len() - i,
        {
            let c = coords[i];
            let ghost before = self@;
            let ghost st = w.subscribing(peer_id, coords@.take(i as int));
            proof {
                assert(coords@.take(i + 1).drop_last() =~= coords@.take(i as int));
                assert(coords@.take(i + 1).last() == c);
                assert(st.state.peers[peer_id] == set@.dom());
                assert(st.state.subs == self@.subs);
            }
            if set.contains_key(&c) {
            } else if set.len() >= cap {
                full = true;
            } else {
                let ghost set0 = set@;
                let ghost taken0 = taken;
                let ghost out0 = out@;
                set.insert(c, ());
                let entry = self.chunk_subs.slot(c, HashSet::new());
                let was_zero = entry.is_empty();
                entry.insert(peer_id);
                if was_zero {
                    fresh.push(c);
                }
                self.last_seen_tick.insert(c, now);
                proof {
                    taken = taken.push(c);
                    taken0.lemma_filter_push(c, f);
                    assert(set@.dom() =~= set0.dom().insert(c));
                    assert(self@.subs =~= before.subs.insert(
                        c,
                        st.state.subscribers(c).insert(peer_id),
                    ));
                    assert(self@.peers.insert(peer_id, set@.dom()) =~= st.state.peers.insert(
                        peer_id,
                        st.state.peers[peer_id].insert(c),
                    ));
                    assert((HubState {
                        peers: self@.peers.insert(peer_id, set@.dom()),
                        ..self@
                    }) =~= st.state.with_sub(peer_id, c));
                }
                let tell = match self.mirror.get(&c) {
                    Some(m) => {
                        if m.live_count > 0 || m.frozen_mask.is_some() {
                            Some(
                                ServerMsg::ChunkState {
                                    cx: c.0,
                                    cy: c.1,
                                    tick: m.tick,
                                    bits: m.bits,
                                },
                            )
                        } else {
                            None
                        }
                    },
                    None => None,
                };
                if let Some(msg) = tell {
                    out.push(to_peer(peer_id, msg));
                    proof {
                        assert(f(c));
                        assert(sent(out@) =~= sent(out0).push(g(c)));
                        assert(taken0.filter(f).push(c).map_values(g) =~= taken0.filter(
                            f,
                        ).map_values(g).push(g(c)));
                    }
                }
            }
            i = i + 1;
        }
        proof {
            if full {
                lemma_full_stays(w, peer_id, coords@, i as int);
            } else {
                assert(coords@.take(i as int) =~= coords@);
            }
        }
        let ghost st = w.subscribing(peer_id, coords@);
        let ghost before = self@;
        self.peers.insert(peer_id, set);
        proof {
            assert(self@.peers =~= before.peers.insert(peer_id, set@.dom()));
            assert(self@ =~= st.state);
        }
        if full {
            self.drop_peer(peer_id);
            let mut r = Reaction::none();
            r.kicked = true;
            return r;
        }
        let sim = if fresh.len() > 0 {
            Some(SimCmd::Subscribe(fresh))
        } else {
            None
        };
        Reaction { sim, out, kicked: false }
    }
}

/// What a peer asks for behind what was too much does not count.
proof fn lemma_full_stays(w: HubState, p: PeerId, coords: Seq<ChunkCoord>, i: int)
    requires
        0 <= i <= coords.len(),
        w.subscribing(p, coords.take(i)).full,
    ensures
        w.subscribing(p, coords) == w.subscribing(p, coords.take(i)),
    decreases coords.len() - i,
{
    if i < coords.len() {
        assert(coords.take(i + 1).drop_last() =~= coords.take(i));
        lemma_full_stays(w, p, coords, i + 1);
    } else {
        assert(coords.take(i) =~= coords);
    }
}

impl Hub {
    /// End subscriptions of a peer.
    fn unsubscribe(&mut self, peer_id: PeerId, coords: &Vec<ChunkCoord>) -> (r: Reaction)
        requires
            old(self).wf(),
            old(self)@.peers.contains_key(peer_id),
        ensures
            final(self).wf(),
            ({
                let s = old(self)@.unsubscribing(peer_id, coords@);
                &&& final(self)@ == s.state
                &&& r.out@.len() == 0
                &&& !r.kicked
                &&& match r.sim {
                    Some(SimCmd::Unsubscribe(v)) => v@ == s.gone && s.gone.len() > 0,
                    None => s.gone.len() == 0,
                    _ => false,
                }
            }),
    {
        let ghost w = self@;
        let mut set = match self.peers.remove(&peer_id) {
            Some(s) => s,
            None => CoordMap::new(),
        };
        let mut gone: Vec<ChunkCoord> = Vec::new();
        let mut i: usize = 0;
        proof {
            assert(self@.peers.insert(peer_id, set@.dom()) =~= w.peers);
            assert(coords@.take(0) =~= Seq::<ChunkCoord>::empty());
            assert((HubState {
                peers: self@.peers.insert(peer_id, set@.dom()),
                ..self@
            }) =~= w);
        }
        while i < coords.len()
            invariant
                i <= coords.len(),
                self.wf(),
                w.unsubscribing(peer_id, coords@.take(i as int)) == (Unsubscribing {
                    state: HubState {
                        peers: self@.peers.insert(peer_id, set@.dom()),
                        ..self@
                    },
                    gone: gone@,
                }),
            decreases coords.len() - i,
        {
            let c = coords[i];
            let ghost before = self@;
            let ghost st = w.unsubscribing(peer_id, coords@.take(i as int));
            let ghost set0 = set@;
            proof {
                assert(coords@.take(i + 1).drop_last() =~= coords@.take(i as int));
                assert(coords@.take(i + 1).last() == c);
                assert(st.state.peers[peer_id] == set@.dom());
                assert(st.state.subs == self@.subs);
            }
            if set.remove(&c).is_some() {
                let mut empty = false;
                if let Some(subs) = self.chunk_subs.get_mut(&c) {
                    assert(subs@ == before.subs[c]);
                    subs.remove(&peer_id);
                    empty = subs.is_empty();
                }
                if empty {
                    self.chunk_subs.remove(&c);
                    gone.push(c);
                }
                proof {
                    assert(set@.dom() =~= set0.dom().remove(c));
                    assert(self@.peers.insert(peer_id, set@.dom()) =~= st.state.peers.insert(
                        peer_id,
                        st.state.peers[peer_id].remove(c),
                    ));
                    assert(self@.subs =~= st.state.without_sub(peer_id, c).subs);
                    assert((HubState {
                        peers: self@.peers.insert(peer_id, set@.dom()),
                        ..self@
                    }) =~= st.state.without_sub(peer_id, c));
                }
            } else {
                assert(set@ =~= set0);
            }
            i = i + 1;
        }
        assert(coords@.take(i as int) =~= coords@);
        let ghost st = w.unsubscribing(peer_id, coords@);
        let ghost before = self@;
        self.peers.insert(peer_id, set);
        proof {
            assert(self@.peers =~= before.peers.insert(peer_id, set@.dom()));
            assert(self@ =~= st.state);
        }
        let sim = if gone.len() > 0 {
            Some(SimCmd::Unsubscribe(gone))
        } else {
            None
        };
        Reaction { sim, out: Vec::new(), kicked: false }
    }

    /// The edits that the peer may make.
    fn permitted(&self, peer_id: PeerId, cells: &Vec<EditCell>) -> (r: Vec<EditCell>)
        ensures
            r@ == cells@.filter(|c: EditCell| self@.permits(peer_id, c)),
    {
        let ghost f = |c: EditCell| self@.permits(peer_id, c);
        let editor = match self.peer_user.get(&peer_id) {
            Some(u) => Some(u.uid),
            None => None,
        };
        let rs: &[Region] = &*self.regions;
        let mut r: Vec<EditCell> = Vec::new();
        let mut i: usize = 0;
        proof {
            assert(cells@.take(0) =~= Seq::<EditCell>::empty());
            assert(cells@.take(0).filter(f) =~= Seq::<EditCell>::empty()) by {
                reveal_with_fuel(Seq::filter, 1);
            }
        }
        while i < cells.len()
            invariant
                i <= cells.len(),
                f == (|c: EditCell| self@.permits(peer_id, c)),
                editor == self@.editor(peer_id),
                rs@ == self@.regions,
                r@ == cells@.take(i as int).filter(f),
            decreases cells.len() - i,
        {
            let c = cells[i];
            proof {
                assert(cells@.take(i + 1) =~= cells@.take(i as int).push(c));
                cells@.take(i as int).lemma_filter_push(c, f);
            }
            let x: i64 = c.cx as i64 * CHUNK_SIZE_I64 + c.lx as i64;
            let y: i64 = c.cy as i64 * CHUNK_SIZE_I64 + c.ly as i64;
            if region::can_edit(rs, x, y, editor) {
                r.push(c);
            }
            i = i + 1;
        }
        assert(cells@.take(i as int) =~= cells@);
        r
    }

    /// React to what a peer says. Claims are asked for in another way.
    pub fn handle_client_msg(&mut self, peer_id: PeerId, msg: &ClientMsg) -> (r: Reaction)
        requires
            old(self).wf(),
        ensures
            final(self).wf(),
            once_each(r.out@),
            old(self)@.reacts(peer_id, msg@, r, final(self)@),
    {
        match msg {
            ClientMsg::Subscribe(coords) => {
                if self.peers.contains_key(&peer_id) {
                    self.subscribe(peer_id, coords)
                } else {
                    let r = Reaction::none();
                    assert(sent(r.out@) =~= Seq::<OutgoingModel>::empty());
                    r
                }
            },
            ClientMsg::Unsubscribe(coords) => {
                if self.peers.contains_key(&peer_id) {
                    self.unsubscribe(peer_id, coords)
                } else {
                    Reaction::none()
                }
            },
            ClientMsg::Edit(cells) => {
                let allowed = self.permitted(peer_id, cells);
                let sim = if allowed.len() > 0 {
                    Some(SimCmd::Edit(allowed))
                } else {
                    None
                };
                Reaction { sim, out: Vec::new(), kicked: false }
            },
            ClientMsg::ClaimCreate(_) => Reaction::none(),
            ClientMsg::ClaimDelete => Reaction::none(),
        }
    }
}

impl HubState {
    /// `r` is what the hub does about message `m` of peer `p`, and `next` the state after it.
    pub open spec fn reacts(
        self,
        p: PeerId,
        m: ClientModel,
        r: Reaction,
        next: HubState,
    ) -> bool {
        match m {
            ClientModel::Subscribe(coords) => {
                let s = self.subscribing(p, coords);
                let told = s.taken.filter(|c: ChunkCoord| self.worth_telling(c));
                if !self.peers.contains_key(p) {
                    next == self && r.sim is None && r.out@.len() == 0 && !r.kicked
                } else if s.full {
                    &&& r.kicked
                    &&& r.sim is None
                    &&& r.out@.len() == 0
                    &&& exists|gone: Seq<ChunkCoord>| s.state.drops(p, gone, next)
                } else {
                    &&& !r.kicked
                    &&& next == s.state
                    &&& match r.sim {
                        Some(SimCmd::Subscribe(v)) => v@ == s.fresh && s.fresh.len() > 0,
                        None => s.fresh.len() == 0,
                        _ => false,
                    }
                    &&& sent(r.out@) == told.map_values(
                        |c: ChunkCoord| OutgoingModel { msg: self.chunk_state(c), to: set![p] },
                    )
                }
            },
            ClientModel::Unsubscribe(coords) => {
                let s = self.unsubscribing(p, coords);
                &&& !r.kicked
                &&& r.out@.len() == 0
                &&& if !self.peers.contains_key(p) {
                    next == self && r.sim is None
                } else {
                    &&& next == s.state
                    &&& match r.sim {
                        Some(SimCmd::Unsubscribe(v)) => v@ == s.gone && s.gone.len() > 0,
                        None => s.gone.len() == 0,
                        _ => false,
                    }
                }
            },
            ClientModel::Edit(cells) => {
                let allowed = cells.filter(|c: EditCell| self.permits(p, c));
                &&& !r.kicked
                &&& next == self
                &&& r.out@.len() == 0
                &&& match r.sim {
                    Some(SimCmd::Edit(v)) => v@ == allowed && allowed.len() > 0,
                    None => allowed.len() == 0,
                    _ => false,
                }
            },
            _ => next == self && r.sim is None && r.out@.len() == 0 && !r.kicked,
        }
    }
}

/// The chunk that a bitset holds.
pub open spec fn chunk_of_bits(bits: Seq<u8>) -> Chunk {
    Chunk { rows: protocol::rows_from(bits), frozen: None }
}

/// True if any cell in the top row, bottom row, left column, or right column is alive.
/// Chunks with live boundary cells interact with their neighbors across chunk edges;
/// clients cannot simulate these correctly without external neighbor data, so the
/// server must send authoritative `ChunkDelta`s for them.
pub fn has_live_boundary(bits: &[u8; BITS_BYTES]) -> (b: bool)
    ensures
        b == !world::sealed(chunk_of_bits(bits@)),
{
    let c = Chunk::from_rows_and_frozen(protocol::bits_to_rows(bits), None);
    let e = c.edges();
    proof {
        world::lemma_sealed(c, e);
    }
    !e.is_zero()
}

fn copy_mask(m: &Option<Box<[u8; BITS_BYTES]>>) -> (r: Option<Box<[u8; BITS_BYTES]>>)
    ensures
        r == *m,
{
    match m {
        Some(b) => Some(Box::new(**b)),
        None => None,
    }
}

/// The members of a set of peers, each once.
fn members(set: &HashSet<PeerId>) -> (r: Vec<PeerId>)
    ensures
        r@.no_duplicates(),
        r@.to_set() == set@,
{
    let mut r: Vec<PeerId> = Vec::new();
    for p in it: set.iter()
        invariant
            it.seq().unref().to_set() == set@,
            it.seq().no_duplicates(),
            r@ =~= it.seq().unref().take(it.index() as int),
    {
        r.push(*p);
    }
    proof {
        let ks = vstd::std_specs::iter::IteratorSpec::remaining(
            &vstd::std_specs::hash::spec_hash_keys_iter(set),
        );
        assert(r@ =~= ks.unref());
        assert forall|i: int, j: int|
            0 <= i < r@.len() && 0 <= j < r@.len() && i != j implies r@[i] != r@[j] by {
            assert(ks[i] != ks[j]);
        }
    }
    r
}

impl HubState {
    /// What the mirror knows of a chunk that the simulation told of.
    pub open spec fn entry_of(s: ChunkSnap, tick: u64) -> MirrorEntry {
        MirrorEntry {
            bits: s.bits,
            frozen_mask: s.frozen_mask,
            live_count: s.live_count,
            tick,
        }
    }

    /// The mirror with all chunks that the simulation told of.
    pub open spec fn mirrored(
        m: Map<ChunkCoord, MirrorEntry>,
        snaps: Seq<ChunkSnap>,
        tick: u64,
    ) -> Map<ChunkCoord, MirrorEntry>
        decreases snaps.len(),
    {
        if snaps.len() == 0 {
            m
        } else {
            Self::mirrored(m, snaps.drop_last(), tick).insert(
                snaps.last().coord,
                Self::entry_of(snaps.last(), tick),
            )
        }
    }

    /// When chunks were last seen, where all that have subscribers are seen now.
    pub open spec fn seen_now(self, now: u64) -> Map<ChunkCoord, u64> {
        Map::new(
            |c: ChunkCoord| self.last_seen.contains_key(c) || self.subs.contains_key(c),
            |c: ChunkCoord|
                if self.subs.contains_key(c) {
                    now
                } else {
                    self.last_seen[c]
                },
        )
    }

    /// The state after what the simulation told.
    pub open spec fn after_event(self, ev: SimEvent) -> HubState {
        let seen = if ev.is_tick {
            self.seen_now(ev.tick)
        } else {
            self.last_seen
        };
        HubState {
            latest_tick: ev.tick,
            last_seen: seen.remove_keys(ev.removed@.to_set()),
            mirror: Self::mirrored(
                self.mirror.remove_keys(ev.removed@.to_set()),
                ev.changed@,
                ev.tick,
            ),
            ..self
        }
    }

    /// Whether the subscribers of a changed chunk are told: clients cannot foresee what crosses
    /// its sides, nor what is kept from crossing into a claimed chunk.
    pub open spec fn tells_delta(self, ev: SimEvent, s: ChunkSnap) -> bool {
        &&& !ev.initial
        &&& !world::sealed(chunk_of_bits(s.bits@)) || self.owned.contains(s.coord)
        &&& !self.subscribers(s.coord).is_empty()
    }

    pub open spec fn delta_of(self, ev: SimEvent, s: ChunkSnap) -> OutgoingModel {
        OutgoingModel {
            msg: ServerModel::ChunkDelta {
                cx: s.coord.0,
                cy: s.coord.1,
                tick: ev.tick,
                bits: s.bits@,
            },
            to: self.subs[s.coord],
        }
    }

    pub open spec fn edit_of(self, e: (ChunkCoord, Vec<EditCell>)) -> OutgoingModel {
        OutgoingModel {
            msg: ServerModel::EditApplied { cx: e.0.0, cy: e.0.1, cells: e.1@ },
            to: self.subs[e.0],
        }
    }

    pub open spec fn reaped(self, c: ChunkCoord) -> OutgoingModel {
        OutgoingModel { msg: ServerModel::Reaped { cx: c.0, cy: c.1 }, to: self.peers.dom() }
    }

    /// What is sent about what the simulation told: chunks that are gone, to all; changes, to the
    /// subscribers of each chunk; edits, to the subscribers of each chunk; and on a tick, last,
    /// that it was made, to all. Of the first dump nothing but what is gone is sent.
    pub open spec fn fanout(self, ev: SimEvent) -> Seq<OutgoingModel> {
        ev.removed@.map_values(|c: ChunkCoord| self.reaped(c)) + ev.changed@.filter(
            |s: ChunkSnap| self.tells_delta(ev, s),
        ).map_values(|s: ChunkSnap| self.delta_of(ev, s)) + (if ev.initial {
            Seq::empty()
        } else {
            ev.edits@.filter(
                |e: (ChunkCoord, Vec<EditCell>)| !self.subscribers(e.0).is_empty(),
            ).map_values(|e: (ChunkCoord, Vec<EditCell>)| self.edit_of(e)) + (if ev.is_tick {
                seq![
                    OutgoingModel {
                        msg: ServerModel::Sync { tick: ev.tick },
                        to: self.peers.dom(),
                    },
                ]
            } else {
                Seq::empty()
            })
        })
    }
}

impl Hub {
    /// All peers, each once.
    pub fn peer_ids(&self) -> (r: Vec<PeerId>)
        ensures
            r@.no_duplicates(),
            r@.to_set() == self@.peers.dom(),
    {
        let mut r: Vec<PeerId> = Vec::new();
        for p in it: self.peers.keys()
            invariant
                it.seq().unref().to_set() == self.peers@.dom(),
                it.seq().no_duplicates(),
                r@ =~= it.seq().unref().take(it.index() as int),
        {
            r.push(*p);
        }
        proof {
            let ks = vstd::std_specs::iter::IteratorSpec::remaining(
                &vstd::std_specs::hash::spec_keys_iter(&self.peers),
            );
            assert(r@ =~= ks.unref());
            assert forall|i: int, j: int|
                0 <= i < r@.len() && 0 <= j < r@.len() && i != j implies r@[i] != r@[j] by {
                assert(ks[i] != ks[j]);
            }
            assert(self@.peers.dom() =~= self.peers@.dom());
        }
        r
    }

    /// A message for all peers.
    fn to_all(&self, msg: ServerMsg) -> (o: Outgoing)
        ensures
            o@ == (OutgoingModel { msg: msg@, to: self@.peers.dom() }),
            o.to@.no_duplicates(),
    {
        Outgoing { msg, to: self.peer_ids() }
    }

    /// The subscribers of a chunk, each once.
    fn subscribers_of(&self, c: &ChunkCoord) -> (r: Vec<PeerId>)
        ensures
            r@.no_duplicates(),
            r@.to_set() == self@.subscribers(*c),
            (r@.len() == 0) == self@.subscribers(*c).is_empty(),
    {
        let r = match self.chunk_subs.get(c) {
            Some(s) => members(s),
            None => {
                let v: Vec<PeerId> = Vec::new();
                assert(v@.to_set() =~= Set::<PeerId>::empty());
                v
            },
        };
        proof {
            if r@.len() == 0 {
                assert(r@.to_set() =~= Set::<PeerId>::empty());
            } else {
                assert(r@.to_set().contains(r@[0]));
            }
        }
        r
    }

    /// Note that all chunks that have subscribers are seen at tick `now`.
    fn see_all(&mut self, now: u64)
        requires
            old(self).wf(),
        ensures
            final(self).wf(),
            final(self)@ == (HubState { last_seen: old(self)@.seen_now(now), ..old(self)@ }),
    {
        let ghost w = self@;
        let coords = self.chunk_subs.keys();
        let mut i: usize = 0;
        proof {
            assert forall|c: ChunkCoord| #[trigger] coords@.contains(c) <==> w.subs.contains_key(
                c,
            ) by {
                assert(coords@.to_set().contains(c) <==> self.chunk_subs@.dom().contains(c));
            }
        }
        while i < coords.len()
            invariant
                i <= coords.len(),
                self.wf(),
                forall|c: ChunkCoord| #[trigger] coords@.contains(c) <==> w.subs.contains_key(c),
                self@ == (HubState { last_seen: self@.last_seen, ..w }),
                forall|c: ChunkCoord| #[trigger]
                    self@.last_seen.contains_key(c) <==> w.last_seen.contains_key(c)
                        || coords@.take(i as int).contains(c),
                forall|c: ChunkCoord| #[trigger]
                    self@.last_seen.contains_key(c) ==> self@.last_seen[c] == (if coords@.take(
                        i as int,
                    ).contains(c) {
                        now
                    } else {
                        w.last_seen[c]
                    }),
            decreases coords.len() - i,
        {
            let c = coords[i];
            proof {
                assert(coords@.take(i + 1) =~= coords@.take(i as int).push(c));
                sort::lemma_push_contains(coords@.take(i as int), c);
            }
            self.last_seen_tick.insert(c, now);
            i = i + 1;
        }
        proof {
            assert(coords@.take(i as int) =~= coords@);
            assert(self@.last_seen =~= w.seen_now(now));
        }
    }

    /// Forget the chunks in `gone`, and tell all peers.
    fn forget_chunks(&mut self, gone: &Vec<ChunkCoord>, out: &mut Vec<Outgoing>)
        requires
            old(self).wf(),
            once_each(old(out)@),
        ensures
            final(self).wf(),
            final(self)@ == (HubState {
                mirror: old(self)@.mirror.remove_keys(gone@.to_set()),
                last_seen: old(self)@.last_seen.remove_keys(gone@.to_set()),
                ..old(self)@
            }),
            once_each(final(out)@),
            sent(final(out)@) == sent(old(out)@) + gone@.map_values(
                |c: ChunkCoord| old(self)@.reaped(c),
            ),
    {
        let ghost w = self@;
        let ghost out0 = out@;
        let ghost f = |c: ChunkCoord| w.reaped(c);
        let mut i: usize = 0;
        proof {
            assert(gone@.take(0).to_set() =~= Set::<ChunkCoord>::empty());
            assert(w.mirror.remove_keys(gone@.take(0).to_set()) =~= w.mirror);
            assert(w.last_seen.remove_keys(gone@.take(0).to_set()) =~= w.last_seen);
            assert(sent(out@) =~= sent(out0) + gone@.take(0).map_values(f));
        }
        while i < gone.len()
            invariant
                i <= gone.len(),
                self.wf(),
                f == (|c: ChunkCoord| w.reaped(c)),
                self@ == (HubState {
                    mirror: w.mirror.remove_keys(gone@.take(i as int).to_set()),
                    last_seen: w.last_seen.remove_keys(gone@.take(i as int).to_set()),
                    ..w
                }),
                once_each(out@),
                sent(out@) == sent(out0) + gone@.take(i as int).map_values(f),
            decreases gone.len() - i,
        {
            let c = gone[i];
            let ghost before = out@;
            proof {
                assert(gone@.take(i + 1) =~= gone@.take(i as int).push(c));
                sort::lemma_push_contains(gone@.take(i as int), c);
                assert forall|d: ChunkCoord| #[trigger] gone@.take(i + 1).to_set().contains(d)
                    == (gone@.take(i as int).to_set().contains(d) || d == c) by {}
            }
            self.mirror.remove(&c);
            self.last_seen_tick.remove(&c);
            proof {
                assert(self@.mirror =~= w.mirror.remove_keys(gone@.take(i + 1).to_set()));
                assert(self@.last_seen =~= w.last_seen.remove_keys(gone@.take(i + 1).to_set()));
            }
            let o = self.to_all(ServerMsg::Reaped { cx: c.0, cy: c.1 });
            assert(o@ == w.reaped(c));
            out.push(o);
            proof {
                assert(sent(out@) =~= sent(before).push(w.reaped(c)));
                assert(gone@.take(i + 1).map_values(f) =~= gone@.take(i as int).map_values(f).push(
                    f(c),
                ));
                assert(sent(out@) =~= sent(out0) + gone@.take(i + 1).map_values(f));
            }
            i = i + 1;
        }
        assert(gone@.take(i as int) =~= gone@);
    }

    /// Bring the mirror up to date, and tell subscribers what they cannot foresee.
    fn mirror_changes(&mut self, ev: &SimEvent, out: &mut Vec<Outgoing>)
        requires
            old(self).wf(),
            once_each(old(out)@),
        ensures
            final(self).wf(),
            final(self)@ == (HubState {
                mirror: HubState::mirrored(old(self)@.mirror, ev.changed@, ev.tick),
                ..old(self)@
            }),
            once_each(final(out)@),
            sent(final(out)@) == sent(old(out)@) + ev.changed@.filter(
                |s: ChunkSnap| old(self)@.tells_delta(*ev, s),
            ).map_values(|s: ChunkSnap| old(self)@.delta_of(*ev, s)),
    {
        let ghost w = self@;
        let ghost out0 = out@;
        let ghost f = |s: ChunkSnap| w.tells_delta(*ev, s);
        let ghost g = |s: ChunkSnap| w.delta_of(*ev, s);
        let ghost all = ev.changed@;
        let mut i: usize = 0;
        proof {
            assert(all.take(0) =~= Seq::<ChunkSnap>::empty());
            assert(all.take(0).filter(f) =~= Seq::<ChunkSnap>::empty()) by {
                reveal_with_fuel(Seq::filter, 1);
            }
            assert(sent(out@) =~= sent(out0) + all.take(0).filter(f).map_values(g));
        }
        while i < ev.changed.len()
            invariant
                i <= ev.changed.len(),
                self.wf(),
                all == ev.changed@,
                f == (|s: ChunkSnap| w.tells_delta(*ev, s)),
                g == (|s: ChunkSnap| w.delta_of(*ev, s)),
                self@ == (HubState {
                    mirror: HubState::mirrored(w.mirror, all.take(i as int), ev.tick),
                    ..w
                }),
                once_each(out@),
                sent(out@) == sent(out0) + all.take(i as int).filter(f).map_values(g),
            decreases ev.changed.len() - i,
        {
            let s = &ev.changed[i];
            let ghost before = out@;
            proof {
                assert(all.take(i + 1) =~= all.take(i as int).push(*s));
                assert(all.take(i + 1).drop_last() =~= all.take(i as int));
                assert(all.take(i + 1).last() == *s);
                all.take(i as int).lemma_filter_push(*s, f);
            }
            self.mirror.insert(
                s.coord,
                MirrorEntry {
                    bits: s.bits,
                    frozen_mask: copy_mask(&s.frozen_mask),
                    live_count: s.live_count,
                    tick: ev.tick,
                },
            );
            assert(self@ =~= HubState {
                mirror: HubState::mirrored(w.mirror, all.take(i + 1), ev.tick),
                ..w
            });
            if !ev.initial && (has_live_boundary(&s.bits) || self.owned_chunk_set.contains_key(
                &s.coord,
            )) {
                let to = self.subscribers_of(&s.coord);
                if to.len() > 0 {
                    let msg = ServerMsg::ChunkDelta {
                        cx: s.coord.0,
                        cy: s.coord.1,
                        tick: ev.tick,
                        bits: s.bits,
                    };
                    out.push(Outgoing { msg, to });
                    proof {
                        assert(f(*s));
                        assert(sent(out@) =~= sent(before).push(g(*s)));
                        assert(all.take(i as int).filter(f).push(*s).map_values(g) =~= all.take(
                            i as int,
                        ).filter(f).map_values(g).push(g(*s)));
                        assert(sent(out@) =~= sent(out0) + all.take(i + 1).filter(f).map_values(g));
                    }
                }
            }
            i = i + 1;
        }
        assert(all.take(i as int) =~= all);
    }

    /// Tell subscribers of edits.
    fn tell_edits(&self, ev: &SimEvent, out: &mut Vec<Outgoing>)
        requires
            once_each(old(out)@),
        ensures
            once_each(final(out)@),
            sent(final(out)@) == sent(old(out)@) + ev.edits@.filter(
                |e: (ChunkCoord, Vec<EditCell>)| !self@.subscribers(e.0).is_empty(),
            ).map_values(|e: (ChunkCoord, Vec<EditCell>)| self@.edit_of(e)),
    {
        let ghost w = self@;
        let ghost out0 = out@;
        let ghost f = |e: (ChunkCoord, Vec<EditCell>)| !w.subscribers(e.0).is_empty();
        let ghost g = |e: (ChunkCoord, Vec<EditCell>)| w.edit_of(e);
        let ghost all = ev.edits@;
        let mut i: usize = 0;
        proof {
            assert(all.take(0) =~= Seq::<(ChunkCoord, Vec<EditCell>)>::empty());
            assert(all.take(0).filter(f) =~= Seq::<(ChunkCoord, Vec<EditCell>)>::empty()) by {
                reveal_with_fuel(Seq::filter, 1);
            }
            assert(sent(out@) =~= sent(out0) + all.take(0).filter(f).map_values(g));
        }
        while i < ev.edits.len()
            invariant
                i <= ev.edits.len(),
                all == ev.edits@,
                w == self@,
                f == (|e: (ChunkCoord, Vec<EditCell>)| !w.subscribers(e.0).is_empty()),
                g == (|e: (ChunkCoord, Vec<EditCell>)| w.edit_of(e)),
                once_each(out@),
                sent(out@) == sent(out0) + all.take(i as int).filter(f).map_values(g),
            decreases ev.edits.len() - i,
        {
            let e = &ev.edits[i];
            let ghost before = out@;
            proof {
                assert(all.take(i + 1) =~= all.take(i as int).push(*e));
                all.take(i as int).lemma_filter_push(*e, f);
            }
            let to = self.subscribers_of(&e.0);
            if to.len() > 0 {
                let msg = ServerMsg::EditApplied { cx: e.0.0, cy: e.0.1, cells: shared::copied(&e.1) };
                out.push(Outgoing { msg, to });
                proof {
                    assert(f(*e));
                    assert(sent(out@) =~= sent(before).push(g(*e)));
                    assert(all.take(i as int).filter(f).push(*e).map_values(g) =~= all.take(
                        i as int,
                    ).filter(f).map_values(g).push(g(*e)));
                    assert(sent(out@) =~= sent(out0) + all.take(i + 1).filter(f).map_values(g));
                }
            }
            i = i + 1;
        }
        assert(all.take(i as int) =~= all);
    }

    /// Take in what the simulation told. Returns what is sent, in this order.
    pub fn handle_sim_event(&mut self, ev: &SimEvent) -> (out: Vec<Outgoing>)
        requires
            old(self).wf(),
        ensures
            final(self).wf(),
            final(self)@ == old(self)@.after_event(*ev),
            once_each(out@),
            sent(out@) == old(self)@.fanout(*ev),
    {
        let ghost w = self@;
        let mut out: Vec<Outgoing> = Vec::new();
        self.latest_tick = ev.tick;
        assert(self@ =~= HubState { latest_tick: ev.tick, ..w });
        if ev.is_tick {
            self.see_all(ev.tick);
        }
        let ghost w1 = self@;
        self.forget_chunks(&ev.removed, &mut out);
        let ghost out1 = sent(out@);
        let ghost w2 = self@;
        self.mirror_changes(ev, &mut out);
        let ghost out2 = sent(out@);
        let ghost w3 = self@;
        if !ev.initial {
            self.tell_edits(ev, &mut out);
            if ev.is_tick {
                let ghost before = out@;
                let o = self.to_all(ServerMsg::Sync { tick: ev.tick });
                out.push(o);
                assert(sent(out@) =~= sent(before).push(o@));
            }
        }
        proof {
            assert(self@ =~= w.after_event(*ev));
            let f = |c: ChunkCoord| w.reaped(c);
            assert((|c: ChunkCoord| w1.reaped(c)) =~= f);
            assert(out1 =~= ev.removed@.map_values(f));
            assert((|s: ChunkSnap| w2.tells_delta(*ev, s)) =~= (|s: ChunkSnap|
                w.tells_delta(*ev, s)));
            assert((|s: ChunkSnap| w2.delta_of(*ev, s)) =~= (|s: ChunkSnap| w.delta_of(*ev, s)));
            assert((|e: (ChunkCoord, Vec<EditCell>)| !w3.subscribers(e.0).is_empty()) =~= (|
                e: (ChunkCoord, Vec<EditCell>),
            | !w.subscribers(e.0).is_empty()));
            assert((|e: (ChunkCoord, Vec<EditCell>)| w3.edit_of(e)) =~= (|
                e: (ChunkCoord, Vec<EditCell>),
            | w.edit_of(e)));
            assert(sent(out@) =~= w.fanout(*ev));
        }
        out
    }
}

impl HubState {
    /// What the reaper knows of the chunks in the mirror.
    pub open spec fn reap_info(self) -> Map<ChunkCoord, ReapInfo> {
        self.mirror.map_values(
            |m: MirrorEntry|
                ReapInfo { live_count: m.live_count, is_frozen: m.frozen_mask is Some },
        )
    }

    /// The chunks that some peer is subscribed to.
    pub open spec fn watched(self) -> Set<ChunkCoord> {
        Set::new(
            |c: ChunkCoord|
                exists|p: PeerId| #[trigger]
                    self.peers.contains_key(p) && self.peers[p].contains(c),
        )
    }

    /// `reaped` are the chunks that are dropped to keep the number of chunks within bounds.
    pub open spec fn reaps(self, reaped: Seq<ChunkCoord>) -> bool {
        if self.mirror.len() <= self.max_live_chunks {
            reaped.len() == 0
        } else {
            reaper::reaps(
                self.reap_info(),
                self.watched(),
                self.last_seen,
                self.latest_tick,
                self.max_live_chunks,
                reaped,
            )
        }
    }

    /// The region list that the claims make.
    pub open spec fn combined(self) -> Seq<Region> {
        claims::all_regions(self.fixed, self.claims, self.claim_w, self.claim_h)
    }

    /// Whether a region stands in the way of a claim of `uid` at `c`.
    pub open spec fn obstructed(self, uid: u32, c: ChunkCoord) -> bool {
        exists|i: int|
            0 <= i < self.regions.len() && claims::obstructs(
                #[trigger] self.regions[i],
                uid,
                c.0,
                c.1,
                self.claim_w,
                self.claim_h,
            )
    }

    /// The state with other claims, and what follows from them.
    pub open spec fn with_claims(self, list: Seq<Claim>) -> HubState {
        HubState {
            claims: list,
            regions: claims::all_regions(self.fixed, list, self.claim_w, self.claim_h),
            owned: Set::new(
                |d: ChunkCoord| claims::covered(list, self.claim_w, self.claim_h, d),
            ),
            ..self
        }
    }

    /// What peer `p` is told of its login.
    pub open spec fn auth_state(self, p: PeerId) -> ServerModel {
        ServerModel::AuthState {
            uid: match self.editor(p) {
                Some(u) => u,
                None => 0,
            },
            claim: match self.editor(p) {
                Some(u) => claims::claim_of(self.claims, u),
                None => None,
            },
            name: Seq::empty(),
            email: Seq::empty(),
        }
    }

    /// What is sent when a claim was asked for or given up.
    pub open spec fn claim_answer(self, p: PeerId, ok: bool) -> Seq<OutgoingModel> {
        let result = OutgoingModel { msg: ServerModel::ClaimResult { ok }, to: set![p] };
        if !ok {
            seq![result]
        } else {
            seq![
                OutgoingModel {
                    msg: ServerModel::Regions { regions: self.regions },
                    to: self.peers.dom(),
                },
                result,
                OutgoingModel { msg: self.auth_state(p), to: set![p] },
            ]
        }
    }
}

/// What the hub does about a claim that was asked for or given up.
#[derive(Debug)]
pub struct ClaimReaction {
    /// The new set of owned chunks, if it changed.
    pub owned: Option<CoordMap<()>>,
    /// What is sent, in this order.
    pub out: Vec<Outgoing>,
    /// The user whose claim is to be stored or deleted, if it changed.
    pub user: Option<PeerUser>,
}

/// What a peer that joined is given.
#[derive(Debug)]
pub struct JoinAccepted {
    pub peer_id: PeerId,
    pub hello: ServerMsg,
    pub regions: ServerMsg,
}

impl Hub {
    /// A hub without peers. Peers may have `client_max_chunks` subscriptions, and chunks over
    /// `max_live_chunks` are dropped.
    pub fn new(
        client_max_chunks: u32,
        max_live_chunks: usize,
        static_regions: Arc<[Region]>,
        claim_mgr: ClaimManager,
    ) -> (h: Self)
        requires
            claim_mgr.wf(),
            claim_mgr.in_range(),
        ensures
            h.wf(),
            h@.peers == Map::<PeerId, Set<ChunkCoord>>::empty(),
            h@.subs == Map::<ChunkCoord, Set<PeerId>>::empty(),
            h@.last_seen == Map::<ChunkCoord, u64>::empty(),
            h@.mirror == Map::<ChunkCoord, MirrorEntry>::empty(),
            h@.users == Map::<PeerId, PeerUser>::empty(),
            h@.fixed == static_regions@,
            h@.claims == claim_mgr.claims@,
            h@.claim_w == claim_mgr.claim_w,
            h@.claim_h == claim_mgr.claim_h,
            h@ == h@.with_claims(h@.claims),
            h@.next_peer_id == 1,
            h@.latest_tick == 0,
            h@.pending.len() == 0,
            h@.client_max_chunks == client_max_chunks,
            h@.max_live_chunks == max_live_chunks,
            h@.indexed(),
    {
        let regions = claim_mgr.build_regions(&*static_regions);
        let owned_chunk_set = claim_mgr.owned_chunk_set();
        let h = Hub {
            peers: HashMap::new(),
            chunk_subs: CoordMap::new(),
            last_seen_tick: CoordMap::new(),
            mirror: CoordMap::new(),
            peer_user: HashMap::new(),
            static_regions,
            regions,
            claim_mgr,
            owned_chunk_set,
            next_peer_id: 1,
            latest_tick: 0,
            pending_sim_unsub: Vec::new(),
            client_max_chunks,
            max_live_chunks,
        };
        proof {
            assert(h@.peers =~= Map::<PeerId, Set<ChunkCoord>>::empty());
            assert(h@.subs =~= Map::<ChunkCoord, Set<PeerId>>::empty());
            assert(h@.owned =~= h@.with_claims(h@.claims).owned);
            assert(h@ =~= h@.with_claims(h@.claims));
        }
        h
    }

    /// Whether there is a number for a new peer.
    pub fn can_join(&self) -> (b: bool)
        ensures
            b == (self@.next_peer_id < u64::MAX),
    {
        self.next_peer_id < u64::MAX
    }

    /// Take in a new peer.
    pub fn join(&mut self) -> (r: JoinAccepted)
        requires
            old(self).wf(),
            old(self)@.next_peer_id < u64::MAX,
        ensures
            final(self).wf(),
            r.peer_id == old(self)@.next_peer_id,
            r.hello@ == (ServerModel::Hello {
                tick: old(self)@.latest_tick,
                chunk_size: CHUNK_SIZE as u8,
            }),
            r.regions@ == (ServerModel::Regions { regions: old(self)@.regions }),
            final(self)@ == (HubState {
                peers: old(self)@.peers.insert(r.peer_id, Set::empty()),
                next_peer_id: (r.peer_id + 1) as u64,
                ..old(self)@
            }),
    {
        let ghost w = self@;
        let peer_id = self.next_peer_id;
        self.next_peer_id = peer_id + 1;
        let fresh: CoordMap<()> = CoordMap::new();
        assert(fresh@.dom() =~= Set::<ChunkCoord>::empty());
        self.peers.insert(peer_id, fresh);
        assert(self@.peers =~= w.peers.insert(peer_id, Set::empty()));
        JoinAccepted {
            peer_id,
            hello: ServerMsg::Hello { tick: self.latest_tick, chunk_size: CHUNK_SIZE as u8 },
            regions: ServerMsg::Regions { regions: shared::share(&self.regions) },
        }
    }

    /// Note who a peer is logged in as.
    pub fn auth_peer(&mut self, peer_id: PeerId, user: PeerUser)
        requires
            old(self).wf(),
        ensures
            final(self).wf(),
            final(self)@ == (HubState {
                users: old(self)@.users.insert(peer_id, user),
                ..old(self)@
            }),
    {
        self.peer_user.insert(peer_id, user);
    }

    /// Number of peers.
    pub fn peer_count(&self) -> (n: usize)
        ensures
            n == self@.peers.len(),
    {
        assert(self@.peers.dom() =~= self.peers@.dom());
        self.peers.len()
    }

    /// The chunks that have no subscriber any more since this was last asked.
    pub fn take_pending(&mut self) -> (r: Vec<ChunkCoord>)
        requires
            old(self).wf(),
        ensures
            final(self).wf(),
            r@ == old(self)@.pending,
            final(self)@ == (HubState { pending: Seq::empty(), ..old(self)@ }),
    {
        let mut r: Vec<ChunkCoord> = Vec::new();
        std::mem::swap(&mut r, &mut self.pending_sim_unsub);
        r
    }

    /// The chunks that some peer is subscribed to.
    fn watched_set(&self) -> (set: CoordMap<()>)
        ensures
            set@.dom() == self@.watched(),
    {
        let mut set: CoordMap<()> = CoordMap::new();
        let ids = self.peer_ids();
        let ghost w = self@;
        let mut i: usize = 0;
        while i < ids.len()
            invariant
                i <= ids.len(),
                w == self@,
                ids@.to_set() == w.peers.dom(),
                forall|c: ChunkCoord| #[trigger]
                    set@.contains_key(c) <==> exists|j: int|
                        0 <= j < i && (#[trigger] w.peers[ids@[j]]).contains(c),
            decreases ids.len() - i,
        {
            let ghost set0 = set@;
            let p = ids[i];
            assert(ids@.to_set().contains(p));
            if let Some(mine) = self.peers.get(&p) {
                let coords = mine.keys();
                assert(w.peers[p] == mine@.dom());
                let mut k: usize = 0;
                while k < coords.len()
                    invariant
                        k <= coords.len(),
                        forall|c: ChunkCoord| #[trigger]
                            set@.contains_key(c) <==> set0.contains_key(c) || coords@.take(
                                k as int,
                            ).contains(c),
                    decreases coords.len() - k,
                {
                    proof {
                        assert(coords@.take(k + 1) =~= coords@.take(k as int).push(
                            coords@[k as int],
                        ));
                        sort::lemma_push_contains(coords@.take(k as int), coords@[k as int]);
                    }
                    set.insert(coords[k], ());
                    k = k + 1;
                }
                proof {
                    assert(coords@.take(k as int) =~= coords@);
                    assert forall|c: ChunkCoord| #[trigger] coords@.contains(c)
                        == w.peers[p].contains(c) by {
                        assert(coords@.to_set().contains(c) == mine@.dom().contains(c));
                    }
                }
            }
            i = i + 1;
            proof {
                assert forall|c: ChunkCoord| #[trigger] set@.contains_key(c) <==> exists|j: int|
                    0 <= j < i && (#[trigger] w.peers[ids@[j]]).contains(c) by {
                    if set0.contains_key(c) {
                        let j = choose|j: int|
                            0 <= j < i - 1 && (#[trigger] w.peers[ids@[j]]).contains(c);
                        assert(w.peers[ids@[j]].contains(c));
                    }
                    if w.peers[p].contains(c) {
                        assert(w.peers[ids@[i - 1]].contains(c));
                    }
                }
            }
        }
        proof {
            assert forall|c: ChunkCoord| #[trigger] set@.dom().contains(c) == w.watched().contains(
                c,
            ) by {
                if set@.contains_key(c) {
                    let j = choose|j: int|
                        0 <= j < i && (#[trigger] w.peers[ids@[j]]).contains(c);
                    assert(ids@.to_set().contains(ids@[j]));
                    assert(w.peers.contains_key(ids@[j]));
                }
                if w.watched().contains(c) {
                    let p = choose|p: PeerId| #[trigger]
                        w.peers.contains_key(p) && w.peers[p].contains(c);
                    assert(ids@.to_set().contains(p));
                    let j = choose|j: int| 0 <= j < ids@.len() && ids@[j] == p;
                    assert(w.peers[ids@[j]].contains(c));
                }
            }
            assert(set@.dom() =~= w.watched());
        }
        set
    }

    /// What the reaper knows of the chunks in the mirror.
    fn reap_infos(&self) -> (info: CoordMap<ReapInfo>)
        ensures
            info@ == self@.reap_info(),
    {
        let mut info: CoordMap<ReapInfo> = CoordMap::new();
        let coords = self.mirror.keys();
        let ghost f = |m: MirrorEntry|
            ReapInfo { live_count: m.live_count, is_frozen: m.frozen_mask is Some };
        let mut i: usize = 0;
        while i < coords.len()
            invariant
                i <= coords.len(),
                coords@.to_set() == self.mirror@.dom(),
                f == (|m: MirrorEntry|
                    ReapInfo { live_count: m.live_count, is_frozen: m.frozen_mask is Some }),
                forall|c: ChunkCoord| #[trigger]
                    info@.contains_key(c) <==> coords@.take(i as int).contains(c),
                forall|c: ChunkCoord| #[trigger]
                    info@.contains_key(c) ==> info@[c] == f(self.mirror@[c]),
            decreases coords.len() - i,
        {
            let c = coords[i];
            proof {
                assert(coords@.take(i + 1) =~= coords@.take(i as int).push(c));
                sort::lemma_push_contains(coords@.take(i as int), c);
                assert(coords@.to_set().contains(c));
            }
            if let Some(m) = self.mirror.get(&c) {
                info.insert(
                    c,
                    ReapInfo { live_count: m.live_count, is_frozen: m.frozen_mask.is_some() },
                );
            }
            i = i + 1;
        }
        proof {
            assert(coords@.take(i as int) =~= coords@);
            assert forall|c: ChunkCoord| #[trigger] info@.dom().contains(c)
                == self.mirror@.dom().contains(c) by {
                assert(coords@.to_set().contains(c) == self.mirror@.dom().contains(c));
            }
            assert(info@ =~= self@.reap_info());
        }
        info
    }

    /// Drop chunks so that their number keeps within bounds. Returns the chunks, for the
    /// simulation to be told, and what is sent.
    pub fn reap(&mut self) -> (r: (Vec<ChunkCoord>, Vec<Outgoing>))
        requires
            old(self).wf(),
        ensures
            final(self).wf(),
            old(self)@.reaps(r.0@),
            final(self)@ == (HubState {
                mirror: old(self)@.mirror.remove_keys(r.0@.to_set()),
                last_seen: old(self)@.last_seen.remove_keys(r.0@.to_set()),
                ..old(self)@
            }),
            once_each(r.1@),
            sent(r.1@) == r.0@.map_values(|c: ChunkCoord| old(self)@.reaped(c)),
    {
        let ghost w = self@;
        let mut out: Vec<Outgoing> = Vec::new();
        let gone = if self.mirror.len() > self.max_live_chunks {
            let subscribed = self.watched_set();
            let info = self.reap_infos();
            reaper::pick_reapable(
                &info,
                &subscribed,
                &self.last_seen_tick,
                self.latest_tick,
                self.max_live_chunks,
            )
        } else {
            Vec::new()
        };
        self.forget_chunks(&gone, &mut out);
        assert(sent(out@) =~= gone@.map_values(|c: ChunkCoord| w.reaped(c)));
        (gone, out)
    }

    /// Whether the clients are told how the server does: once per second of ticks.
    pub fn heartbeat_due(&self, tick_hz: u32) -> (b: bool)
        ensures
            b == (tick_hz > 0 && self@.latest_tick % (tick_hz as u64) == 0),
    {
        tick_hz > 0 && self.latest_tick % (tick_hz as u64) == 0
    }

    /// How the server does. The rates are IEEE 754 single precision numbers, given by their bits.
    pub fn stats(&self, live_chunks: u32, tick_rate_hz: u32, tick_utilization: u32) -> (o: Outgoing)
        ensures
            o@ == (OutgoingModel {
                msg: ServerModel::Stats {
                    tick: self@.latest_tick,
                    live_chunks,
                    tick_rate_hz,
                    tick_utilization,
                },
                to: self@.peers.dom(),
            }),
            o.to@.no_duplicates(),
    {
        self.to_all(
            ServerMsg::Stats {
                tick: self.latest_tick,
                live_chunks,
                tick_rate_hz,
                tick_utilization,
            },
        )
    }

    /// What a peer is told of its login.
    pub fn auth_state_for(&self, peer_id: PeerId) -> (m: ServerMsg)
        ensures
            m@ == self@.auth_state(peer_id),
    {
        let (uid, claim) = match self.peer_user.get(&peer_id) {
            Some(u) => (u.uid, self.claim_mgr.find_for_user(u.uid)),
            None => (0, None),
        };
        ServerMsg::AuthState { uid, claim, name: String::new(), email: String::new() }
    }

    /// Rebuild what follows from the claims, and answer the peer that changed them.
    fn apply_claims_update(&mut self, peer_id: PeerId, user: PeerUser) -> (r: ClaimReaction)
        requires
            old(self).wf(),
        ensures
            final(self).wf(),
            final(self)@ == old(self)@.with_claims(old(self)@.claims),
            r.owned matches Some(m) && m@.dom() == final(self)@.owned,
            r.user matches Some(u) && u == user,
            once_each(r.out@),
            sent(r.out@) == final(self)@.claim_answer(peer_id, true),
    {
        let ghost w = self@;
        self.regions = self.claim_mgr.build_regions(&*self.static_regions);
        self.owned_chunk_set = self.claim_mgr.owned_chunk_set();
        let owned = self.claim_mgr.owned_coord_map();
        proof {
            assert(self@.owned =~= w.with_claims(w.claims).owned);
            assert(owned@.dom() =~= self@.owned);
            assert(self@ =~= w.with_claims(w.claims));
        }
        let mut out: Vec<Outgoing> = Vec::new();
        out.push(self.to_all(ServerMsg::Regions { regions: shared::share(&self.regions) }));
        out.push(to_peer(peer_id, ServerMsg::ClaimResult { ok: true }));
        out.push(to_peer(peer_id, self.auth_state_for(peer_id)));
        assert(sent(out@) =~= self@.claim_answer(peer_id, true));
        ClaimReaction { owned: Some(owned), out, user: Some(user) }
    }

    /// The answer to a claim that is refused.
    fn refuse_claim(&self, peer_id: PeerId) -> (r: ClaimReaction)
        ensures
            r.owned is None,
            r.user is None,
            once_each(r.out@),
            sent(r.out@) == self@.claim_answer(peer_id, false),
    {
        let mut out: Vec<Outgoing> = Vec::new();
        out.push(to_peer(peer_id, ServerMsg::ClaimResult { ok: false }));
        assert(sent(out@) =~= self@.claim_answer(peer_id, false));
        ClaimReaction { owned: None, out, user: None }
    }

    /// Whether the chunks of a claim at `coord` would have coordinates.
    pub fn claim_fits(&self, coord: ChunkCoord) -> (b: bool)
        requires
            self.wf(),
        ensures
            b == claims::claim_in_range(
                (Claim { user_id: 0, cx: coord.0, cy: coord.1 }),
                self@.claim_w,
                self@.claim_h,
            ),
    {
        self.claim_mgr.fits(coord.0, coord.1)
    }

    /// Place or move the claim of the user that a peer is logged in as. It is refused to peers
    /// that are not logged in, and where a region stands in the way.
    pub fn handle_claim_create(&mut self, peer_id: PeerId, coord: ChunkCoord) -> (r: ClaimReaction)
        requires
            old(self).wf(),
            claims::claim_in_range(
                (Claim { user_id: 0, cx: coord.0, cy: coord.1 }),
                old(self)@.claim_w,
                old(self)@.claim_h,
            ),
        ensures
            final(self).wf(),
            once_each(r.out@),
            match old(self)@.editor(peer_id) {
                Some(uid) if !old(self)@.obstructed(uid, coord) => {
                    let list = claims::claims_of_others(old(self)@.claims, uid).push(
                        Claim { user_id: uid, cx: coord.0, cy: coord.1 },
                    );
                    &&& final(self)@ == old(self)@.with_claims(list)
                    &&& r.owned matches Some(m) && m@.dom() == final(self)@.owned
                    &&& r.user matches Some(u) && u.uid == uid && u.email_key@ == old(
                        self,
                    )@.users[peer_id].email_key@
                    &&& sent(r.out@) == final(self)@.claim_answer(peer_id, true)
                },
                _ => {
                    &&& final(self)@ == old(self)@
                    &&& r.owned is None
                    &&& r.user is None
                    &&& sent(r.out@) == old(self)@.claim_answer(peer_id, false)
                },
            },
    {
        let ghost w = self@;
        let user = match self.peer_user.get(&peer_id) {
            Some(u) => u.clone(),
            None => {
                return self.refuse_claim(peer_id);
            },
        };
        if !self.claim_mgr.try_create(user.uid, coord.0, coord.1, &*self.regions) {
            return self.refuse_claim(peer_id);
        }
        proof {
            claims::lemma_others_in_range(w.claims, user.uid, w.claim_w, w.claim_h);
            assert(self.claim_mgr.in_range());
        }
        let r = self.apply_claims_update(peer_id, user);
        assert(self@ =~= w.with_claims(self@.claims));
        r
    }

    /// Give up the claim of the user that a peer is logged in as.
    pub fn handle_claim_delete(&mut self, peer_id: PeerId) -> (r: ClaimReaction)
        requires
            old(self).wf(),
        ensures
            final(self).wf(),
            once_each(r.out@),
            match old(self)@.editor(peer_id) {
                Some(uid) if (exists|i: int|
                    0 <= i < old(self)@.claims.len() && (#[trigger] old(self)@.claims[i]).user_id
                        == uid) => {
                    &&& final(self)@ == old(self)@.with_claims(
                        claims::claims_of_others(old(self)@.claims, uid),
                    )
                    &&& r.owned matches Some(m) && m@.dom() == final(self)@.owned
                    &&& r.user matches Some(u) && u.uid == uid && u.email_key@ == old(
                        self,
                    )@.users[peer_id].email_key@
                    &&& sent(r.out@) == final(self)@.claim_answer(peer_id, true)
                },
                _ => {
                    &&& final(self)@ == old(self)@
                    &&& r.owned is None
                    &&& r.user is None
                    &&& sent(r.out@) == old(self)@.claim_answer(peer_id, false)
                },
            },
    {
        let ghost w = self@;
        let user = match self.peer_user.get(&peer_id) {
            Some(u) => u.clone(),
            None => {
                return self.refuse_claim(peer_id);
            },
        };
        proof {
            claims::lemma_others_in_range(w.claims, user.uid, w.claim_w, w.claim_h);
        }
        if !self.claim_mgr.try_delete(user.uid) {
            proof {
                claims::lemma_no_claim(w.claims, user.uid);
                assert(self@ =~= w);
            }
            return self.refuse_claim(peer_id);
        }
        let r = self.apply_claims_update(peer_id, user);
        assert(self@ =~= w.with_claims(self@.claims));
        r
    }
}

impl HubState {
    /// The subscription index agrees with the peers, and no number of a peer is yet to be given.
    pub open spec fn tidy(self) -> bool {
        &&& self.indexed()
        &&& forall|p: PeerId| #[trigger] self.peers.contains_key(p) ==> p < self.next_peer_id
    }
}

/// A new peer leaves the subscription index in order.
pub proof fn law_joining_keeps_index(w: HubState, next: HubState)
    requires
        w.tidy(),
        w.next_peer_id < u64::MAX,
        next == (HubState {
            peers: w.peers.insert(w.next_peer_id, Set::empty()),
            next_peer_id: (w.next_peer_id + 1) as u64,
            ..w
        }),
    ensures
        next.tidy(),
        !w.peers.contains_key(w.next_peer_id),
{
    assert forall|c: ChunkCoord, p: PeerId|
        #![trigger next.peers[p].contains(c)]
        #![trigger next.subs[c].contains(p)]
        (next.subs.contains_key(c) && next.subs[c].contains(p)) <==> (next.peers.contains_key(p)
            && next.peers[p].contains(c)) by {
        assert((w.subs.contains_key(c) && w.subs[c].contains(p)) <==> (w.peers.contains_key(p)
            && w.peers[p].contains(c)));
    }
}

/// Subscribing leaves the subscription index in order, and the chunks that are said to be new
/// are those that had no subscriber and now have one.
pub proof fn law_subscribing_keeps_index(w: HubState, p: PeerId, coords: Seq<ChunkCoord>)
    requires
        w.tidy(),
        w.peers.contains_key(p),
    ensures
        w.subscribing(p, coords).state.tidy(),
        w.subscribing(p, coords).state.peers.dom() == w.peers.dom(),
        w.subscribing(p, coords).state.subs.dom() == w.subs.dom().union(
            w.subscribing(p, coords).fresh.to_set(),
        ),
        w.subs.dom().disjoint(w.subscribing(p, coords).fresh.to_set()),
        w.subscribing(p, coords).fresh.no_duplicates(),
    decreases coords.len(),
{
    let s = w.subscribing(p, coords);
    if coords.len() == 0 {
        assert(s.state.subs.dom() =~= w.subs.dom().union(s.fresh.to_set()));
    } else {
        let s0 = w.subscribing(p, coords.drop_last());
        let c = coords.last();
        law_subscribing_keeps_index(w, p, coords.drop_last());
        assert(s0.state.next_peer_id == w.next_peer_id) by {
            lemma_subscribing_frame(w, p, coords.drop_last());
        }
        if !s0.full && !s0.state.peers[p].contains(c) && s0.state.peers[p].len()
            < w.client_max_chunks {
            lemma_with_sub(s0.state, p, c);
            if s0.state.subscribers(c).is_empty() {
                assert(!s0.state.subs.contains_key(c)) by {
                    if s0.state.subs.contains_key(c) {
                        let q = choose|q: PeerId| s0.state.subs[c].contains(q);
                        assert(s0.state.subs[c].contains(q));
                        assert(s0.state.subs[c] =~= Set::<PeerId>::empty());
                    }
                }
                sort::lemma_push_contains(s0.fresh, c);
                sort::lemma_push_distinct(s0.fresh, c);
                assert forall|d: ChunkCoord| #[trigger] s.fresh.to_set().contains(d)
                    == (s0.fresh.to_set().contains(d) || d == c) by {}
                assert(!s0.fresh.to_set().contains(c));
            } else {
                assert(s0.state.subs.contains_key(c));
            }
            assert(s.state.peers.dom() =~= w.peers.dom());
            assert(s.state.subs.dom() =~= w.subs.dom().union(s.fresh.to_set()));
        }
    }
}

/// Subscribing gives out no numbers of peers.
proof fn lemma_subscribing_frame(w: HubState, p: PeerId, coords: Seq<ChunkCoord>)
    ensures
        w.subscribing(p, coords).state.next_peer_id == w.next_peer_id,
    decreases coords.len(),
{
    if coords.len() > 0 {
        lemma_subscribing_frame(w, p, coords.drop_last());
    }
}

/// One more subscription leaves the index in order.
proof fn lemma_with_sub(w: HubState, p: PeerId, c: ChunkCoord)
    requires
        w.tidy(),
        w.peers.contains_key(p),
    ensures
        w.with_sub(p, c).tidy(),
{
    let next = w.with_sub(p, c);
    assert forall|d: ChunkCoord, q: PeerId|
        #![trigger next.peers[q].contains(d)]
        #![trigger next.subs[d].contains(q)]
        (next.subs.contains_key(d) && next.subs[d].contains(q)) <==> (next.peers.contains_key(q)
            && next.peers[q].contains(d)) by {
        assert((w.subs.contains_key(d) && w.subs[d].contains(q)) <==> (w.peers.contains_key(q)
            && w.peers[q].contains(d)));
    }
    assert forall|d: ChunkCoord| #[trigger] next.subs.contains_key(d) implies exists|q: PeerId|
        next.subs[d].contains(q) by {
        if d == c {
            assert(next.subs[d].contains(p));
        } else {
            let q = choose|q: PeerId| w.subs[d].contains(q);
            assert(w.subs.contains_key(d));
            assert(next.subs[d].contains(q));
        }
    }
}

/// Ending subscriptions leaves the subscription index in order, and the chunks that are said to
/// be gone are those that had a subscriber and now have none.
pub proof fn law_unsubscribing_keeps_index(w: HubState, p: PeerId, coords: Seq<ChunkCoord>)
    requires
        w.tidy(),
        w.peers.contains_key(p),
    ensures
        w.unsubscribing(p, coords).state.tidy(),
        w.unsubscribing(p, coords).state.peers.dom() == w.peers.dom(),
        w.unsubscribing(p, coords).state.subs.dom() == w.subs.dom().difference(
            w.unsubscribing(p, coords).gone.to_set(),
        ),
        w.unsubscribing(p, coords).gone.to_set().subset_of(w.subs.dom()),
        w.unsubscribing(p, coords).gone.no_duplicates(),
    decreases coords.len(),
{
    let s = w.unsubscribing(p, coords);
    if coords.len() == 0 {
        assert(s.state.subs.dom() =~= w.subs.dom().difference(s.gone.to_set()));
    } else {
        let s0 = w.unsubscribing(p, coords.drop_last());
        let c = coords.last();
        law_unsubscribing_keeps_index(w, p, coords.drop_last());
        assert(s0.state.next_peer_id == w.next_peer_id) by {
            lemma_unsubscribing_frame(w, p, coords.drop_last());
        }
        if s0.state.peers[p].contains(c) {
            lemma_without_sub(s0.state, p, c);
            assert(s0.state.subs.contains_key(c));
            if s0.state.subs[c].remove(p).is_empty() {
                sort::lemma_push_contains(s0.gone, c);
                sort::lemma_push_distinct(s0.gone, c);
                assert forall|d: ChunkCoord| #[trigger] s.gone.to_set().contains(d)
                    == (s0.gone.to_set().contains(d) || d == c) by {}
                assert(!s0.gone.to_set().contains(c));
            }
            assert(s.state.peers.dom() =~= w.peers.dom());
            assert(s.state.subs.dom() =~= w.subs.dom().difference(s.gone.to_set()));
        }
    }
}

/// Ending subscriptions gives out no numbers of peers.
proof fn lemma_unsubscribing_frame(w: HubState, p: PeerId, coords: Seq<ChunkCoord>)
    ensures
        w.unsubscribing(p, coords).state.next_peer_id == w.next_peer_id,
    decreases coords.len(),
{
    if coords.len() > 0 {
        lemma_unsubscribing_frame(w, p, coords.drop_last());
    }
}

/// One subscription less leaves the index in order.
proof fn lemma_without_sub(w: HubState, p: PeerId, c: ChunkCoord)
    requires
        w.tidy(),
        w.peers.contains_key(p),
    ensures
        w.without_sub(p, c).tidy(),
{
    let next = w.without_sub(p, c);
    assert forall|d: ChunkCoord, q: PeerId|
        #![trigger next.peers[q].contains(d)]
        #![trigger next.subs[d].contains(q)]
        (next.subs.contains_key(d) && next.subs[d].contains(q)) <==> (next.peers.contains_key(q)
            && next.peers[q].contains(d)) by {
        assert((w.subs.contains_key(d) && w.subs[d].contains(q)) <==> (w.peers.contains_key(q)
            && w.peers[q].contains(d)));
        if d == c && w.subs.contains_key(c) && w.subs[c].remove(p).is_empty() && q != p {
            assert(w.subs[c].remove(p) =~= Set::<PeerId>::empty());
            assert(!w.subs[c].remove(p).contains(q));
            assert(!w.subs[c].contains(q));
        }
    }
    assert forall|d: ChunkCoord| #[trigger] next.subs.contains_key(d) implies exists|q: PeerId|
        next.subs[d].contains(q) by {
        assert(w.subs.contains_key(d));
        if d == c {
            let left = w.subs[c].remove(p);
            assert(!left.is_empty());
            assert(exists|q: PeerId| left.contains(q)) by {
                if forall|q: PeerId| !left.contains(q) {
                    assert(left =~= Set::<PeerId>::empty());
                }
            }
            let q = choose|q: PeerId| left.contains(q);
            assert(next.subs[d].contains(q));
        } else {
            let q = choose|q: PeerId| w.subs[d].contains(q);
            assert(next.subs[d].contains(q));
        }
    }
}

/// Dropping a peer leaves the subscription index in order, and the chunks that are said to be
/// gone are those that had a subscriber and now have none.
pub proof fn law_dropping_keeps_index(
    w: HubState,
    p: PeerId,
    gone: Seq<ChunkCoord>,
    next: HubState,
)
    requires
        w.tidy(),
        w.drops(p, gone, next),
    ensures
        next.tidy(),
        next.subs.dom() == w.subs.dom().difference(gone.to_set()),
        gone.to_set().subset_of(w.subs.dom()),
{
    assert forall|d: ChunkCoord, q: PeerId|
        #![trigger next.peers[q].contains(d)]
        #![trigger next.subs[d].contains(q)]
        (next.subs.contains_key(d) && next.subs[d].contains(q)) <==> (next.peers.contains_key(q)
            && next.peers[q].contains(d)) by {
        assert((w.subs.contains_key(d) && w.subs[d].contains(q)) <==> (w.peers.contains_key(q)
            && w.peers[q].contains(d)));
        assert((w.subs.contains_key(d) && w.subs[d].contains(p)) <==> (w.peers.contains_key(p)
            && w.peers[p].contains(d)));
    }
    assert forall|d: ChunkCoord| #[trigger] next.subs.contains_key(d) implies exists|q: PeerId|
        next.subs[d].contains(q) by {
        assert(w.subs.contains_key(d));
        if w.peers.contains_key(p) && w.peers[p].contains(d) {
            let q = choose|q: PeerId| w.subs[d].contains(q) && q != p;
            assert(next.subs[d].contains(q));
        } else {
            let q = choose|q: PeerId| w.subs[d].contains(q);
            assert(next.subs[d].contains(q));
        }
    }
    assert forall|d: ChunkCoord| #[trigger] next.subs.dom().contains(d) == w.subs.dom().difference(
        gone.to_set(),
    ).contains(d) by {
        assert(gone.to_set().contains(d) == gone.contains(d));
        if w.peers.contains_key(p) && w.peers[p].contains(d) {
            assert(gone.contains(d) == w.orphaned(p, d));
        }
    }
    assert(next.subs.dom() =~= w.subs.dom().difference(gone.to_set()));
    assert forall|d: ChunkCoord| #[trigger] gone.to_set().contains(d) implies
        w.subs.dom().contains(d) by {
        assert(gone.contains(d));
    }
}

impl HubState {
    /// The regions and owned chunks are those that the claims make, every user has at most one
    /// claim, and no two claims have a cell in common.
    pub open spec fn settled(self) -> bool {
        &&& self == self.with_claims(self.claims)
        &&& claims::one_each(self.claims)
        &&& claims::apart(self.claims, self.claim_w, self.claim_h)
    }
}

/// Claims that are placed, moved or given up leave the hub settled: what was granted against the
/// regions that everybody knows of never overlaps what somebody else holds.
pub proof fn law_claims_leave_hub_settled(w: HubState, uid: u32, c: ChunkCoord)
    requires
        w.settled(),
        0 <= w.claim_w <= claims::MAX_CLAIM_SIDE,
        0 <= w.claim_h <= claims::MAX_CLAIM_SIDE,
    ensures
        !w.obstructed(uid, c) ==> w.with_claims(
            claims::claims_of_others(w.claims, uid).push(
                Claim { user_id: uid, cx: c.0, cy: c.1 },
            ),
        ).settled(),
        w.with_claims(claims::claims_of_others(w.claims, uid)).settled(),
{
    claims::lemma_others_apart(w.claims, w.claim_w, w.claim_h, uid);
    if !w.obstructed(uid, c) {
        let all = claims::all_regions(w.fixed, w.claims, w.claim_w, w.claim_h);
        assert(w.regions == all);
        assert forall|i: int| 0 <= i < all.len() implies !claims::obstructs(
            #[trigger] all[i],
            uid,
            c.0,
            c.1,
            w.claim_w,
            w.claim_h,
        ) by {
            assert(w.regions[i] == all[i]);
        }
        claims::law_claims_stay_apart(w.fixed, w.claims, w.claim_w, w.claim_h, uid, c.0, c.1);
    }
}

} // verus!
