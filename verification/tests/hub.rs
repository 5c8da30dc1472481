use netgol::claims::ClaimManager;
use netgol::hub::{has_live_boundary, Hub, Outgoing, PeerUser};
use netgol::frames::{encode_capacity, encode_once, route, server_msg_fits, HubCmd};
use netgol::protocol::{
    encode_client, encode_server, ClientMsg, DecodeError, EditCell, Region, ServerMsg, BITS_BYTES,
    FLAG_LOCKED, FLAG_OWNED,
};
use netgol::sim::{ChunkSnap, SimCmd, SimEvent};
use std::sync::Arc;

fn hub_with(cap: u32, max_live: usize, fixed: Vec<Region>) -> Hub {
    Hub::new(cap, max_live, Arc::from(fixed), ClaimManager::new(Vec::new(), 3, 2))
}

fn hub() -> Hub {
    hub_with(100, 1000, Vec::new())
}

fn event(tick: u64) -> SimEvent {
    SimEvent {
        tick,
        changed: Vec::new(),
        edits: Vec::new(),
        removed: Vec::new(),
        live_count: 0,
        initial: false,
        is_tick: false,
    }
}

fn snap_at(coord: (i32, i32), cells: &[(usize, usize)]) -> ChunkSnap {
    let mut bits = [0u8; BITS_BYTES];
    for &(x, y) in cells {
        bits[y * 8 + x / 8] |= 1 << (x % 8);
    }
    ChunkSnap { coord, bits, frozen_mask: None, live_count: cells.len() as u32 }
}

fn to_sorted(o: &Outgoing) -> Vec<u64> {
    let mut to = o.to.clone();
    to.sort();
    to
}

fn subscribe(h: &mut Hub, peer: u64, coords: &[(i32, i32)]) {
    let r = h.handle_client_msg(peer, &ClientMsg::Subscribe(coords.to_vec()));
    assert!(!r.kicked);
}

#[test]
fn peers_are_numbered_and_greeted() {
    let fixed = vec![Region { x: 0, y: 0, w: 1, h: 1, flags: 0, owner: 0 }];
    let mut h = hub_with(10, 10, fixed.clone());
    h.handle_sim_event(&event(42));
    let a = h.join();
    let b = h.join();
    assert_eq!((a.peer_id, b.peer_id), (1, 2));
    assert_eq!(a.hello, ServerMsg::Hello { tick: 42, chunk_size: 64 });
    assert_eq!(a.regions, ServerMsg::Regions { regions: Arc::from(fixed) });
    assert_eq!(h.peer_count(), 2);
    assert!(h.can_join());
    h.drop_peer(1);
    assert_eq!(h.peer_ids(), vec![2]);
    assert_eq!(h.join().peer_id, 3);
}

#[test]
fn the_simulation_hears_of_first_and_last_subscribers() {
    let mut h = hub();
    h.join();
    h.join();
    let r = h.handle_client_msg(1, &ClientMsg::Subscribe(vec![(0, 0), (1, 0), (0, 0)]));
    assert!(matches!(r.sim, Some(SimCmd::Subscribe(v)) if v == vec![(0, 0), (1, 0)]));
    let r = h.handle_client_msg(2, &ClientMsg::Subscribe(vec![(1, 0), (2, 0)]));
    assert!(matches!(r.sim, Some(SimCmd::Subscribe(v)) if v == vec![(2, 0)]));
    let r = h.handle_client_msg(2, &ClientMsg::Subscribe(vec![(1, 0)]));
    assert!(r.sim.is_none());
    let r = h.handle_client_msg(1, &ClientMsg::Unsubscribe(vec![(1, 0), (0, 0), (9, 9)]));
    assert!(matches!(r.sim, Some(SimCmd::Unsubscribe(v)) if v == vec![(0, 0)]));
    h.drop_peer(2);
    let mut gone = h.take_pending();
    gone.sort();
    assert_eq!(gone, vec![(1, 0), (2, 0)]);
    assert!(h.take_pending().is_empty());
}

#[test]
fn greedy_peers_are_dropped() {
    let mut h = hub_with(2, 10, Vec::new());
    h.join();
    let r = h.handle_client_msg(1, &ClientMsg::Subscribe(vec![(0, 0), (1, 0), (0, 0), (2, 0)]));
    assert!(r.kicked);
    assert!(r.sim.is_none() && r.out.is_empty());
    assert_eq!(h.peer_count(), 0);
}

#[test]
fn new_subscribers_are_told_what_lives() {
    let mut h = hub();
    h.join();
    let mut ev = event(5);
    ev.initial = true;
    ev.changed.push(snap_at((0, 0), &[(3, 3)]));
    ev.changed.push(snap_at((1, 0), &[]));
    assert!(h.handle_sim_event(&ev).is_empty());
    let r = h.handle_client_msg(1, &ClientMsg::Subscribe(vec![(1, 0), (0, 0), (7, 7)]));
    assert_eq!(r.out.len(), 1);
    assert_eq!(r.out[0].to, vec![1]);
    assert_eq!(
        r.out[0].msg,
        ServerMsg::ChunkState { cx: 0, cy: 0, tick: 5, bits: snap_at((0, 0), &[(3, 3)]).bits }
    );
}

#[test]
fn a_tick_is_fanned_out() {
    let mut h = hub();
    for _ in 0..3 {
        h.join();
    }
    subscribe(&mut h, 1, &[(0, 0), (1, 0)]);
    subscribe(&mut h, 2, &[(0, 0)]);
    let mut ev = event(8);
    ev.is_tick = true;
    ev.removed.push((4, 4));
    // Nothing crosses the sides of the first, so that clients know it themselves.
    ev.changed.push(snap_at((1, 0), &[(5, 5)]));
    ev.changed.push(snap_at((0, 0), &[(0, 9)]));
    ev.changed.push(snap_at((3, 3), &[(0, 0)]));
    let out = h.handle_sim_event(&ev);
    assert_eq!(out.len(), 3);
    assert_eq!(out[0].msg, ServerMsg::Reaped { cx: 4, cy: 4 });
    assert_eq!(to_sorted(&out[0]), vec![1, 2, 3]);
    assert!(matches!(out[1].msg, ServerMsg::ChunkDelta { cx: 0, cy: 0, tick: 8, .. }));
    assert_eq!(to_sorted(&out[1]), vec![1, 2]);
    assert_eq!(out[2].msg, ServerMsg::Sync { tick: 8 });
    assert_eq!(to_sorted(&out[2]), vec![1, 2, 3]);
}

#[test]
fn edits_are_told_to_subscribers() {
    let mut h = hub();
    h.join();
    h.join();
    subscribe(&mut h, 2, &[(0, 0)]);
    let cells = vec![EditCell { cx: 0, cy: 0, lx: 5, ly: 5, alive: true }];
    let mut ev = event(3);
    ev.changed.push(snap_at((0, 0), &[(5, 5)]));
    ev.edits.push(((0, 0), cells.clone()));
    ev.edits.push(((9, 9), cells.clone()));
    let out = h.handle_sim_event(&ev);
    assert_eq!(out.len(), 1);
    assert_eq!(out[0].msg, ServerMsg::EditApplied { cx: 0, cy: 0, cells });
    assert_eq!(out[0].to, vec![2]);
}

#[test]
fn only_permitted_edits_reach_the_simulation() {
    let fixed = vec![
        Region { x: 0, y: 0, w: 64, h: 64, flags: FLAG_LOCKED, owner: 0 },
        Region { x: 64, y: 0, w: 64, h: 64, flags: FLAG_LOCKED | FLAG_OWNED, owner: 7 },
    ];
    let mut h = hub_with(10, 10, fixed);
    h.join();
    let at = |cx: i32| EditCell { cx, cy: 0, lx: 1, ly: 1, alive: true };
    let r = h.handle_client_msg(1, &ClientMsg::Edit(vec![at(0), at(1), at(2)]));
    assert!(matches!(r.sim, Some(SimCmd::Edit(v)) if v == vec![at(2)]));
    h.auth_peer(1, PeerUser { uid: 7, email_key: "k".into() });
    let r = h.handle_client_msg(1, &ClientMsg::Edit(vec![at(0), at(1), at(2)]));
    assert!(matches!(r.sim, Some(SimCmd::Edit(v)) if v == vec![at(1), at(2)]));
    let r = h.handle_client_msg(1, &ClientMsg::Edit(vec![at(0)]));
    assert!(r.sim.is_none());
}

#[test]
fn claims_need_a_login_and_room() {
    let mut h = hub();
    h.join();
    h.join();
    let r = h.handle_claim_create(1, (0, 0));
    assert!(r.owned.is_none() && r.user.is_none());
    assert_eq!(r.out.len(), 1);
    assert_eq!(r.out[0].msg, ServerMsg::ClaimResult { ok: false });
    h.auth_peer(1, PeerUser { uid: 7, email_key: "k7".into() });
    h.auth_peer(2, PeerUser { uid: 8, email_key: "k8".into() });
    assert!(h.claim_fits((0, 0)));
    let r = h.handle_claim_create(1, (0, 0));
    assert_eq!(r.owned.unwrap().len(), 6);
    assert_eq!(r.user.unwrap().email_key, "k7");
    assert!(matches!(r.out[0].msg, ServerMsg::Regions { .. }));
    assert_eq!(to_sorted(&r.out[0]), vec![1, 2]);
    assert_eq!(r.out[1].msg, ServerMsg::ClaimResult { ok: true });
    assert_eq!(
        r.out[2].msg,
        ServerMsg::AuthState { uid: 7, claim: Some((0, 0)), name: String::new(), email: String::new() }
    );
    assert_eq!(r.out[2].to, vec![1]);
    let r = h.handle_claim_create(2, (2, 1));
    assert_eq!(r.out[0].msg, ServerMsg::ClaimResult { ok: false });
    let r = h.handle_claim_delete(2);
    assert_eq!(r.out[0].msg, ServerMsg::ClaimResult { ok: false });
    let r = h.handle_claim_delete(1);
    assert_eq!(r.owned.unwrap().len(), 0);
    let r = h.handle_claim_create(2, (2, 1));
    assert_eq!(r.out[1].msg, ServerMsg::ClaimResult { ok: true });
    assert!(matches!(h.auth_state_for(1), ServerMsg::AuthState { uid: 7, claim: None, .. }));
    assert!(matches!(h.auth_state_for(9), ServerMsg::AuthState { uid: 0, claim: None, .. }));
}

#[test]
fn claimed_chunks_are_told_even_where_nothing_crosses() {
    let mut h = hub();
    h.join();
    h.auth_peer(1, PeerUser { uid: 7, email_key: "k".into() });
    h.handle_claim_create(1, (0, 0));
    subscribe(&mut h, 1, &[(0, 0)]);
    let mut ev = event(1);
    ev.is_tick = true;
    ev.changed.push(snap_at((0, 0), &[(9, 9)]));
    let out = h.handle_sim_event(&ev);
    assert!(matches!(out[0].msg, ServerMsg::ChunkDelta { cx: 0, cy: 0, .. }));
}

#[test]
fn chunks_are_reaped_over_the_limit() {
    let mut h = hub_with(10, 2, Vec::new());
    h.join();
    subscribe(&mut h, 1, &[(0, 0)]);
    let mut ev = event(1);
    for x in 0..4 {
        ev.changed.push(snap_at((x, 0), &[(1, 1)]));
    }
    h.handle_sim_event(&ev);
    let (gone, out) = h.reap();
    assert_eq!(gone, vec![(3, 0), (2, 0)]);
    assert_eq!(out[0].msg, ServerMsg::Reaped { cx: 3, cy: 0 });
    assert_eq!(out.len(), 2);
    let (gone, out) = h.reap();
    assert!(gone.is_empty() && out.is_empty());
}

#[test]
fn heartbeats_come_once_per_second_of_ticks() {
    let mut h = hub();
    h.join();
    h.handle_sim_event(&event(20));
    assert!(h.heartbeat_due(10));
    assert!(!h.heartbeat_due(0));
    h.handle_sim_event(&event(21));
    assert!(!h.heartbeat_due(10));
    let o = h.stats(5, 1.5f32.to_bits(), 0.25f32.to_bits());
    assert_eq!(
        o.msg,
        ServerMsg::Stats {
            tick: 21,
            live_chunks: 5,
            tick_rate_hz: 1.5f32.to_bits(),
            tick_utilization: 0.25f32.to_bits(),
        }
    );
    assert_eq!(o.to, vec![1]);
}

#[test]
fn boundaries() {
    assert!(!has_live_boundary(&snap_at((0, 0), &[(1, 1), (62, 62)]).bits));
    assert!(has_live_boundary(&snap_at((0, 0), &[(7, 0)]).bits));
    assert!(has_live_boundary(&snap_at((0, 0), &[(7, 63)]).bits));
    assert!(has_live_boundary(&snap_at((0, 0), &[(0, 30)]).bits));
    assert!(has_live_boundary(&snap_at((0, 0), &[(63, 30)]).bits));
}

#[test]
fn frames_are_encoded_for_sharing() {
    let msgs = [
        ServerMsg::Sync { tick: 0x0102_0304 },
        ServerMsg::Hello { tick: 1, chunk_size: 64 },
        ServerMsg::ChunkDelta { cx: 1, cy: 2, tick: 3, bits: [7; BITS_BYTES] },
        ServerMsg::Regions {
            regions: Arc::from(vec![Region { x: 1, y: 2, w: 3, h: 4, flags: 5, owner: 6 }]),
        },
        ServerMsg::Reaped { cx: 1, cy: 2 },
        ServerMsg::Stats { tick: 1, live_chunks: 2, tick_rate_hz: 3, tick_utilization: 4 },
        ServerMsg::EditApplied {
            cx: 0,
            cy: 0,
            cells: vec![EditCell { cx: 0, cy: 0, lx: 1, ly: 2, alive: true }],
        },
        ServerMsg::AuthState { uid: 1, claim: None, name: "\u{e9}".into(), email: "e".into() },
        ServerMsg::ClaimResult { ok: true },
    ];
    for msg in &msgs {
        let mut buf = Vec::new();
        encode_server(msg, &mut buf);
        assert!(server_msg_fits(msg));
        assert_eq!(encode_capacity(msg), buf.len());
        assert_eq!(encode_once(msg)[..], buf[..]);
    }
    let long = ServerMsg::AuthState {
        uid: 1,
        claim: None,
        name: "n".repeat(65536),
        email: String::new(),
    };
    assert!(!server_msg_fits(&long));
}

#[test]
fn frames_are_routed() {
    let frame = |m: &ClientMsg| {
        let mut b = Vec::new();
        encode_client(m, &mut b);
        b
    };
    assert!(matches!(
        route(4, &frame(&ClientMsg::ClaimCreate((1, 2)))),
        Ok(HubCmd::ClaimCreate { peer_id: 4, coord: (1, 2) })
    ));
    assert!(matches!(
        route(4, &frame(&ClientMsg::ClaimDelete)),
        Ok(HubCmd::ClaimDelete { peer_id: 4 })
    ));
    let m = ClientMsg::Subscribe(vec![(5, 6)]);
    match route(4, &frame(&m)) {
        Ok(HubCmd::Client { peer_id, msg }) => assert_eq!((peer_id, msg), (4, m)),
        _ => panic!("not routed"),
    }
    assert!(matches!(route(4, &[]), Err(DecodeError::Empty)));
}
