use netgol::claims::ClaimManager;
use netgol::hub::Hub;
use netgol::oscillator::Detector;
use netgol::protocol::{rows_to_bits, ClientMsg, EditCell, ServerMsg};
use netgol::sim::Sim;
use netgol::world::World;
use std::collections::BTreeMap;
use std::sync::Arc;

/// What a new peer is told of the chunks of the world.
fn told(hub: &mut Hub, sim: &Sim) -> BTreeMap<(i32, i32), [u8; 512]> {
    let peer = hub.join().peer_id;
    let r = hub.handle_client_msg(peer, &ClientMsg::Subscribe(sim.world().coords()));
    hub.drop_peer(peer);
    r.out
        .into_iter()
        .map(|o| match o.msg {
            ServerMsg::ChunkState { cx, cy, bits, .. } => ((cx, cy), bits),
            m => panic!("unexpected {m:?}"),
        })
        .collect()
}

fn live(sim: &Sim) -> BTreeMap<(i32, i32), [u8; 512]> {
    sim.world()
        .coords()
        .into_iter()
        .filter_map(|c| sim.world().get_live_chunk(c).map(|ch| (c, ch)))
        .filter(|(_, ch)| !ch.is_empty())
        .map(|(c, ch)| (c, rows_to_bits(ch.rows())))
        .collect()
}

#[test]
fn the_mirror_keeps_up_with_the_world() {
    let mut w = World::new();
    // An R-pentomino near a corner of four chunks, and a blinker by itself.
    for &(x, y) in &[(1i64, 0i64), (2, 0), (0, 1), (1, 1), (1, 2)] {
        w.set_cell(x, y, true);
    }
    for x in 1000..1003 {
        w.set_cell(x, 1000, true);
    }
    let mut sim = Sim::new(w, 1000);
    let mut det = Detector::new();
    let mut hub =
        Hub::new(1000, 1000, Arc::from(Vec::new()), ClaimManager::new(Vec::new(), 3, 2));
    hub.handle_sim_event(&sim.initial_event());
    assert_eq!(told(&mut hub, &sim), live(&sim));
    let mut paused = 0;
    for t in 0..120u8 {
        let mut found = Vec::new();
        det.scan(100, &mut found);
        paused += sim.promote(&found, 16).promotions;
        let e = sim.tick(&mut det).event;
        hub.handle_sim_event(&e);
        if t % 7 == 0 {
            let cells = vec![
                EditCell { cx: 0, cy: 0, lx: t % 64, ly: 9, alive: true },
                EditCell { cx: -3, cy: 2, lx: 5, ly: t % 64, alive: true },
            ];
            let (e, _) = sim.edit(&mut det, &cells);
            hub.handle_sim_event(&e);
        }
        if t % 50 == 49 {
            if let Some(e) = sim.subscribe(&mut det, &vec![(15, 15)]) {
                hub.handle_sim_event(&e);
            }
            sim.unsubscribe(&vec![(15, 15)]);
        }
        let seen = told(&mut hub, &sim);
        for (c, bits) in live(&sim) {
            assert_eq!(seen.get(&c), Some(&bits), "chunk {c:?} at tick {t}");
        }
    }
    assert!(paused > 0);
}

#[test]
fn reaped_chunks_leave_mirror_and_world() {
    let mut w = World::new();
    for c in 0..4 {
        w.set_cell(c * 64 + 30, 30, true);
    }
    let mut sim = Sim::new(w, 1000);
    let mut hub = Hub::new(10, 1, Arc::from(Vec::new()), ClaimManager::new(Vec::new(), 3, 2));
    hub.handle_sim_event(&sim.initial_event());
    let (gone, _) = hub.reap();
    assert_eq!(gone.len(), 3);
    sim.reap(&mut Detector::new(), &gone);
    assert_eq!(sim.world().coords(), vec![(0, 0)]);
    assert_eq!(told(&mut hub, &sim), live(&sim));
}
