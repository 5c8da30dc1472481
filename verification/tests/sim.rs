use netgol::coord::CoordMap;
use netgol::group::collect_group;
use netgol::oscillator::{Detector, PromoteRequest};
use netgol::protocol::{rows_to_bits, EditCell};
use netgol::sim::Sim;
use netgol::world::World;

fn cell(cx: i32, cy: i32, lx: u8, ly: u8) -> EditCell {
    EditCell { cx, cy, lx, ly, alive: true }
}

fn blinker(w: &mut World, x: i64, y: i64) {
    for dx in 0..3 {
        w.set_cell(x + dx, y, true);
    }
}

#[test]
fn the_first_event_tells_all() {
    let mut w = World::new();
    w.set_tick_number(9);
    blinker(&mut w, 10, 10);
    w.freeze_cell(-5, -5, true);
    let sim = Sim::new(w, 600);
    let e = sim.initial_event();
    assert!(e.initial && !e.is_tick);
    assert_eq!((e.tick, e.live_count, e.changed.len()), (9, 2, 2));
    for s in &e.changed {
        let ch = sim.world().get_chunk(s.coord.0, s.coord.1).unwrap();
        assert_eq!(s.bits, rows_to_bits(ch.rows()));
        assert_eq!(s.frozen_mask.is_some(), s.coord == (-1, -1));
        assert_eq!(s.live_count, ch.live_count());
    }
}

#[test]
fn edits_wake_and_are_told_by_chunk() {
    let mut w = World::new();
    blinker(&mut w, 10, 10);
    assert!(w.promote_oscillator((0, 0), 2));
    let mut sim = Sim::new(w, 600);
    let mut det = Detector::new();
    let cells = vec![cell(1, 0, 5, 5), cell(0, 0, 20, 20), cell(1, 0, 6, 6)];
    let (e, wakes) = sim.edit(&mut det, &cells);
    assert_eq!(wakes, 1);
    assert!(!sim.world().is_oscillating((0, 0)));
    assert_eq!(
        e.edits,
        vec![((1, 0), vec![cells[0], cells[2]]), ((0, 0), vec![cells[1]])]
    );
    let told: Vec<(i32, i32)> = e.changed.iter().map(|s| s.coord).collect();
    assert_eq!(told, vec![(1, 0), (0, 0)]);
    assert_eq!(e.changed[1].live_count, 4);
    assert!(!e.is_tick && e.removed.is_empty());
}

#[test]
fn observed_chunks_are_woken_and_not_paused() {
    let mut w = World::new();
    blinker(&mut w, 10, 10);
    assert!(w.promote_oscillator((0, 0), 2));
    let mut sim = Sim::new(w, 600);
    let mut det = Detector::new();
    let e = sim.subscribe(&mut det, &vec![(0, 0), (5, 5)]).expect("woken");
    assert_eq!(e.changed.len(), 1);
    assert_eq!(e.changed[0].coord, (0, 0));
    assert!(sim.subscribe(&mut det, &vec![(0, 0)]).is_none());
    let req = vec![PromoteRequest { coord: (0, 0), period: 2 }];
    let p = sim.promote(&req, 16);
    assert_eq!((p.promotions, p.groups.len()), (0, 0));
    sim.unsubscribe(&vec![(0, 0)]);
    let p = sim.promote(&req, 16);
    assert_eq!(p.promotions, 1);
    assert!(sim.world().is_oscillating((0, 0)));
}

#[test]
fn reaped_chunks_are_gone() {
    let mut w = World::new();
    blinker(&mut w, 10, 10);
    blinker(&mut w, 100, 10);
    assert!(w.promote_oscillator((0, 0), 2));
    let mut sim = Sim::new(w, 600);
    sim.reap(&mut Detector::new(), &vec![(0, 0), (1, 0), (7, 7)]);
    assert!(sim.world().is_empty());
}

#[test]
fn ticks_feed_the_detector_until_chunks_are_paused() {
    let mut w = World::new();
    blinker(&mut w, 10, 10);
    let mut sim = Sim::new(w, 4);
    let mut det = Detector::new();
    let mut snapshots = Vec::new();
    let mut paused_at = None;
    for t in 1..=60u64 {
        assert!(sim.ready());
        let r = sim.tick(&mut det);
        assert!(r.event.is_tick && !r.event.initial);
        assert_eq!(r.event.tick, t);
        assert_eq!(r.event.live_count, 1);
        if r.snapshot {
            snapshots.push(t);
        }
        if paused_at.is_none() {
            assert_eq!(r.event.changed.len(), 1);
        } else {
            assert!(r.event.changed.is_empty());
        }
        let mut found = Vec::new();
        det.scan(10, &mut found);
        if sim.promote(&found, 16).promotions > 0 {
            paused_at = Some(t);
        }
    }
    assert!(paused_at.is_some());
    assert_eq!(snapshots[..3], [4, 8, 12]);
}

#[test]
fn ticks_tell_of_what_dies() {
    let mut w = World::new();
    w.set_cell(5, 5, true);
    let mut sim = Sim::new(w, 600);
    let r = sim.tick(&mut Detector::new());
    assert_eq!(r.event.removed, vec![(0, 0)]);
    assert!(r.event.changed.is_empty());
    assert_eq!(r.event.live_count, 0);
}

#[test]
fn owned_chunks_are_replaced() {
    let mut w = World::new();
    for y in 5..8 {
        w.set_cell(63, y, true);
    }
    let mut sim = Sim::new(w, 600);
    let mut owned = CoordMap::new();
    owned.insert((1, 0), ());
    sim.set_owned(owned);
    sim.tick(&mut Detector::new());
    assert!(sim.world().get_chunk(1, 0).is_none());
    sim.set_owned(CoordMap::new());
}

#[test]
fn groups_are_what_hangs_together() {
    let mut w = World::new();
    // (0,0) and (1,0) touch over a side; (1,0) and (2,1) over a corner; (9,9) is apart.
    w.set_cell(63, 30, true);
    w.set_cell(64, 30, true);
    w.set_cell(127, 63, true);
    w.set_cell(128, 64, true);
    w.set_cell(9 * 64 + 30, 9 * 64 + 30, true);
    let nobody = CoordMap::new();
    // The corner cell of (1,0) also touches (2,0) and (1,1), which are not live.
    assert_eq!(collect_group((0, 0), &w, &nobody, 16), None);
    w.set_cell(129, 10, true);
    w.set_cell(70, 70, true);
    let mut g = collect_group((0, 0), &w, &nobody, 16).expect("group");
    g.sort();
    assert_eq!(g, vec![(0, 0), (1, 0), (1, 1), (2, 0), (2, 1)]);
    assert_eq!(collect_group((2, 1), &w, &nobody, 5).map(|g| g.len()), Some(5));
    assert_eq!(collect_group((0, 0), &w, &nobody, 4), None);
    assert_eq!(collect_group((9, 9), &w, &nobody, 16), None);
    assert_eq!(collect_group((5, 5), &w, &nobody, 16), None);
    let mut watched = CoordMap::new();
    watched.insert((2, 1), ());
    assert_eq!(collect_group((0, 0), &w, &watched, 16), None);
}

#[test]
fn failed_requests_look_for_their_group() {
    let mut w = World::new();
    // A block across the side between two chunks.
    for &(x, y) in &[(63i64, 30i64), (64, 30), (63, 31), (64, 31)] {
        w.set_cell(x, y, true);
    }
    let mut sim = Sim::new(w, 600);
    let reqs = vec![
        PromoteRequest { coord: (0, 0), period: 1 },
        PromoteRequest { coord: (4, 4), period: 3 },
    ];
    let p = sim.promote(&reqs, 16);
    assert_eq!(p.promotions, 0);
    assert_eq!(p.groups.len(), 1);
    let (mut members, period) = (p.groups[0].0.clone(), p.groups[0].1);
    members.sort();
    assert_eq!((members, period), (vec![(0, 0), (1, 0)], 1));
}

#[test]
fn no_tick_where_the_next_snapshot_has_no_tick() {
    let mut w = World::new();
    w.set_tick_number(u64::MAX - 10);
    assert!(Sim::new(w, 9).ready());
    let mut v = World::new();
    v.set_tick_number(u64::MAX - 10);
    assert!(!Sim::new(v, 10).ready());
}
