use netgol::chunk::{Chunk, FrozenMask};
use netgol::coord::{ChunkCoord, CoordMap};
use netgol::oscillator::{Detector, HashReport, PromoteRequest};
use netgol::sim::Sim;
use netgol::world::World;
use netgol::CHUNK_SIZE;
use std::collections::BTreeSet;
use std::sync::Arc;

/// A blinker over the border of chunks (0, 0) and (1, 0).
fn straddle(w: &mut World) {
    for x in 62..65 {
        w.set_cell(x, 10, true);
    }
}

/// A block over the corner that four chunks share.
fn corner_block(w: &mut World) {
    for (x, y) in [(63, 63), (64, 63), (63, 64), (64, 64)] {
        w.set_cell(x, y, true);
    }
}

fn glider(w: &mut World, x: i64, y: i64) {
    for (dx, dy) in [(1, 0), (2, 1), (0, 2), (1, 2), (2, 2)] {
        w.set_cell(x + dx, y + dy, true);
    }
}

fn wake_all(w: &mut World) {
    for c in w.coords() {
        w.wake_if_paused(c);
    }
}

fn cells(w: &World) -> BTreeSet<(i64, i64)> {
    let mut out = BTreeSet::new();
    for ((cx, cy), ch) in w.iter_chunks() {
        for y in 0..CHUNK_SIZE {
            for x in 0..CHUNK_SIZE {
                if ch.get(x, y) {
                    out.insert((i64::from(cx) * 64 + x as i64, i64::from(cy) * 64 + y as i64));
                }
            }
        }
    }
    out
}

const PAIR: [ChunkCoord; 2] = [(0, 0), (1, 0)];
const FOUR: [ChunkCoord; 4] = [(0, 0), (1, 0), (0, 1), (1, 1)];

#[test]
fn a_group_that_repeats_itself_is_paused() {
    let mut w = World::new();
    straddle(&mut w);
    assert!(!w.promote_oscillator((0, 0), 2));
    assert!(w.promote_oscillator_group(&PAIR, 2));
    assert_eq!((w.oscillator_count(), w.live_len(), w.len()), (2, 0, 2));
    let out = w.tick();
    assert!(out.changed.is_empty() && out.hash_reports.is_empty());
    assert_eq!(w.oscillator_count(), 2);
    wake_all(&mut w);
    let want: BTreeSet<(i64, i64)> = [(63, 9), (63, 10), (63, 11)].into_iter().collect();
    assert_eq!(cells(&w), want);
}

#[test]
fn a_still_life_over_four_chunks_is_paused() {
    let mut w = World::new();
    corner_block(&mut w);
    let before = cells(&w);
    assert!(w.promote_oscillator_group(&FOUR, 1));
    for _ in 0..3 {
        w.tick();
    }
    assert_eq!(w.oscillator_count(), 4);
    wake_all(&mut w);
    assert_eq!(cells(&w), before);
}

#[test]
fn groups_are_refused() {
    let fresh = || {
        let mut w = World::new();
        straddle(&mut w);
        w
    };
    let refuses = |w: &mut World, members: &[ChunkCoord], period: u8| {
        let before = cells(w);
        assert!(!w.promote_oscillator_group(members, period));
        assert_eq!(w.oscillator_count(), 0);
        assert_eq!(cells(w), before);
    };
    // No such period.
    refuses(&mut fresh(), &PAIR, 0);
    refuses(&mut fresh(), &PAIR, 6);
    // Not as before after the period.
    refuses(&mut fresh(), &PAIR, 1);
    refuses(&mut fresh(), &PAIR, 3);
    // A chunk is missing.
    refuses(&mut fresh(), &[(0, 0), (1, 0), (7, 7)], 2);
    // It touches a chunk that is not of the group.
    refuses(&mut fresh(), &[(0, 0)], 2);
    refuses(&mut fresh(), &[(1, 0)], 2);
    // A chunk with frozen cells.
    let mut w = fresh();
    w.freeze_cell(70, 40, false);
    refuses(&mut w, &PAIR, 2);
    // Something outside touches it.
    let mut w = fresh();
    w.set_cell(-1, 40, true);
    refuses(&mut w, &PAIR, 2);
    // Twice the period is a period too.
    assert!(fresh().promote_oscillator_group(&PAIR, 4));
    // On the rim of the coordinate range.
    let mut w = World::new();
    let mut ch = Chunk::empty();
    ch.set(10, 10, true);
    w.insert_chunk((i32::MAX, 0), ch);
    assert!(!w.promote_oscillator_group(&[(i32::MAX, 0)], 1));
}

#[test]
fn a_group_wakes_together() {
    let mut w = World::new();
    corner_block(&mut w);
    let before = cells(&w);
    assert!(w.promote_oscillator_group(&FOUR, 1));
    assert!(w.wake_if_paused((1, 1)));
    assert_eq!(w.oscillator_count(), 3);
    let out = w.tick();
    assert_eq!(out.perturbation_wakes, 3);
    assert_eq!(out.changed, vec![(0, 0), (0, 1), (1, 0)]);
    assert_eq!(w.oscillator_count(), 0);
    assert_eq!(cells(&w), before);
}

#[test]
fn a_group_wakes_where_one_of_it_is_gone() {
    let mut w = World::new();
    corner_block(&mut w);
    let mut plain = World::new();
    corner_block(&mut plain);
    assert!(w.promote_oscillator_group(&FOUR, 1));
    assert!(w.remove_chunk((1, 1)));
    plain.remove_chunk((1, 1));
    w.tick();
    plain.tick();
    assert_eq!(w.oscillator_count(), 0);
    assert_eq!(cells(&w), cells(&plain));
}

#[test]
fn a_group_wakes_where_one_of_it_changes_hands() {
    let mut w = World::new();
    straddle(&mut w);
    let mut plain = World::new();
    straddle(&mut plain);
    assert!(w.promote_oscillator_group(&PAIR, 2));
    for world in [&mut w, &mut plain] {
        let mut owned = CoordMap::new();
        owned.insert((0, 0), ());
        world.set_owned_chunks(owned);
    }
    for _ in 0..5 {
        w.tick();
        plain.tick();
        assert_eq!(w.oscillator_count(), 0);
        assert_eq!(cells(&w), cells(&plain));
    }
}

#[test]
fn nothing_is_paused_beside_a_group_that_leans_on_it() {
    let mut w = World::new();
    corner_block(&mut w);
    assert!(w.promote_oscillator_group(&FOUR, 1));
    assert!(w.wake_if_paused((1, 1)));
    w.set_cell(64, 64, false);
    w.set_cell(100, 100, true);
    // Alone it would be sealed, but paused neighbors have cells next to it.
    assert!(!w.promote_oscillator((1, 1), 1));
    assert!(!w.promote_oscillator_group(&[(1, 1)], 1));
}

#[test]
fn paused_group_woken_by_glider_matches_plain_run() {
    for delay in 0..4 {
        let mut paused = World::new();
        let mut plain = World::new();
        for w in [&mut paused, &mut plain] {
            straddle(w);
            glider(w, -30, -25);
            for _ in 0..2 * delay {
                w.tick();
            }
        }
        assert!(paused.promote_oscillator_group(&PAIR, 2));
        let mut woken = false;
        for _ in 0..200 {
            paused.tick();
            plain.tick();
            woken = woken || paused.oscillator_count() == 0;
        }
        assert!(woken);
        wake_all(&mut paused);
        assert_eq!(paused.tick_number(), plain.tick_number());
        assert_eq!(cells(&paused), cells(&plain));
    }
}

#[test]
fn pauses_do_not_show_beside_frozen_cells_that_differ_from_their_pins() {
    let mut paused = World::new();
    let mut plain = World::new();
    for w in [&mut paused, &mut plain] {
        let mut mask = FrozenMask::empty();
        mask.mask[5] = 0b1100;
        mask.value[5] = 0b0100;
        let mut rows = [0u64; CHUNK_SIZE];
        rows[5] = 0b1000;
        w.insert_chunk((3, 0), Chunk::from_rows_and_frozen(rows, Some(Arc::new(mask))));
        straddle(w);
        for x in 300..303 {
            w.set_cell(x, 300, true);
        }
    }
    assert!(paused.promote_oscillator((4, 4), 2));
    assert!(paused.promote_oscillator_group(&PAIR, 2));
    for _ in 0..7 {
        paused.tick();
        plain.tick();
    }
    wake_all(&mut paused);
    assert_eq!(cells(&paused), cells(&plain));
    assert!(plain.get_chunk(3, 0).unwrap().get(2, 5));
    assert!(!plain.get_chunk(3, 0).unwrap().get(3, 5));
}

#[test]
fn the_sim_pauses_each_group_once_and_forgets_it() {
    let mut w = World::new();
    straddle(&mut w);
    for (x, y) in [(319, 63), (320, 63), (319, 64), (320, 64)] {
        w.set_cell(x, y, true);
    }
    let mut sim = Sim::new(w, 600);
    let mut det = Detector::new();
    for coord in [(0, 0), (1, 0), (9, 9)] {
        det.observe(HashReport { coord, hash: 1, halo_was_zero: true, tick: 0 });
    }
    let reqs = vec![
        PromoteRequest { coord: (0, 0), period: 2 },
        PromoteRequest { coord: (1, 0), period: 2 },
        PromoteRequest { coord: (5, 1), period: 1 },
        PromoteRequest { coord: (i32::MAX, 0), period: 1 },
    ];
    assert!(sim.can_promote(&reqs));
    let found = sim.promote(&reqs, 16);
    assert_eq!((found.promotions, found.groups.len()), (0, 3));
    assert_eq!(sim.promote_groups(&mut det, &found.groups), 6);
    assert_eq!(sim.world().oscillator_count(), 6);
    assert_eq!(det.len(), 1);
    assert_eq!(sim.promote_groups(&mut det, &found.groups), 0);
    let r = sim.tick(&mut det);
    assert_eq!(r.wakes, 0);
    assert!(r.event.changed.is_empty());
    let e = sim.subscribe(&mut det, &vec![(0, 0)]).expect("woken");
    assert_eq!(e.changed.len(), 1);
    let r = sim.tick(&mut det);
    assert_eq!(r.wakes, 1);
    assert_eq!(sim.world().oscillator_count(), 4);
}

#[test]
fn chunks_on_the_rim_stop_a_promotion_only_where_they_are_looked_at() {
    let mut w = World::new();
    let mut ch = Chunk::empty();
    ch.set(10, 10, true);
    w.insert_chunk((i32::MAX, 0), ch);
    let mut sim = Sim::new(w, 600);
    let req = |period: u8| vec![PromoteRequest { coord: (i32::MAX, 0), period }];
    assert!(!sim.can_promote(&req(1)));
    assert!(sim.can_promote(&req(0)));
    sim.subscribe(&mut Detector::new(), &vec![(i32::MAX, 0)]);
    assert!(sim.can_promote(&req(1)));
    assert_eq!(sim.promote(&req(1), 16).promotions, 0);
}

#[test]
fn a_clone_has_its_groups() {
    let mut w = World::new();
    straddle(&mut w);
    assert!(w.promote_oscillator_group(&PAIR, 2));
    let mut copy = w.clone();
    copy.tick();
    w.tick();
    assert_eq!((copy.oscillator_count(), w.oscillator_count()), (2, 2));
    wake_all(&mut copy);
    wake_all(&mut w);
    assert_eq!(cells(&copy), cells(&w));
}
