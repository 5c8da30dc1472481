use netgol::chunk::Chunk;
use netgol::coord::{ChunkCoord, CoordMap};
use netgol::oscillator::Detector;
use netgol::world::{TickOutcome, World};
use netgol::{CHUNK_SIZE, CHUNK_SIZE_I64};
use std::collections::BTreeSet;

#[test]
fn glider_drifts_southeast() {
    // Standard glider at origin. After 4 ticks it has translated (+1, +1).
    let mut w = World::new();
    for &(x, y) in &[(1, 0), (2, 1), (0, 2), (1, 2), (2, 2)] {
        w.set_cell(x, y, true);
    }
    let initial: BTreeSet<(i64, i64)> = collect_live(&w);
    for _ in 0..4 {
        w.tick();
    }
    let after: BTreeSet<(i64, i64)> = collect_live(&w);
    let translated: BTreeSet<(i64, i64)> = initial.iter().map(|(x, y)| (x + 1, y + 1)).collect();
    assert_eq!(after, translated, "glider did not translate (+1,+1) in 4 ticks");
    assert_eq!(w.tick_number(), 4);
}

#[test]
fn glider_crosses_chunk_boundary() {
    let mut w = World::new();
    // Place near positive boundary so it walks into the next chunk.
    let bx = (CHUNK_SIZE as i64) - 4;
    let by = (CHUNK_SIZE as i64) - 4;
    for &(x, y) in &[(1, 0), (2, 1), (0, 2), (1, 2), (2, 2)] {
        w.set_cell(bx + x, by + y, true);
    }
    for _ in 0..16 {
        w.tick();
    }
    // Glider should have drifted +(4,4) - comfortably across the chunk seam.
    assert!(w.iter_chunks().len() >= 1);
    let live = collect_live(&w);
    assert_eq!(live.len(), 5);
}

#[test]
fn r_pentomino_grows_and_stabilizes_count() {
    // R-pentomino chaos test: just check it doesn't panic and population grows.
    let mut w = World::new();
    for &(x, y) in &[(1, 0), (2, 0), (0, 1), (1, 1), (1, 2)] {
        w.set_cell(x, y, true);
    }
    let initial = total_live(&w);
    for _ in 0..50 {
        w.tick();
    }
    assert!(total_live(&w) > initial);
}

#[test]
fn empty_chunks_are_dropped() {
    let mut w = World::new();
    // Lone cell dies on tick 1; chunk should be removed.
    w.set_cell(0, 0, true);
    assert_eq!(w.len(), 1);
    w.tick();
    assert_eq!(w.len(), 0);
}

#[test]
fn frozen_chunk_is_kept_when_empty() {
    let mut w = World::new();
    w.freeze_cell(0, 0, false);
    w.tick();
    assert_eq!(w.len(), 1);
    assert!(w.get_chunk(0, 0).unwrap().is_frozen());
}

fn collect_live(w: &World) -> BTreeSet<(i64, i64)> {
    let mut out = BTreeSet::new();
    for ((cx, cy), ch) in w.iter_chunks() {
        for y in 0..CHUNK_SIZE {
            for x in 0..CHUNK_SIZE {
                if ch.get(x, y) {
                    out.insert((
                        (cx as i64) * CHUNK_SIZE_I64 + x as i64,
                        (cy as i64) * CHUNK_SIZE_I64 + y as i64,
                    ));
                }
            }
        }
    }
    out
}

fn total_live(w: &World) -> u32 {
    w.iter_chunks().iter().map(|(_, c)| c.live_count()).sum()
}

fn place_blinker(w: &mut World, ox: i64, oy: i64) {
    for &(x, y) in &[(0, 1), (1, 1), (2, 1)] {
        w.set_cell(ox + x, oy + y, true);
    }
}

fn run_until_promoted(w: &mut World, det: &mut Detector, coord: ChunkCoord, max_ticks: u64) -> u8 {
    let mut outcome = TickOutcome::default();
    let mut promote_buf = Vec::new();
    for _ in 0..max_ticks {
        w.tick_into(&mut outcome);
        for r in outcome.hash_reports.drain(..) {
            det.observe(r);
        }
        promote_buf.clear();
        det.scan(64, &mut promote_buf);
        for req in promote_buf.drain(..) {
            if req.coord == coord && w.promote_oscillator(req.coord, req.period) {
                return req.period;
            }
        }
        if w.is_oscillating(coord) {
            return 0;
        }
    }
    panic!("chunk not promoted within {max_ticks} ticks");
}

#[test]
fn blinker_is_paused_after_detection() {
    let mut w = World::new();
    place_blinker(&mut w, 5, 5);
    let mut det = Detector::new();
    let period = run_until_promoted(&mut w, &mut det, (0, 0), 200);
    assert_eq!(period, 2, "blinker should be detected as period-2");
    assert!(w.is_oscillating((0, 0)));
    assert!(w.get_chunk(0, 0).is_some(), "paused chunk still visible via get_chunk");
    let live_before = total_live(&w);
    let mut outcome = TickOutcome::default();
    for _ in 0..50 {
        w.tick_into(&mut outcome);
        assert!(outcome.changed.is_empty(), "paused chunk emitted a change event");
    }
    assert!(w.is_oscillating((0, 0)));
    assert_eq!(total_live(&w), live_before);
}

#[test]
fn block_is_paused_as_period_one() {
    let mut w = World::new();
    for &(x, y) in &[(2, 2), (3, 2), (2, 3), (3, 3)] {
        w.set_cell(x, y, true);
    }
    let mut det = Detector::new();
    let period = run_until_promoted(&mut w, &mut det, (0, 0), 200);
    assert_eq!(period, 1, "block (still life) should be period 1");
    assert!(w.is_oscillating((0, 0)));
}

#[test]
fn paused_blinker_woken_by_glider_matches_plain_run() {
    // Two parallel worlds: one with detection, one without. Same starting
    // state - blinker in (0,0), glider entering from a neighbor chunk.
    // After all ticks both worlds must hold identical live cells.
    let mut paused = World::new();
    let mut plain = World::new();
    place_blinker(&mut paused, 5, 5);
    place_blinker(&mut plain, 5, 5);
    // Glider in chunk (-1, 0), heading southeast toward (0, 0).
    let glider_origin = (-(CHUNK_SIZE as i64) + 50, 30);
    for &(x, y) in &[(1, 0), (2, 1), (0, 2), (1, 2), (2, 2)] {
        paused.set_cell(glider_origin.0 + x, glider_origin.1 + y, true);
        plain.set_cell(glider_origin.0 + x, glider_origin.1 + y, true);
    }
    let mut det = Detector::new();
    run_until_promoted(&mut paused, &mut det, (0, 0), 50);
    assert!(paused.is_oscillating((0, 0)));
    let mut outcome = TickOutcome::default();
    let plain_target_tick = paused.tick_number() + 100;
    while plain.tick_number() < plain_target_tick {
        plain.tick();
    }
    for _ in 0..100 {
        paused.tick_into(&mut outcome);
        for r in outcome.hash_reports.drain(..) {
            det.observe(r);
        }
    }
    assert_eq!(paused.tick_number(), plain.tick_number());
    assert_eq!(collect_live(&paused), collect_live(&plain), "paused/plain diverged");
}

#[test]
fn edit_wakes_paused_chunk() {
    let mut w = World::new();
    place_blinker(&mut w, 5, 5);
    let mut det = Detector::new();
    run_until_promoted(&mut w, &mut det, (0, 0), 200);
    assert!(w.is_oscillating((0, 0)));
    assert!(w.wake_if_paused((0, 0)));
    assert!(!w.is_oscillating((0, 0)));
    assert!(w.get_chunk(0, 0).is_some());
    let pre_edit = collect_live(&w);
    w.set_cell(10, 10, true);
    let post_edit = collect_live(&w);
    assert_eq!(post_edit.len(), pre_edit.len() + 1);
}

#[test]
fn remove_chunk_drops_oscillator_entry() {
    let mut w = World::new();
    place_blinker(&mut w, 5, 5);
    let mut det = Detector::new();
    run_until_promoted(&mut w, &mut det, (0, 0), 200);
    assert!(w.is_oscillating((0, 0)));
    assert!(w.remove_chunk((0, 0)));
    assert!(!w.is_oscillating((0, 0)));
    assert!(w.get_chunk(0, 0).is_none());
}

#[test]
fn block_at_four_chunk_corner_is_still_life() {
    // 2x2 block straddling chunks (-1,-1), (0,-1), (-1,0), (0,0). Exercises
    // the four corner halo entries simultaneously.
    let mut w = World::new();
    for &(x, y) in &[(-1, -1), (0, -1), (-1, 0), (0, 0)] {
        w.set_cell(x, y, true);
    }
    let initial = collect_live(&w);
    for _ in 0..20 {
        w.tick();
    }
    assert_eq!(collect_live(&w), initial, "block straddling 4 chunks must be still life");
}

#[test]
fn birth_across_right_chunk_edge() {
    // Vertical 3-cell line at right edge of chunk (0,0) rotates to a
    // horizontal line, birthing one cell into chunk (1,0).
    let mut w = World::new();
    for &y in &[5i64, 6, 7] {
        w.set_cell(63, y, true);
    }
    w.tick();
    let expected: BTreeSet<(i64, i64)> = [(62, 6), (63, 6), (64, 6)].into_iter().collect();
    assert_eq!(collect_live(&w), expected);
}

#[test]
fn birth_across_left_chunk_edge() {
    let mut w = World::new();
    for &y in &[5i64, 6, 7] {
        w.set_cell(0, y, true);
    }
    w.tick();
    let expected: BTreeSet<(i64, i64)> = [(-1, 6), (0, 6), (1, 6)].into_iter().collect();
    assert_eq!(collect_live(&w), expected);
}

#[test]
fn birth_across_top_chunk_edge() {
    let mut w = World::new();
    for &x in &[5i64, 6, 7] {
        w.set_cell(x, 0, true);
    }
    w.tick();
    let expected: BTreeSet<(i64, i64)> = [(6, -1), (6, 0), (6, 1)].into_iter().collect();
    assert_eq!(collect_live(&w), expected);
}

#[test]
fn birth_across_bottom_chunk_edge() {
    let mut w = World::new();
    for &x in &[5i64, 6, 7] {
        w.set_cell(x, 63, true);
    }
    w.tick();
    let expected: BTreeSet<(i64, i64)> = [(6, 62), (6, 63), (6, 64)].into_iter().collect();
    assert_eq!(collect_live(&w), expected);
}

#[test]
fn glider_drifts_into_negative_chunk() {
    // 180-degree-rotated glider drifts (-1,-1). After 60 ticks it has
    // translated (-15,-15), crossing into chunk (-1,-1).
    let mut w = World::new();
    let off = 10i64;
    for &(x, y) in &[(0, 0), (1, 0), (2, 0), (0, 1), (1, 2)] {
        w.set_cell(off + x, off + y, true);
    }
    let initial: BTreeSet<(i64, i64)> = collect_live(&w);
    for _ in 0..60 {
        w.tick();
    }
    let translated: BTreeSet<(i64, i64)> = initial.iter().map(|(x, y)| (x - 15, y - 15)).collect();
    assert_eq!(collect_live(&w), translated);
}

#[test]
fn world_step_matches_brute_force_across_2x2_chunks() {
    // Random density across a 2x2 block of chunks; compared to a
    // cell-by-cell reference on an extended grid. Catches halo direction
    // bugs that any single-chunk test would miss.
    const SIDE: i64 = CHUNK_SIZE_I64 * 2;
    const TICKS: usize = 8;
    const PAD: i64 = TICKS as i64 + 1;
    const G: i64 = SIDE + 2 * PAD;

    let idx = |x: i64, y: i64| -> usize {
        let gx = (x + PAD) as usize;
        let gy = (y + PAD) as usize;
        gy * (G as usize) + gx
    };
    let in_bounds =
        |x: i64, y: i64| (-PAD..SIDE + PAD).contains(&x) && (-PAD..SIDE + PAD).contains(&y);

    let mut w = World::new();
    let mut grid = vec![false; (G * G) as usize];

    let mut rng: u64 = 0xdead_beef_cafe_babe;
    let mut next = || -> u64 {
        let mut x = rng;
        x ^= x << 13;
        x ^= x >> 7;
        x ^= x << 17;
        rng = x;
        x
    };
    for y in 0..SIDE {
        for x in 0..SIDE {
            if next() >> 63 == 1 {
                w.set_cell(x, y, true);
                grid[idx(x, y)] = true;
            }
        }
    }

    for _ in 0..TICKS {
        w.tick();
        let mut nxt = vec![false; grid.len()];
        for y in -PAD..SIDE + PAD {
            for x in -PAD..SIDE + PAD {
                let mut count = 0u8;
                for dy in -1i64..=1 {
                    for dx in -1i64..=1 {
                        if dx == 0 && dy == 0 {
                            continue;
                        }
                        if in_bounds(x + dx, y + dy) && grid[idx(x + dx, y + dy)] {
                            count += 1;
                        }
                    }
                }
                let alive = grid[idx(x, y)];
                nxt[idx(x, y)] = matches!((alive, count), (true, 2 | 3) | (false, 3));
            }
        }
        grid = nxt;
    }

    let world_at = |w: &World, x: i64, y: i64| -> bool {
        let cx = x.div_euclid(CHUNK_SIZE_I64) as i32;
        let cy = y.div_euclid(CHUNK_SIZE_I64) as i32;
        let lx = x.rem_euclid(CHUNK_SIZE_I64) as usize;
        let ly = y.rem_euclid(CHUNK_SIZE_I64) as usize;
        w.get_chunk(cx, cy).map_or(false, |c| c.get(lx, ly))
    };
    let mut mismatches = Vec::<(i64, i64, bool, bool)>::new();
    for y in -PAD..SIDE + PAD {
        for x in -PAD..SIDE + PAD {
            let wcell = world_at(&w, x, y);
            let gcell = grid[idx(x, y)];
            if wcell != gcell {
                mismatches.push((x, y, wcell, gcell));
            }
        }
    }
    assert!(
        mismatches.is_empty(),
        "world vs reference differ in {} cells; first {:?}",
        mismatches.len(),
        &mismatches[..mismatches.len().min(5)]
    );
}

#[test]
fn paused_chunk_wakes_to_correct_phase() {
    // For each skip offset, pause a fresh blinker, advance the tick, wake,
    // and compare to a non-paused reference world stepped to the same tick.
    for skipped in 0..6u64 {
        let mut paused = World::new();
        place_blinker(&mut paused, 5, 5);
        let mut det = Detector::new();
        run_until_promoted(&mut paused, &mut det, (0, 0), 200);
        assert!(paused.is_oscillating((0, 0)));
        let pause_tick = paused.tick_number();
        paused.set_tick_number(pause_tick + skipped);
        assert!(paused.wake_if_paused((0, 0)));
        let woken_rows = *paused.get_chunk(0, 0).unwrap().rows();

        let mut plain = World::new();
        place_blinker(&mut plain, 5, 5);
        while plain.tick_number() < pause_tick + skipped {
            plain.tick();
        }
        let plain_rows = *plain.get_chunk(0, 0).unwrap().rows();

        assert_eq!(woken_rows, plain_rows, "phase mismatch at skipped={skipped}");
    }
}

#[test]
fn perturbing_one_paused_chunk_does_not_wake_distant_neighbor() {
    // Two interior blinkers in adjacent chunks, both paused. A perturbation
    // entering only one chunk must not wake the other.
    let mut w = World::new();
    place_blinker(&mut w, 28, 28);
    place_blinker(&mut w, CHUNK_SIZE_I64 + 28, 28);
    let mut det = Detector::new();
    let mut outcome = TickOutcome::default();
    let mut promote_buf = Vec::new();
    for _ in 0..200 {
        if w.is_oscillating((0, 0)) && w.is_oscillating((1, 0)) {
            break;
        }
        w.tick_into(&mut outcome);
        for r in outcome.hash_reports.drain(..) {
            det.observe(r);
        }
        promote_buf.clear();
        det.scan(64, &mut promote_buf);
        for req in promote_buf.drain(..) {
            w.promote_oscillator(req.coord, req.period);
        }
    }
    assert!(w.is_oscillating((0, 0)) && w.is_oscillating((1, 0)));

    // Glider in chunk (-1,0), far from the (0,0)-(1,0) seam. Cannot reach
    // chunk (1,0) within 10 ticks (~2 cells of glider drift).
    for &(x, y) in &[(1i64, 0i64), (2, 1), (0, 2), (1, 2), (2, 2)] {
        w.set_cell(x - CHUNK_SIZE_I64 + 4, y + 30, true);
    }
    for _ in 0..10 {
        w.tick_into(&mut outcome);
        for r in outcome.hash_reports.drain(..) {
            det.observe(r);
        }
    }
    assert!(w.is_oscillating((1, 0)), "distant neighbor woke despite isolation");
}

#[test]
fn owned_chunks_take_no_births_from_outside() {
    // A line of cells on the right side of chunk (0,0) would give birth in chunk (1,0).
    let mut w = World::new();
    for &y in &[5i64, 6, 7] {
        w.set_cell(63, y, true);
    }
    let mut owned = CoordMap::new();
    owned.insert((1, 0), ());
    w.set_owned_chunks(owned);
    w.tick();
    let expected: BTreeSet<(i64, i64)> = [(62, 6), (63, 6)].into_iter().collect();
    assert_eq!(collect_live(&w), expected);
}

#[test]
fn frozen_cells_are_not_edited() {
    let mut w = World::new();
    w.freeze_cell(-1, -1, true);
    w.set_cell(-1, -1, false);
    assert_eq!(collect_live(&w), [(-1, -1)].into_iter().collect());
    w.unfreeze_cell(-1, -1);
    w.set_cell(-1, -1, false);
    assert!(collect_live(&w).is_empty());
}

#[test]
fn freeze_rect_pins_what_is_there() {
    let mut w = World::new();
    w.set_cell(63, 0, true);
    w.freeze_rect(62, -1, 4, 2);
    assert_eq!(w.coords(), vec![(0, -1), (0, 0), (1, -1), (1, 0)]);
    w.tick();
    assert_eq!(collect_live(&w), [(63, 0)].into_iter().collect());
    w.clear_all_frozen();
    w.tick();
    assert!(w.is_empty());
}

#[test]
fn chunks_can_be_put_and_found() {
    let mut w = World::new();
    let mut c = Chunk::empty();
    c.set(7, 8, true);
    w.insert_chunk((3, -4), c);
    assert!(w.get_live_chunk((3, -4)).unwrap().get(7, 8));
    assert!(w.get_paused_chunk((3, -4)).is_none());
    assert_eq!(w.oscillator_count(), 0);
    assert!(!w.promote_oscillator((0, 0), 1));
    assert!(w.promote_oscillator((3, -4), 1));
    assert!(w.get_live_chunk((3, -4)).is_none());
    assert!(w.get_paused_chunk((3, -4)).unwrap().get(7, 8));
    assert_eq!(w.len(), 1);
}

#[test]
fn frozen_or_touching_chunks_are_not_paused() {
    let mut w = World::new();
    w.freeze_cell(5, 5, true);
    assert!(!w.promote_oscillator((0, 0), 1));
    let mut v = World::new();
    v.set_cell(0, 5, true);
    assert!(!v.promote_oscillator((0, 0), 1));
    assert!(!v.promote_oscillator((0, 0), 0));
}

#[test]
fn worlds_at_the_edge_are_not_ready() {
    let mut w = World::new();
    assert!(w.ready());
    w.set_cell(i32::MAX as i64 * CHUNK_SIZE_I64 + 5, 0, true);
    assert!(!w.ready());
    let mut v = World::new();
    v.set_tick_number(u64::MAX);
    assert!(!v.ready());
    assert!(v.run_to(u64::MAX));
}

#[test]
fn run_to_stops_where_no_tick_can_be_taken() {
    let mut w = World::new();
    place_blinker(&mut w, 5, 5);
    assert!(w.run_to(3));
    assert_eq!(w.tick_number(), 3);
    assert!(w.run_to(2));
    assert_eq!(w.tick_number(), 3);
    w.set_cell(0, i32::MIN as i64 * CHUNK_SIZE_I64, true);
    assert!(!w.run_to(4));
    assert_eq!(w.tick_number(), 3);
}

#[test]
fn reports_do_not_depend_on_what_was_in_the_buffers() {
    let mut w1 = World::new();
    for (x, y) in [(5i64, 5i64), (6, 5), (7, 5), (62, 30), (63, 30), (64, 30), (200, 200), (-70, 3)] {
        w1.set_cell(x, y, true);
    }
    let mut w2 = w1.clone();
    let mut o1 = TickOutcome::default();
    let mut o2 = w1.clone().tick();
    o2.removed.push((77, 77));
    o2.changed.push((78, 78));
    o2.perturbation_wakes = 9;
    for _ in 0..3 {
        w1.tick_into(&mut o1);
        w2.tick_into(&mut o2);
        let sorted = |mut v: Vec<ChunkCoord>| {
            v.sort();
            v
        };
        let reports = |o: &TickOutcome| {
            let mut v: Vec<(ChunkCoord, u64, bool, u64)> =
                o.hash_reports.iter().map(|r| (r.coord, r.hash, r.halo_was_zero, r.tick)).collect();
            v.sort();
            v
        };
        assert_eq!(sorted(o1.changed.clone()), sorted(o2.changed.clone()));
        assert_eq!(sorted(o1.removed.clone()), sorted(o2.removed.clone()));
        assert_eq!(reports(&o1), reports(&o2));
        assert_eq!(o1.perturbation_wakes, o2.perturbation_wakes);
        assert_eq!(collect_live(&w1), collect_live(&w2));
        let copy = o2.clone();
        assert_eq!((copy.changed, copy.removed), (o2.changed.clone(), o2.removed.clone()));
    }
}

#[test]
fn a_clone_is_a_world_of_its_own() {
    let mut w = World::new();
    place_blinker(&mut w, 5, 5);
    w.set_cell(100, 100, true);
    assert!(w.promote_oscillator((0, 0), 2));
    let mut owned = CoordMap::new();
    owned.insert((1, 1), ());
    w.set_owned_chunks(owned);
    w.set_tick_number(4);
    let mut copy = w.clone();
    assert_eq!((copy.tick_number(), copy.len(), copy.oscillator_count()), (4, 2, 1));
    assert_eq!(collect_live(&copy), collect_live(&w));
    copy.set_cell(100, 101, true);
    assert!(copy.wake_if_paused((0, 0)));
    assert!(w.is_oscillating((0, 0)));
    assert_eq!(collect_live(&w).len() + 1, collect_live(&copy).len());
    assert!(World::default().is_empty());
}
