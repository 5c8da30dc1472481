use netgol::coord::ChunkCoord;
use netgol::oscillator::{Detector, HashReport, HISTORY};

fn rep(coord: ChunkCoord, hash: u64, tick: u64) -> HashReport {
    HashReport { coord, hash, halo_was_zero: true, tick }
}

#[test]
fn detects_still_life_period_1() {
    let mut d = Detector::new();
    for t in 0..HISTORY as u64 {
        d.observe(rep((0, 0), 42, t));
    }
    let mut out = Vec::new();
    d.scan(64, &mut out);
    assert_eq!(out.len(), 1);
    assert_eq!(out[0].period, 1);
}

#[test]
fn detects_blinker_period_2() {
    let mut d = Detector::new();
    for t in 0..HISTORY as u64 {
        let h = if t % 2 == 0 { 100 } else { 200 };
        d.observe(rep((0, 0), h, t));
    }
    let mut out = Vec::new();
    d.scan(64, &mut out);
    assert_eq!(out.len(), 1);
    assert_eq!(out[0].period, 2);
}

#[test]
fn detects_period_3() {
    let mut d = Detector::new();
    let cycle = [11u64, 22, 33];
    for t in 0..HISTORY as u64 {
        d.observe(rep((0, 0), cycle[(t as usize) % 3], t));
    }
    let mut out = Vec::new();
    d.scan(64, &mut out);
    assert_eq!(out.len(), 1);
    assert_eq!(out[0].period, 3);
}

#[test]
fn poisoned_by_nonzero_halo() {
    let mut d = Detector::new();
    for t in 0..HISTORY as u64 {
        d.observe(rep((0, 0), 42, t));
    }
    d.observe(HashReport { coord: (0, 0), hash: 42, halo_was_zero: false, tick: HISTORY as u64 });
    let mut out = Vec::new();
    d.scan(64, &mut out);
    assert!(out.is_empty());
}

#[test]
fn budget_caps_scan() {
    let mut d = Detector::new();
    for c in 0..10 {
        for t in 0..HISTORY as u64 {
            d.observe(rep((c, 0), 99, t));
        }
    }
    let mut out = Vec::new();
    d.scan(3, &mut out);
    assert_eq!(out.len(), 3);
    out.clear();
    d.scan(3, &mut out);
    assert_eq!(out.len(), 3);
}

#[test]
fn promote_self_prunes_ring() {
    let mut d = Detector::new();
    for t in 0..HISTORY as u64 {
        d.observe(rep((0, 0), 42, t));
    }
    let mut out = Vec::new();
    d.scan(64, &mut out);
    assert_eq!(out.len(), 1);
    assert_eq!(d.len(), 0, "promoted ring should be pruned");
}

#[test]
fn random_pattern_does_not_falsely_promote() {
    let mut d = Detector::new();
    let mut x = 0xdead_beef_u64;
    for t in 0..HISTORY as u64 {
        x = x.wrapping_mul(6364136223846793005).wrapping_add(1442695040888963407);
        d.observe(rep((0, 0), x, t));
    }
    let mut out = Vec::new();
    d.scan(64, &mut out);
    assert!(out.is_empty());
}

#[test]
fn forget_removes_ring() {
    let mut d = Detector::new();
    for t in 0..HISTORY as u64 {
        d.observe(rep((0, 0), 42, t));
    }
    assert_eq!(d.len(), 1);
    d.forget((0, 0));
    assert_eq!(d.len(), 0);
    let mut out = Vec::new();
    d.scan(64, &mut out);
    assert!(out.is_empty(), "scan after forget yields nothing");
}

#[test]
fn pending_chunks_are_queued_once() {
    let mut d = Detector::new();
    for t in 0..2 * HISTORY as u64 {
        d.observe(rep((4, -4), 7, t));
    }
    assert_eq!(d.pending_len(), 1);
    assert!(!d.is_empty());
}
