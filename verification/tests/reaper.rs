use netgol::coord::CoordMap;
use netgol::reaper::{pick_reapable, ReapInfo};

fn info(live: u32, frozen: bool) -> ReapInfo {
    ReapInfo { live_count: live, is_frozen: frozen }
}

#[test]
fn frozen_and_subscribed_are_immortal() {
    let mut chunks = CoordMap::new();
    chunks.insert((0, 0), info(5, true));
    chunks.insert((1, 0), info(5, false));
    chunks.insert((2, 0), info(5, false));
    let mut subs = CoordMap::new();
    subs.insert((1, 0), ());
    let reap = pick_reapable(&chunks, &subs, &CoordMap::new(), 0, 2);
    assert_eq!(reap, vec![(2, 0)]);
}

#[test]
fn under_cap_returns_empty() {
    let mut chunks = CoordMap::new();
    chunks.insert((0, 0), info(1, false));
    assert!(pick_reapable(&chunks, &CoordMap::new(), &CoordMap::new(), 0, 100).is_empty());
}

#[test]
fn reaps_oldest_first() {
    let mut chunks = CoordMap::new();
    chunks.insert((0, 0), info(5, false));
    chunks.insert((1, 0), info(5, false));
    chunks.insert((10, 10), info(5, false));
    let mut last_seen = CoordMap::new();
    last_seen.insert((0, 0), 100);
    last_seen.insert((1, 0), 90);
    last_seen.insert((10, 10), 0);
    let reap = pick_reapable(&chunks, &CoordMap::new(), &last_seen, 100, 1);
    assert_eq!(reap.len(), 2);
    assert!(reap.contains(&(10, 10)));
    assert!(reap.contains(&(1, 0)));
}

#[test]
fn among_equally_old_the_emptiest_and_farthest_go_first() {
    let mut chunks = CoordMap::new();
    chunks.insert((0, 0), info(5, false));
    chunks.insert((0, 1), info(2, false));
    chunks.insert((0, 9), info(2, false));
    chunks.insert((i32::MIN, i32::MIN), info(3, false));
    let reap = pick_reapable(&chunks, &CoordMap::new(), &CoordMap::new(), 8, 1);
    assert_eq!(reap, vec![(0, 9), (0, 1), (i32::MIN, i32::MIN)]);
}

#[test]
fn chunks_unseen_for_longest_go_first_however_long() {
    let mut chunks = CoordMap::new();
    chunks.insert((0, 0), info(5, false));
    chunks.insert((1, 0), info(5, false));
    chunks.insert((2, 0), info(5, false));
    let mut last_seen = CoordMap::new();
    last_seen.insert((0, 0), u64::MAX - 5);
    last_seen.insert((1, 0), 7);
    last_seen.insert((2, 0), 1 << 63);
    let reap = pick_reapable(&chunks, &CoordMap::new(), &last_seen, u64::MAX, 1);
    assert_eq!(reap, vec![(1, 0), (2, 0)]);
}
