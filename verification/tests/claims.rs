use netgol::claims::{Claim, ClaimManager};
use netgol::protocol::{Region, FLAG_FROZEN, FLAG_LOCKED, FLAG_OWNED};

fn manager() -> ClaimManager {
    ClaimManager::new(Vec::new(), 3, 2)
}

#[test]
fn claims_are_placed_moved_and_given_up() {
    let mut m = manager();
    let none: Vec<Region> = Vec::new();
    assert!(m.try_create(7, 0, 0, &none));
    assert_eq!(m.find_for_user(7), Some((0, 0)));
    let regions = m.build_regions(&none);
    assert!(m.try_create(7, 1, 1, &regions));
    assert_eq!(m.claims, vec![Claim { user_id: 7, cx: 1, cy: 1 }]);
    assert!(m.try_delete(7));
    assert!(!m.try_delete(7));
    assert_eq!(m.find_for_user(7), None);
}

#[test]
fn claims_do_not_overlap_what_is_locked_or_frozen() {
    let mut m = manager();
    assert!(m.try_create(7, 0, 0, &[]));
    let regions = m.build_regions(&[]);
    assert!(!m.try_create(8, 2, 1, &regions));
    assert!(m.try_create(8, 3, 0, &regions));
    let open = [Region { x: 0, y: 0, w: 640, h: 640, flags: FLAG_OWNED, owner: 1 }];
    assert!(m.try_create(9, 0, 0, &open));
    let frozen = [Region { x: 191, y: 127, w: 1, h: 1, flags: FLAG_FROZEN, owner: 0 }];
    assert!(!m.try_create(9, 0, 0, &frozen));
    let beside = [Region { x: 192, y: 0, w: 1, h: 1, flags: FLAG_FROZEN, owner: 0 }];
    assert!(m.try_create(9, 0, 0, &beside));
}

#[test]
fn claims_make_regions_and_owned_chunks() {
    let m = ClaimManager::new(vec![Claim { user_id: 5, cx: -1, cy: 2 }], 3, 2);
    let fixed = [Region { x: 9, y: 9, w: 1, h: 1, flags: FLAG_LOCKED, owner: 0 }];
    assert_eq!(
        m.build_regions(&fixed)[..],
        [
            fixed[0],
            Region { x: -64, y: 128, w: 192, h: 128, flags: FLAG_LOCKED | FLAG_OWNED, owner: 5 },
        ]
    );
    let mut set = m.owned_chunk_set().keys();
    set.sort();
    assert_eq!(set, vec![(-1, 2), (-1, 3), (0, 2), (0, 3), (1, 2), (1, 3)]);
    let mut map = m.owned_coord_map().keys();
    map.sort();
    assert_eq!(set, map);
}

#[test]
fn claims_at_the_edge_do_not_fit() {
    let m = manager();
    assert!(m.fits(i32::MAX - 2, i32::MAX - 1));
    assert!(!m.fits(i32::MAX - 1, 0));
    assert!(!m.fits(0, i32::MAX));
    let n = ClaimManager::new(vec![Claim { user_id: 1, cx: i32::MAX, cy: 0 }], 3, 2);
    assert!(m.all_fit());
    assert!(!n.all_fit());
}

#[test]
fn claims_are_deleted_whatever_their_size() {
    let mut m = ClaimManager::new(vec![Claim { user_id: 4, cx: 0, cy: 0 }], 0, 0);
    assert!(!m.try_delete(5));
    assert!(m.try_delete(4));
    assert!(!m.try_delete(4));
}
