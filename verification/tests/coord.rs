use netgol::coord::{pack, unpack, CoordMap};
use netgol::sort::sorted;

#[test]
fn coordinates_are_packed_and_unpacked() {
    for c in [(0, 0), (-1, 1), (i32::MIN, i32::MAX), (i32::MAX, i32::MIN), (7, -7)] {
        assert_eq!(unpack(pack(c)), c);
    }
    assert_eq!(pack((1, 2)), 0x1_0000_0002);
    assert_eq!(pack((0, -1)), 0xffff_ffff);
}

#[test]
fn maps_by_coordinate() {
    let mut m: CoordMap<u32> = CoordMap::new();
    assert!(m.is_empty());
    assert_eq!(m.insert((1, -1), 5), None);
    assert_eq!(m.insert((1, -1), 6), Some(5));
    assert_eq!(m.get(&(1, -1)), Some(&6));
    assert_eq!(m.get(&(-1, 1)), None);
    *m.slot((2, 2), 10) += 1;
    *m.slot((2, 2), 10) += 1;
    assert_eq!(m.get(&(2, 2)), Some(&12));
    if let Some(v) = m.get_mut(&(1, -1)) {
        *v = 0;
    }
    assert_eq!(m.len(), 2);
    let mut keys = m.keys();
    keys.sort();
    assert_eq!(keys, vec![(1, -1), (2, 2)]);
    assert_eq!(m.remove(&(1, -1)), Some(0));
    assert_eq!(m.remove(&(1, -1)), None);
    m.clear();
    assert!(m.is_empty());
}

#[test]
fn coordinates_are_sorted() {
    let v = vec![(3, 1), (-2, 9), (3, -1), (0, 0), (-2, 8)];
    assert_eq!(sorted(&v), vec![(-2, 8), (-2, 9), (0, 0), (3, -1), (3, 1)]);
}
