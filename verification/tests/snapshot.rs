use netgol::snapshot::{load, serialize, SnapshotError};
use netgol::world::World;

#[test]
fn roundtrip() {
    let mut w = World::new();
    for i in 0..50 {
        w.set_cell(i, i * 2, true);
    }
    w.freeze_cell(-100, -100, true);
    for _ in 0..7 {
        w.tick();
    }
    let loaded = load(&serialize(&w)).unwrap();
    assert_eq!(loaded.tick_number(), w.tick_number());
    assert_eq!(loaded.len(), w.len());
    for (c, c2) in w.coords().into_iter().zip(loaded.coords()) {
        let ch = w.get_chunk(c.0, c.1).unwrap();
        let ch2 = loaded.get_chunk(c2.0, c2.1).unwrap();
        assert_eq!(c, c2);
        assert_eq!(ch.rows(), ch2.rows());
        assert_eq!(ch.frozen.is_some(), ch2.frozen.is_some());
    }
}

#[test]
fn empty_world_layout() {
    let mut w = World::new();
    w.set_tick_number(0x0102);
    let buf = serialize(&w);
    assert_eq!(buf[..8], *b"LAZOSWLD");
    assert_eq!(buf[8..], [1, 0, 0, 0, 64, 2, 1, 0, 0, 0, 0, 0, 0, 0, 0, 0, 0]);
}

#[test]
fn snapshots_do_not_depend_on_the_order_of_edits() {
    let cells = [(0i64, 0i64), (-100, 7), (300, -5), (64, 64), (-1, -1)];
    let mut a = World::new();
    let mut b = World::new();
    for &(x, y) in &cells {
        a.set_cell(x, y, true);
    }
    for &(x, y) in cells.iter().rev() {
        b.set_cell(x, y, true);
    }
    assert_eq!(serialize(&a), serialize(&b));
}

#[test]
fn paused_chunks_are_stored() {
    let mut w = World::new();
    w.set_cell(10, 10, true);
    assert!(w.promote_oscillator((0, 0), 1));
    let loaded = load(&serialize(&w)).unwrap();
    assert_eq!(loaded.oscillator_count(), 0);
    assert!(loaded.get_chunk(0, 0).unwrap().get(10, 10));
}

#[test]
fn bad_snapshots_are_rejected() {
    let mut w = World::new();
    w.freeze_cell(1, 1, true);
    let good = serialize(&w);
    for n in 0..good.len() {
        assert_eq!(load(&good[..n]).err(), Some(SnapshotError::Truncated));
    }
    let mut magic = good.clone();
    magic[7] = b'X';
    assert_eq!(load(&magic).err(), Some(SnapshotError::BadMagic));
    let mut version = good.clone();
    version[8] = 2;
    assert_eq!(load(&version).err(), Some(SnapshotError::BadVersion(2)));
    let mut size = good.clone();
    size[12] = 32;
    assert_eq!(load(&size).err(), Some(SnapshotError::BadChunkSize(32)));
    // What follows the chunks does not matter.
    let mut more = good.clone();
    more.push(9);
    assert!(load(&more).is_ok());
}
