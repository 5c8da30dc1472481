use netgol::protocol::EditCell;
use netgol::snapshot::serialize;
use netgol::wal::{check_wal_header, encode_record, replay_into, wal_header, WalError};
use netgol::world::World;

fn cell(cx: i32, cy: i32, lx: u8, ly: u8) -> EditCell {
    EditCell { cx, cy, lx, ly, alive: true }
}

#[test]
fn header_layout() {
    let h = wal_header(64);
    assert_eq!(h[..8], *b"LAZOSWAL");
    assert_eq!(h[8..], [1, 0, 0, 0, 64]);
    assert_eq!(check_wal_header(&h, 64), Ok(()));
}

#[test]
fn bad_headers_are_rejected() {
    let good = wal_header(64);
    for n in 0..good.len() {
        assert_eq!(check_wal_header(&good[..n], 64), Err(WalError::Truncated));
    }
    let mut magic = good.clone();
    magic[0] = b'X';
    assert_eq!(check_wal_header(&magic, 64), Err(WalError::BadMagic));
    let mut version = good.clone();
    version[9] = 1;
    assert_eq!(check_wal_header(&version, 64), Err(WalError::BadVersion(257)));
    assert_eq!(check_wal_header(&good, 32), Err(WalError::BadChunkSize(64)));
}

#[test]
fn record_layout() {
    let r = encode_record(3, &vec![cell(1, -1, 2, 63)]);
    assert_eq!(
        r,
        vec![3, 0, 0, 0, 0, 0, 0, 0, 1, 0, 0, 0, 1, 0, 0, 0, 0xff, 0xff, 0xff, 0xff, 2, 63, 1]
    );
}

#[test]
fn replay_gives_the_world_that_lived_through_the_edits() {
    let first = vec![cell(0, 0, 1, 0), cell(0, 0, 2, 1), cell(0, 0, 0, 2)];
    let second = vec![cell(0, 0, 1, 2), cell(0, 0, 2, 2), cell(-1, 0, 63, 9)];
    let mut live = World::new();
    for c in &first {
        live.set_cell(c.cx as i64 * 64 + c.lx as i64, c.cy as i64 * 64 + c.ly as i64, c.alive);
    }
    for _ in 0..5 {
        live.tick();
    }
    for c in &second {
        live.set_cell(c.cx as i64 * 64 + c.lx as i64, c.cy as i64 * 64 + c.ly as i64, c.alive);
    }

    let mut log = wal_header(64);
    log.extend(encode_record(0, &first));
    log.extend(encode_record(5, &second));
    let mut back = World::new();
    assert_eq!(replay_into(&mut back, &log, 64), Ok(2));
    assert_eq!(serialize(&back), serialize(&live));
}

#[test]
fn records_that_the_world_is_past_are_skipped() {
    let mut log = wal_header(64);
    log.extend(encode_record(4, &vec![cell(0, 0, 1, 1)]));
    log.extend(encode_record(9, &vec![cell(0, 0, 5, 5)]));
    let mut w = World::new();
    w.set_tick_number(5);
    assert_eq!(replay_into(&mut w, &log, 64), Ok(1));
    assert_eq!(w.tick_number(), 9);
    assert!(w.get_chunk(0, 0).unwrap().get(5, 5));
    assert!(!w.get_chunk(0, 0).unwrap().get(1, 1));
}

#[test]
fn broken_logs() {
    let mut w = World::new();
    assert_eq!(replay_into(&mut w, &wal_header(64), 64), Ok(0));
    let mut log = wal_header(64);
    log.extend(encode_record(0, &vec![cell(0, 0, 1, 1)]));
    // A torn tick at the end is the end.
    let mut torn = log.clone();
    torn.extend([1, 2, 3]);
    assert_eq!(replay_into(&mut w, &torn, 64), Ok(1));
    // A torn record is not.
    log.pop();
    assert_eq!(replay_into(&mut w, &log, 64), Err(WalError::Truncated));
    // Nor is a cell that has no coordinates.
    let mut far = wal_header(64);
    far.extend(encode_record(0, &vec![cell(i32::MAX, 0, 64, 0)]));
    assert_eq!(replay_into(&mut w, &far, 64), Err(WalError::OutOfRange));
}
