use netgol::bindings::{chunk_edges, edge_from_bytes, edge_to_bytes, step_chunk, WasmWorld};
use netgol::chunk::EdgeBundle;

fn bits(cells: &[(usize, usize)]) -> Vec<u8> {
    let mut b = vec![0u8; 512];
    for &(x, y) in cells {
        b[y * 8 + x / 8] |= 1 << (x % 8);
    }
    b
}

#[test]
fn edges_as_bytes() {
    let e = chunk_edges(&bits(&[(0, 0), (63, 1), (5, 63)]));
    let mut expected = vec![0u8; 33];
    expected[0] = 1;
    expected[8] = 1 << 5;
    expected[16] = 1;
    expected[24] = 2;
    expected[32] = 1;
    assert_eq!(e, expected);
}

#[test]
fn edge_bundles_roundtrip() {
    let e = EdgeBundle {
        top: 0x0123_4567_89ab_cdef,
        bottom: u64::MAX,
        left: 7,
        right: 1 << 63,
        corners: [1, 0, 1, 1],
    };
    let b = edge_to_bytes(&e);
    assert_eq!(b.len(), 33);
    assert_eq!(b[32], 0b1101);
    assert_eq!(edge_from_bytes(&b), e);
}

#[test]
fn blinker_steps_in_bytes() {
    let flat = bits(&[(4, 5), (5, 5), (6, 5)]);
    let upright = bits(&[(5, 4), (5, 5), (5, 6)]);
    let halo = vec![0u8; 33];
    assert_eq!(step_chunk(&flat, &halo, &[]), upright);
    assert_eq!(step_chunk(&upright, &halo, &[]), flat);
}

#[test]
fn births_come_from_the_halo() {
    // Three cells just above the chunk give birth to one inside.
    let mut halo = vec![0u8; 33];
    halo[0] = 0b0111_0000;
    assert_eq!(step_chunk(&bits(&[]), &halo, &[]), bits(&[(5, 0)]));
}

#[test]
fn frozen_cells_stay_in_bytes() {
    let flat = bits(&[(4, 5), (5, 5), (6, 5)]);
    let mask = bits(&[(4, 5), (5, 4)]);
    let halo = vec![0u8; 33];
    assert_eq!(step_chunk(&flat, &halo, &mask), bits(&[(4, 5), (5, 5), (5, 6)]));
}

#[test]
fn quiet_chunks_come_back_as_they_are() {
    let halo = vec![0u8; 33];
    assert_eq!(step_chunk(&bits(&[]), &halo, &[]), bits(&[]));
}

#[test]
fn world_in_the_browser() {
    let mut w = WasmWorld::new();
    for x in 0..3 {
        w.set_cell(x, 0, true);
    }
    assert!(w.countable());
    assert_eq!(w.live_count(), 3);
    assert!(w.ready());
    w.tick();
    assert_eq!(w.tick_number(), 1);
    assert_eq!(w.live_count(), 3);
    assert_eq!(WasmWorld::default().live_count(), 0);
}
