use netgol::chunk::{kernel_scalar, Chunk, EdgeBundle, FrozenMask, StepResult};
use netgol::CHUNK_SIZE;
use std::sync::Arc;

const ROW_MASK: u64 = u64::MAX;

fn reference_step(chunk: &Chunk, halo: &EdgeBundle) -> Chunk {
    let n = CHUNK_SIZE as i32;
    let neighbor = |x: i32, y: i32| -> bool {
        if x < 0 && y < 0 {
            halo.corners[0] != 0
        } else if x >= n && y < 0 {
            halo.corners[1] != 0
        } else if x < 0 && y >= n {
            halo.corners[2] != 0
        } else if x >= n && y >= n {
            halo.corners[3] != 0
        } else if y < 0 {
            (halo.top >> x) & 1 == 1
        } else if y >= n {
            (halo.bottom >> x) & 1 == 1
        } else if x < 0 {
            (halo.left >> y) & 1 == 1
        } else if x >= n {
            (halo.right >> y) & 1 == 1
        } else {
            chunk.get(x as usize, y as usize)
        }
    };
    let mut rows = [0u64; CHUNK_SIZE];
    for y in 0..CHUNK_SIZE {
        for x in 0..CHUNK_SIZE {
            let mut count = 0u8;
            for dy in -1i32..=1 {
                for dx in -1i32..=1 {
                    if dx == 0 && dy == 0 {
                        continue;
                    }
                    if neighbor(x as i32 + dx, y as i32 + dy) {
                        count += 1;
                    }
                }
            }
            let alive = chunk.get(x, y);
            if matches!((alive, count), (true, 2 | 3) | (false, 3)) {
                rows[y] |= 1u64 << x;
            }
        }
    }
    let frozen = chunk.frozen.clone();
    if let Some(m) = frozen.as_ref() {
        for y in 0..CHUNK_SIZE {
            rows[y] = (rows[y] & !m.mask[y]) | (m.value[y] & m.mask[y]);
        }
    }
    Chunk::from_rows_and_frozen(rows, frozen)
}

struct Xs(u64);

impl Xs {
    fn next(&mut self) -> u64 {
        let mut x = self.0;
        x ^= x << 13;
        x ^= x >> 7;
        x ^= x << 17;
        self.0 = x;
        x
    }

    fn rows(&mut self) -> [u64; CHUNK_SIZE] {
        let mut rows = [0u64; CHUNK_SIZE];
        for r in &mut rows {
            *r = self.next() & ROW_MASK;
        }
        rows
    }

    fn halo(&mut self) -> EdgeBundle {
        EdgeBundle {
            top: self.next() & ROW_MASK,
            bottom: self.next() & ROW_MASK,
            left: self.next() & ROW_MASK,
            right: self.next() & ROW_MASK,
            corners: [
                (self.next() & 1) as u8,
                (self.next() & 1) as u8,
                (self.next() & 1) as u8,
                (self.next() & 1) as u8,
            ],
        }
    }
}

#[test]
fn bit_parallel_matches_reference_random() {
    let mut rng = Xs(0x00de_adbe_efc0_ffee);
    for _ in 0..64 {
        let chunk = Chunk::from_rows_and_frozen(rng.rows(), None);
        let halo = rng.halo();
        let actual = chunk.step(&halo).into_chunk(&chunk);
        assert_eq!(actual, reference_step(&chunk, &halo));
    }
}

#[test]
fn frozen_chunks_match_reference_random() {
    let mut rng = Xs(0x0bad_cafe_1234_5678);
    for _ in 0..16 {
        let mask = FrozenMask { mask: rng.rows(), value: rng.rows() };
        let chunk = Chunk::from_rows_and_frozen(rng.rows(), Some(Arc::new(mask)));
        let halo = rng.halo();
        let actual = chunk.step(&halo).into_chunk(&chunk);
        assert_eq!(actual, reference_step(&chunk, &halo));
    }
}

#[test]
fn blinker_oscillates() {
    let mut c = Chunk::empty();
    c.set(1, 1, true);
    c.set(2, 1, true);
    c.set(3, 1, true);
    let halo = EdgeBundle::empty();
    let next = c.step(&halo).into_chunk(&c);
    assert!(next.get(2, 0) && next.get(2, 1) && next.get(2, 2));
    assert_eq!(next.live_count(), 3);
    assert_eq!(next.step(&halo).into_chunk(&next), c);
}

#[test]
fn block_is_still() {
    let mut c = Chunk::empty();
    c.set(1, 1, true);
    c.set(2, 1, true);
    c.set(1, 2, true);
    c.set(2, 2, true);
    assert_eq!(c.step(&EdgeBundle::empty()).into_chunk(&c), c);
}

#[test]
fn empty_stays_empty() {
    assert_eq!(
        Chunk::empty().step(&EdgeBundle::empty()),
        StepResult::Unchanged
    );
}

#[test]
fn avx2_is_empty_matches_scalar() {
    let mut rng = Xs(0xfeed_face_dead_beef);
    for _ in 0..64 {
        let mut rows = [0u64; CHUNK_SIZE];
        if rng.next() & 1 == 1 {
            let idx = (rng.next() as usize) % CHUNK_SIZE;
            let bit = rng.next() & ROW_MASK;
            if bit != 0 {
                rows[idx] = bit;
            }
        }
        let scalar = rows.iter().all(|r| *r == 0);
        let empty = Chunk::from_rows_and_frozen(rows, None).is_empty();
        assert_eq!(scalar, empty, "is_empty disagrees on rows {:?}", rows);
    }
}

#[test]
fn avx2_matches_scalar_random() {
    let mut rng = Xs(0x1234_5678_9abc_def0);
    for _ in 0..64 {
        let rows = rng.rows();
        let halo = rng.halo();
        let mut scalar_out = [0u64; CHUNK_SIZE];
        kernel_scalar(&rows, &halo, &mut scalar_out);
        let chunk = Chunk::from_rows_and_frozen(rows, None);
        assert_eq!(&scalar_out, reference_step(&chunk, &halo).rows());
    }
}

#[test]
fn frozen_cells_persist() {
    let mut c = Chunk::empty();
    c.freeze(5, 5, true);
    let next = c.step(&EdgeBundle::empty()).into_chunk(&c);
    assert!(next.get(5, 5));
    assert!(next.is_frozen());
}

#[test]
fn frozen_cells_are_not_set() {
    let mut c = Chunk::empty();
    c.freeze(3, 4, true);
    c.set(3, 4, false);
    assert!(c.get(3, 4));
    c.unfreeze(3, 4);
    c.set(3, 4, false);
    assert!(!c.get(3, 4));
}

#[test]
fn empty_halo_is_zero() {
    assert!(EdgeBundle::empty().is_zero());
    let corner = EdgeBundle { top: 0, bottom: 0, left: 0, right: 0, corners: [0, 0, 1, 0] };
    assert!(!corner.is_zero());
}

#[test]
fn edges_of_the_corners() {
    let mut c = Chunk::empty();
    c.set(0, 0, true);
    c.set(63, 63, true);
    let e = c.edges();
    assert_eq!(e.top, 1);
    assert_eq!(e.bottom, 1 << 63);
    assert_eq!(e.left, 1);
    assert_eq!(e.right, 1 << 63);
    assert_eq!(e.corners, [1, 0, 0, 1]);
    assert!(c.has_edge_toward(-1, -1));
    assert!(c.has_edge_toward(0, -1));
    assert!(!c.has_edge_toward(1, -1));
}

#[test]
fn live_count_counts_all_rows() {
    let full = Chunk::from_rows_and_frozen([u64::MAX; CHUNK_SIZE], None);
    assert_eq!(full.live_count(), 4096);
    assert_eq!(Chunk::empty().live_count(), 0);
}

#[test]
fn hash_depends_on_where_cells_are() {
    let mut a = Chunk::empty();
    a.set(1, 2, true);
    let mut b = Chunk::empty();
    b.set(2, 1, true);
    assert_eq!(Chunk::empty().hash_state(), 0xc382c3ee07f1139d);
    assert_eq!(a.hash_state(), 0x5cdf203c40322764);
    assert_ne!(a.hash_state(), b.hash_state());
}
