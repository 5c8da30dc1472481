//! `CHUNK_SIZE x CHUNK_SIZE` packed-bitset chunk and its bit-parallel step.

use crate::bits;
use crate::shared;
use crate::CHUNK_SIZE;
use std::sync::Arc;
use vstd::prelude::*;

verus! {

/// Multiplier of [`Chunk::hash_state`].
pub const HASH_MIX_K: u64 = 0x9E37_79B9_7F4A_7C15;

/// One as a number if `b` holds, else zero.
pub open spec fn count(b: bool) -> int {
    if b {
        1
    } else {
        0
    }
}

/// Live cells among the eight neighbors of `(x, y)` in the plane `f`.
pub open spec fn neighbors(f: spec_fn(int, int) -> bool, x: int, y: int) -> int {
    count(f(x - 1, y - 1)) + count(f(x, y - 1)) + count(f(x + 1, y - 1)) + count(f(x - 1, y))
        + count(f(x + 1, y)) + count(f(x - 1, y + 1)) + count(f(x, y + 1)) + count(
        f(x + 1, y + 1),
    )
}

/// Conway's rule (B3/S23): whether a cell lives on, given its state and its live neighbors.
pub open spec fn life(alive: bool, n: int) -> bool {
    n == 3 || (alive && n == 2)
}

/// Whether `(x, y)` lies just outside a chunk, on one of its sides or corners.
pub open spec fn on_rim(x: int, y: int) -> bool {
    &&& -1 <= x <= CHUNK_SIZE
    &&& -1 <= y <= CHUNK_SIZE
    &&& !(0 <= x < CHUNK_SIZE && 0 <= y < CHUNK_SIZE)
}

/// Whether nothing lives just outside the chunk that `plane` is centered on.
pub open spec fn quiet(plane: spec_fn(int, int) -> bool) -> bool {
    forall|x: int, y: int| on_rim(x, y) ==> !#[trigger] plane(x, y)
}

/// Halo around a chunk under step: 4 edges (each as one `u64`) + 4 corner bits.
#[derive(Debug, Clone, Copy, PartialEq, Eq)]
pub struct EdgeBundle {
    pub top: u64,
    pub bottom: u64,
    pub left: u64,
    pub right: u64,
    /// TL, TR, BL, BR
    pub corners: [u8; 4],
}

impl EdgeBundle {
    /// The halo cell at `(x, y)`, where a coordinate of -1 or `CHUNK_SIZE` lies just
    /// outside the chunk. Only the lowest bit of a corner counts.
    pub open spec fn at(self, x: int, y: int) -> bool {
        if y < 0 {
            if x < 0 {
                self.corners[0] & 1 == 1
            } else if x >= CHUNK_SIZE {
                self.corners[1] & 1 == 1
            } else {
                bits::bit(self.top, x)
            }
        } else if y >= CHUNK_SIZE {
            if x < 0 {
                self.corners[2] & 1 == 1
            } else if x >= CHUNK_SIZE {
                self.corners[3] & 1 == 1
            } else {
                bits::bit(self.bottom, x)
            }
        } else if x < 0 {
            bits::bit(self.left, y)
        } else {
            bits::bit(self.right, y)
        }
    }

    /// Every edge word and every corner byte is zero.
    pub open spec fn zero(self) -> bool {
        &&& self.top == 0
        &&& self.bottom == 0
        &&& self.left == 0
        &&& self.right == 0
        &&& forall|k: int| 0 <= k < 4 ==> self.corners[k] == 0
    }

    /// This halo holds what `plane` has just outside the chunk that it is centered on.
    pub open spec fn holds(self, plane: spec_fn(int, int) -> bool) -> bool {
        &&& forall|x: int, y: int| #[trigger] on_rim(x, y) ==> self.at(x, y) == plane(x, y)
        &&& self.zero() == quiet(plane)
    }

    /// A halo with nothing alive.
    pub fn empty() -> (e: Self)
        ensures
            e.zero(),
    {
        Self { top: 0, bottom: 0, left: 0, right: 0, corners: [0u8;4] }
    }

    /// Whether nothing is set anywhere in the halo.
    pub fn is_zero(&self) -> (z: bool)
        ensures
            z == self.zero(),
    {
        let z: bool = self.top == 0 && self.bottom == 0 && self.left == 0 && self.right == 0
            && self.corners[0] == 0 && self.corners[1] == 0 && self.corners[2] == 0
            && self.corners[3] == 0;
        assert(z ==> forall|k: int| 0 <= k < 4 ==> self.corners[k] == 0);
        z
    }
}

impl Default for EdgeBundle {
    fn default() -> (e: Self)
        ensures
            e.zero(),
    {
        Self::empty()
    }
}

/// The plane that a chunk with these rows sees: its own cells, and the halo around them.
pub open spec fn padded(rows: Seq<u64>, halo: EdgeBundle) -> spec_fn(int, int) -> bool {
    |x: int, y: int|
        if 0 <= x < CHUNK_SIZE && 0 <= y < CHUNK_SIZE {
            bits::bit(rows[y], x)
        } else {
            halo.at(x, y)
        }
}

/// Bits of `n[0..k]` at position `x`, summed.
spec fn bit_sum(n: Seq<u64>, k: nat, x: int) -> int
    decreases k,
{
    if k == 0 {
        0
    } else {
        bit_sum(n, (k - 1) as nat, x) + count(bits::bit(n[k - 1], x))
    }
}

/// The four-bit number that the counter words hold at position `x`.
spec fn counter(s0: u64, s1: u64, s2: u64, s3: u64, x: int) -> int {
    count(bits::bit(s0, x)) + 2 * count(bits::bit(s1, x)) + 4 * count(bits::bit(s2, x)) + 8 * count(bits::bit(s3, x))
}

proof fn lemma_bit_sum_bound(n: Seq<u64>, k: nat, x: int)
    ensures
        0 <= bit_sum(n, k, x) <= k,
    decreases k,
{
    if k > 0 {
        lemma_bit_sum_bound(n, (k - 1) as nat, x);
    }
}

/// One row of the next generation. `n` holds, for each column, the eight neighbors of the
/// cells of `mid`, in any order; they are added up by a half-adder cascade.
fn next_row(n: &[u64; 8], mid: u64) -> (r: u64)
    ensures
        forall|x: int|
            0 <= x < 64 ==> #[trigger] bits::bit(r, x) == life(bits::bit(mid, x), bit_sum(n@, 8, x)),
{
    let mut s0: u64 = 0;
    let mut s1: u64 = 0;
    let mut s2: u64 = 0;
    let mut s3: u64 = 0;
    let mut k: usize = 0;
    proof {
        assert forall|x: int| 0 <= x < 64 implies #[trigger] counter(s0, s1, s2, s3, x) == bit_sum(
            n@,
            0,
            x,
        ) by {
            bits::lemma_bit_zero(x);
        }
    }
    while k < 8
        invariant
            k <= 8,
            forall|x: int|
                0 <= x < 64 ==> #[trigger] counter(s0, s1, s2, s3, x) == bit_sum(n@, k as nat, x),
        decreases 8 - k,
    {
        let w = n[k];
        let c0 = s0 & w;
        let t0 = s0 ^ w;
        let c1 = s1 & c0;
        let t1 = s1 ^ c0;
        let c2 = s2 & c1;
        let t2 = s2 ^ c1;
        let t3 = s3 | c2;
        proof {
            assert forall|x: int| 0 <= x < 64 implies #[trigger] counter(t0, t1, t2, t3, x)
                == bit_sum(n@, (k + 1) as nat, x) by {
                bits::lemma_bit_ops(s0, w, x);
                bits::lemma_bit_ops(s1, c0, x);
                bits::lemma_bit_ops(s2, c1, x);
                bits::lemma_bit_ops(s3, c2, x);
                assert(counter(s0, s1, s2, s3, x) == bit_sum(n@, k as nat, x));
                lemma_bit_sum_bound(n@, k as nat, x);
            }
        }
        s0 = t0;
        s1 = t1;
        s2 = t2;
        s3 = t3;
        k = k + 1;
    }
    let r = !s3 & !s2 & s1 & (s0 | mid);
    proof {
        assert forall|x: int| 0 <= x < 64 implies #[trigger] bits::bit(r, x) == life(
            bits::bit(mid, x),
            bit_sum(n@, 8, x),
        ) by {
            bits::lemma_bit_ops(s0, mid, x);
            bits::lemma_bit_ops(s3, s3, x);
            bits::lemma_bit_ops(s2, s2, x);
            bits::lemma_bit_ops(!s3, !s2, x);
            bits::lemma_bit_ops(!s3 & !s2, s1, x);
            bits::lemma_bit_ops(!s3 & !s2 & s1, s0 | mid, x);
            assert(counter(s0, s1, s2, s3, x) == bit_sum(n@, 8, x));
            lemma_bit_sum_bound(n@, 8, x);
        }
    }
    r
}

/// Row `y` of the padded plane, for `-1 <= y <= CHUNK_SIZE`.
fn row_at(rows: &[u64; CHUNK_SIZE], halo: &EdgeBundle, y: i32) -> (r: u64)
    requires
        -1 <= y <= CHUNK_SIZE,
    ensures
        forall|x: int| 0 <= x < CHUNK_SIZE ==> #[trigger] bits::bit(r, x) == padded(rows@, *halo)(x, y as int),
{
    if y < 0 {
        halo.top
    } else if y as usize >= CHUNK_SIZE {
        halo.bottom
    } else {
        rows[y as usize]
    }
}

/// The halo cell left of row `y`, as a number.
fn left_bit(halo: &EdgeBundle, y: i32) -> (b: u64)
    requires
        -1 <= y <= CHUNK_SIZE,
    ensures
        b <= 1,
        (b == 1) == halo.at(-1, y as int),
{
    if y < 0 {
        corner_bit(halo.corners[0])
    } else if y as usize >= CHUNK_SIZE {
        corner_bit(halo.corners[2])
    } else {
        proof {
            bits::lemma_bit_value(halo.left, y as int);
        }
        (halo.left >> (y as u64)) & 1
    }
}

/// The halo cell right of row `y`, as a number.
fn right_bit(halo: &EdgeBundle, y: i32) -> (b: u64)
    requires
        -1 <= y <= CHUNK_SIZE,
    ensures
        b <= 1,
        (b == 1) == halo.at(CHUNK_SIZE as int, y as int),
{
    if y < 0 {
        corner_bit(halo.corners[1])
    } else if y as usize >= CHUNK_SIZE {
        corner_bit(halo.corners[3])
    } else {
        proof {
            bits::lemma_bit_value(halo.right, y as int);
        }
        (halo.right >> (y as u64)) & 1
    }
}

/// The lowest bit of a corner byte.
fn corner_bit(c: u8) -> (b: u64)
    ensures
        b <= 1,
        (b == 1) == (c & 1 == 1),
{
    assert(c & 1 == 0 || c & 1 == 1) by (bit_vector);
    (c & 1) as u64
}

/// One step of every cell against the supplied halo, without regard to frozen cells.
///
/// Bit-parallel half-adder cascade across the 8 shifted neighbor rows.
pub fn kernel_scalar(
    rows: &[u64; CHUNK_SIZE],
    halo: &EdgeBundle,
    out_rows: &mut [u64; CHUNK_SIZE],
)
    ensures
        forall|x: int, y: int|
            0 <= x < CHUNK_SIZE && 0 <= y < CHUNK_SIZE ==> #[trigger] bits::bit(final(out_rows)[y], x)
                == life(bits::bit(rows[y], x), neighbors(padded(rows@, *halo), x, y)),
{
    let mut y: usize = 0;
    while y < CHUNK_SIZE
        invariant
            y <= CHUNK_SIZE,
            forall|x: int, v: int|
                0 <= x < CHUNK_SIZE && 0 <= v < y ==> #[trigger] bits::bit(out_rows[v], x) == life(
                    bits::bit(rows[v], x),
                    neighbors(padded(rows@, *halo), x, v),
                ),
        decreases CHUNK_SIZE - y,
    {
        let yi: i32 = y as i32;
        let mid = rows[y];
        let top = row_at(rows, halo, yi - 1);
        let bot = row_at(rows, halo, yi + 1);
        let lt = left_bit(halo, yi - 1);
        let lm = left_bit(halo, yi);
        let lb = left_bit(halo, yi + 1);
        let rt = right_bit(halo, yi - 1);
        let rm = right_bit(halo, yi);
        let rb = right_bit(halo, yi + 1);
        let n: [u64; 8] = [
            (top << 1) | lt,
            top,
            (top >> 1) | (rt << 63),
            (mid << 1) | lm,
            (mid >> 1) | (rm << 63),
            (bot << 1) | lb,
            bot,
            (bot >> 1) | (rb << 63),
        ];
        let r = next_row(&n, mid);
        proof {
            let f = padded(rows@, *halo);
            assert forall|x: int| 0 <= x < CHUNK_SIZE implies #[trigger] bits::bit(r, x) == life(
                bits::bit(rows[y as int], x),
                neighbors(f, x, y as int),
            ) by {
                bits::lemma_bit_shl1(top, lt, x);
                bits::lemma_bit_shr1(top, rt, x);
                bits::lemma_bit_shl1(mid, lm, x);
                bits::lemma_bit_shr1(mid, rm, x);
                bits::lemma_bit_shl1(bot, lb, x);
                bits::lemma_bit_shr1(bot, rb, x);
                assert(bits::bit(n[0], x) == f(x - 1, y - 1));
                assert(bits::bit(n[1], x) == f(x, y - 1));
                assert(bits::bit(n[2], x) == f(x + 1, y - 1));
                assert(bits::bit(n[3], x) == f(x - 1, y as int));
                assert(bits::bit(n[4], x) == f(x + 1, y as int));
                assert(bits::bit(n[5], x) == f(x - 1, y + 1));
                assert(bits::bit(n[6], x) == f(x, y + 1));
                assert(bits::bit(n[7], x) == f(x + 1, y + 1));
                reveal_with_fuel(bit_sum, 9);
            }
        }
        let ghost before = out_rows@;
        out_rows[y] = r;
        assert(out_rows@ == before.update(y as int, r));
        y = y + 1;
    }
}

/// Per-chunk frozen-cell mask. `mask` bits = "frozen here", `value` bits = pinned alive/dead.
#[derive(Debug, PartialEq, Eq)]
pub struct FrozenMask {
    pub mask: [u64; CHUNK_SIZE],
    pub value: [u64; CHUNK_SIZE],
}

impl Clone for FrozenMask {
    fn clone(&self) -> (m: Self)
        ensures
            m == *self,
    {
        FrozenMask { mask: self.mask, value: self.value }
    }
}

impl FrozenMask {
    /// A mask that freezes nothing.
    pub fn empty() -> (m: Self)
        ensures
            forall|y: int| 0 <= y < CHUNK_SIZE ==> m.mask[y] == 0 && m.value[y] == 0,
    {
        Self { mask: [0u64;CHUNK_SIZE], value: [0u64;CHUNK_SIZE] }
    }
}

/// One row per `u64`; bit `x` of `rows[y]` = cell at `(x, y)`.
#[derive(Debug, PartialEq, Eq)]
pub struct Chunk {
    pub rows: [u64; CHUNK_SIZE],
    pub frozen: Option<Arc<FrozenMask>>,
}

/// Outcome of [`Chunk::step`]. `Unchanged` only fires on the empty + zero-halo
/// early-out so callers can skip insert without paying for a clone.
#[derive(Debug, PartialEq, Eq)]
pub enum StepResult {
    Unchanged,
    Stepped(Chunk),
}

impl Clone for StepResult {
    fn clone(&self) -> (r: Self)
        ensures
            r == *self,
    {
        match self {
            StepResult::Unchanged => StepResult::Unchanged,
            StepResult::Stepped(c) => StepResult::Stepped(c.clone()),
        }
    }
}

impl StepResult {
    /// The chunk after the step that began at `source`.
    pub open spec fn chunk(self, source: Chunk) -> Chunk {
        match self {
            StepResult::Unchanged => source,
            StepResult::Stepped(c) => c,
        }
    }

    /// The chunk after the step that began at `source`.
    pub fn into_chunk(self, source: &Chunk) -> (c: Chunk)
        ensures
            c == self.chunk(*source),
    {
        match self {
            StepResult::Unchanged => source.clone(),
            StepResult::Stepped(c) => c,
        }
    }
}

impl Clone for Chunk {
    fn clone(&self) -> (c: Self)
        ensures
            c == *self,
    {
        let frozen = match &self.frozen {
            Some(m) => Some(shared::share(m)),
            None => None,
        };
        Chunk { rows: self.rows, frozen }
    }
}

impl Default for Chunk {
    fn default() -> (c: Self)
        ensures
            c.blank(),
            c.frozen is None,
    {
        Self::empty()
    }
}

impl Chunk {
    /// Whether the cell at `(x, y)` is alive.
    pub open spec fn cell(self, x: int, y: int) -> bool {
        bits::bit(self.rows[y], x)
    }

    /// Whether no cell is alive.
    pub open spec fn blank(self) -> bool {
        forall|x: int, y: int|
            0 <= x < CHUNK_SIZE && 0 <= y < CHUNK_SIZE ==> !#[trigger] self.cell(x, y)
    }

    /// Whether the cell at `(x, y)` is frozen.
    pub open spec fn frozen_at(self, x: int, y: int) -> bool {
        match self.frozen {
            Some(m) => bits::bit(m.mask[y], x),
            None => false,
        }
    }

    /// The value that the mask holds for the cell at `(x, y)`.
    pub open spec fn pinned_at(self, x: int, y: int) -> bool {
        match self.frozen {
            Some(m) => bits::bit(m.value[y], x),
            None => false,
        }
    }

    /// Every frozen cell has the value that it is pinned to.
    pub open spec fn pins_hold(self) -> bool {
        forall|x: int, y: int|
            0 <= x < CHUNK_SIZE && 0 <= y < CHUNK_SIZE && self.frozen_at(x, y) ==> self.cell(x, y)
                == #[trigger] self.pinned_at(x, y)
    }

    /// The cell at `(x, y)` one generation on, where `plane` holds the cells around it.
    pub open spec fn next_cell(self, plane: spec_fn(int, int) -> bool, x: int, y: int) -> bool {
        if self.frozen_at(x, y) {
            self.pinned_at(x, y)
        } else {
            life(plane(x, y), neighbors(plane, x, y))
        }
    }

    /// `next` is this chunk one generation on, where `plane` holds its cells and those around it.
    pub open spec fn evolves(self, plane: spec_fn(int, int) -> bool, next: Chunk) -> bool {
        &&& next.frozen == self.frozen
        &&& forall|x: int, y: int|
            0 <= x < CHUNK_SIZE && 0 <= y < CHUNK_SIZE ==> #[trigger] next.cell(x, y)
                == self.next_cell(plane, x, y)
    }

    /// The plane that this chunk sees inside `halo`.
    pub open spec fn within(self, halo: EdgeBundle) -> spec_fn(int, int) -> bool {
        padded(self.rows@, halo)
    }

    /// `next` is this chunk with the cell at `(x, y)` set to `alive`, unless that cell is frozen.
    pub open spec fn sets(self, x: int, y: int, alive: bool, next: Chunk) -> bool {
        &&& next.frozen == self.frozen
        &&& forall|i: int, j: int|
            0 <= i < CHUNK_SIZE && 0 <= j < CHUNK_SIZE ==> #[trigger] next.cell(i, j) == (if i == x
                && j == y && !self.frozen_at(i, j) {
                alive
            } else {
                self.cell(i, j)
            })
    }

    /// This chunk with the cell at `(x, y)` set to `alive`, unless that cell is frozen.
    pub open spec fn setting(self, x: int, y: int, alive: bool) -> Chunk {
        choose|next: Chunk| self.sets(x, y, alive, next)
    }

    /// Setting a cell has one outcome.
    pub proof fn lemma_setting(self, x: int, y: int, alive: bool, next: Chunk)
        requires
            self.sets(x, y, alive, next),
        ensures
            next == self.setting(x, y, alive),
    {
        let other = self.setting(x, y, alive);
        assert(self.sets(x, y, alive, other));
        next.lemma_equal(other);
    }

    /// `next` is this chunk with the cell at `(x, y)` frozen at `alive`.
    pub open spec fn freezes(self, x: int, y: int, alive: bool, next: Chunk) -> bool {
        &&& next.frozen is Some
        &&& forall|i: int, j: int|
            0 <= i < CHUNK_SIZE && 0 <= j < CHUNK_SIZE ==> #[trigger] next.cell(i, j) == (if i == x
                && j == y {
                alive
            } else {
                self.cell(i, j)
            })
        &&& forall|i: int, j: int|
            0 <= i < CHUNK_SIZE && 0 <= j < CHUNK_SIZE ==> #[trigger] next.frozen_at(i, j) == (i
                == x && j == y || self.frozen_at(i, j))
        &&& forall|i: int, j: int|
            0 <= i < CHUNK_SIZE && 0 <= j < CHUNK_SIZE ==> #[trigger] next.pinned_at(i, j) == (if i
                == x && j == y {
                alive
            } else {
                self.pinned_at(i, j)
            })
    }

    /// `next` is this chunk with the cell at `(x, y)` no longer frozen. It keeps no mask that
    /// would hold no cell.
    pub open spec fn unfreezes(self, x: int, y: int, next: Chunk) -> bool {
        &&& next.rows == self.rows
        &&& forall|i: int, j: int|
            0 <= i < CHUNK_SIZE && 0 <= j < CHUNK_SIZE ==> #[trigger] next.frozen_at(i, j) == (
            self.frozen_at(i, j) && !(i == x && j == y))
        &&& next.frozen is Some ==> {
            &&& exists|i: int, j: int|
                0 <= i < CHUNK_SIZE && 0 <= j < CHUNK_SIZE && #[trigger] next.frozen_at(i, j)
            &&& forall|i: int, j: int|
                0 <= i < CHUNK_SIZE && 0 <= j < CHUNK_SIZE ==> #[trigger] next.pinned_at(i, j) == (
                self.pinned_at(i, j) && !(i == x && j == y))
        }
    }

    /// A chunk with nothing alive and nothing frozen.
    pub fn empty() -> (c: Self)
        ensures
            c.blank(),
            c.frozen is None,
            forall|y: int| 0 <= y < CHUNK_SIZE ==> c.rows[y] == 0,
    {
        let c = Self { rows: [0u64;CHUNK_SIZE], frozen: None };
        proof {
            c.lemma_blank();
        }
        c
    }

    /// A chunk of the given rows and frozen mask, taken as they are.
    pub fn from_rows_and_frozen(
        rows: [u64; CHUNK_SIZE],
        frozen: Option<Arc<FrozenMask>>,
    ) -> (c: Self)
        ensures
            c.rows == rows,
            c.frozen == frozen,
    {
        Self { rows, frozen }
    }

    pub fn rows(&self) -> (r: &[u64; CHUNK_SIZE])
        ensures
            *r == self.rows,
    {
        &self.rows
    }

    pub fn get(&self, x: usize, y: usize) -> (alive: bool)
        requires
            x < CHUNK_SIZE,
            y < CHUNK_SIZE,
        ensures
            alive == self.cell(x as int, y as int),
    {
        (self.rows[y] >> (x as u64)) & 1 == 1
    }

    /// Set cell `(x, y)`; a frozen cell silently keeps its value.
    pub fn set(&mut self, x: usize, y: usize, alive: bool)
        requires
            x < CHUNK_SIZE,
            y < CHUNK_SIZE,
        ensures
            old(self).sets(x as int, y as int, alive, *final(self)),
    {
        if let Some(m) = &self.frozen {
            if (m.mask[y] >> (x as u64)) & 1 == 1 {
                return ;
            }
        }
        self.write_cell(x, y, alive);
    }

    /// Set cell `(x, y)`, frozen or not.
    fn write_cell(&mut self, x: usize, y: usize, alive: bool)
        requires
            x < CHUNK_SIZE,
            y < CHUNK_SIZE,
        ensures
            final(self).frozen == old(self).frozen,
            forall|i: int, j: int|
                0 <= i < CHUNK_SIZE && 0 <= j < CHUNK_SIZE ==> #[trigger] final(self).cell(i, j)
                    == (if i == x && j == y {
                    alive
                } else {
                    old(self).cell(i, j)
                }),
    {
        let w = self.rows[y];
        self.rows[y] = with_bit(w, x, alive);
    }

    pub fn is_frozen(&self) -> (f: bool)
        ensures
            f == (self.frozen is Some),
    {
        self.frozen.is_some()
    }

    /// Whether no cell is alive.
    pub fn is_empty(&self) -> (e: bool)
        ensures
            e == self.blank(),
    {
        let mut y: usize = 0;
        while y < CHUNK_SIZE
            invariant
                y <= CHUNK_SIZE,
                forall|j: int| 0 <= j < y ==> self.rows[j] == 0,
            decreases CHUNK_SIZE - y,
        {
            if self.rows[y] != 0 {
                proof {
                    self.lemma_blank();
                    assert(self.rows[y as int] != 0);
                }
                return false;
            }
            y = y + 1;
        }
        proof {
            self.lemma_blank();
        }
        true
    }

    /// Number of live cells.
    pub fn live_count(&self) -> (n: u32)
        ensures
            n == live_cells(self.rows@, CHUNK_SIZE as nat),
    {
        let mut n: u32 = 0;
        let mut y: usize = 0;
        while y < CHUNK_SIZE
            invariant
                y <= CHUNK_SIZE,
                n == live_cells(self.rows@, y as nat),
                n <= 64 * y,
            decreases CHUNK_SIZE - y,
        {
            proof {
                lemma_ones_bound(self.rows[y as int], 64);
            }
            n = n + self.rows[y].count_ones();
            y = y + 1;
        }
        n
    }

    /// 64-bit multiply-mix over the row bits. Non-cryptographic; intended for
    /// cycle-detection identity checks where two equal `rows` must hash equal.
    pub fn hash_state(&self) -> (h: u64)
        ensures
            h == hash_rows(self.rows@, CHUNK_SIZE as nat),
    {
        let mut h: u64 = HASH_MIX_K;
        let mut y: usize = 0;
        while y < CHUNK_SIZE
            invariant
                y <= CHUNK_SIZE,
                h == hash_rows(self.rows@, y as nat),
            decreases CHUNK_SIZE - y,
        {
            let m = (h ^ self.rows[y]).wrapping_mul(HASH_MIX_K);
            h = m ^ (m >> 32);
            y = y + 1;
        }
        h
    }

    /// Lock cell `(x, y)` at value `alive`; future steps cannot change it.
    pub fn freeze(&mut self, x: usize, y: usize, alive: bool)
        requires
            x < CHUNK_SIZE,
            y < CHUNK_SIZE,
        ensures
            old(self).freezes(x as int, y as int, alive, *final(self)),
    {
        let mut m = match &self.frozen {
            Some(m) => FrozenMask { mask: m.mask, value: m.value },
            None => FrozenMask::empty(),
        };
        proof {
            if self.frozen is None {
                assert forall|i: int| !bits::bit(0, i) by {
                    bits::lemma_bit_zero(i);
                }
            }
        }
        let w = m.mask[y];
        m.mask[y] = with_bit(w, x, true);
        let v = m.value[y];
        m.value[y] = with_bit(v, x, alive);
        self.frozen = Some(Arc::new(m));
        // Apply immediately so reads/edges reflect the locked value.
        self.write_cell(x, y, alive);
    }

    /// Unlock cell `(x, y)`. A mask that locks nothing any more is dropped.
    pub fn unfreeze(&mut self, x: usize, y: usize)
        requires
            x < CHUNK_SIZE,
            y < CHUNK_SIZE,
        ensures
            old(self).unfreezes(x as int, y as int, *final(self)),
    {
        let ghost before = *self;
        let mut m = match &self.frozen {
            Some(m) => FrozenMask { mask: m.mask, value: m.value },
            None => {
                return ;
            },
        };
        let w = m.mask[y];
        m.mask[y] = with_bit(w, x, false);
        let v = m.value[y];
        m.value[y] = with_bit(v, x, false);
        let c = Chunk { rows: m.mask, frozen: None };
        let unlocked = c.is_empty();
        self.frozen = Some(Arc::new(m));
        assert(forall|i: int, j: int|
            0 <= i < CHUNK_SIZE && 0 <= j < CHUNK_SIZE ==> #[trigger] self.frozen_at(i, j)
                == c.cell(i, j));
        assert(forall|i: int, j: int|
            0 <= i < CHUNK_SIZE && 0 <= j < CHUNK_SIZE ==> #[trigger] c.cell(i, j) == (
            before.frozen_at(i, j) && !(i == x && j == y)));
        if unlocked {
            self.frozen = None;
            assert forall|i: int, j: int|
                0 <= i < CHUNK_SIZE && 0 <= j < CHUNK_SIZE implies #[trigger] self.frozen_at(i, j)
                == (before.frozen_at(i, j) && !(i == x && j == y)) by {
                assert(!c.cell(i, j));
            }
        } else {
            proof {
                let (i, j) = choose|i: int, j: int|
                    0 <= i < CHUNK_SIZE && 0 <= j < CHUNK_SIZE && #[trigger] c.cell(i, j);
                assert(self.frozen_at(i, j));
            }
        }
    }

    /// What [`Chunk::edges`] holds: the outermost rows, columns and corners of this chunk.
    pub open spec fn bordered_by(self, e: EdgeBundle) -> bool {
        &&& e.top == self.rows[0]
        &&& e.bottom == self.rows[CHUNK_SIZE - 1]
        &&& forall|y: int| 0 <= y < CHUNK_SIZE ==> #[trigger] bits::bit(e.left, y) == self.cell(0, y)
        &&& forall|y: int|
            0 <= y < CHUNK_SIZE ==> #[trigger] bits::bit(e.right, y) == self.cell(CHUNK_SIZE - 1, y)
        &&& e.corners[0] == count(self.cell(0, 0))
        &&& e.corners[1] == count(self.cell(CHUNK_SIZE - 1, 0))
        &&& e.corners[2] == count(self.cell(0, CHUNK_SIZE - 1))
        &&& e.corners[3] == count(self.cell(CHUNK_SIZE - 1, CHUNK_SIZE - 1))
    }

    /// Top/bottom rows + left/right columns + 4 corners, packed for halo assembly.
    pub fn edges(&self) -> (e: EdgeBundle)
        ensures
            self.bordered_by(e),
    {
        let top = self.rows[0];
        let bottom = self.rows[CHUNK_SIZE - 1];
        let mut left: u64 = 0;
        let mut right: u64 = 0;
        let mut y: usize = 0;
        proof {
            assert forall|j: int| !bits::bit(0, j) by {
                bits::lemma_bit_zero(j);
            }
        }
        while y < CHUNK_SIZE
            invariant
                y <= CHUNK_SIZE,
                forall|j: int|
                    0 <= j < CHUNK_SIZE ==> #[trigger] bits::bit(left, j) == (j < y && self.cell(0, j)),
                forall|j: int|
                    0 <= j < CHUNK_SIZE ==> #[trigger] bits::bit(right, j) == (j < y && self.cell(
                        CHUNK_SIZE - 1,
                        j,
                    )),
            decreases CHUNK_SIZE - y,
        {
            let l = self.get(0, y);
            let r = self.get(CHUNK_SIZE - 1, y);
            left = with_bit(left, y, l);
            right = with_bit(right, y, r);
            y = y + 1;
        }
        let corners: [u8; 4] = [
            flag(self.get(0, 0)),
            flag(self.get(CHUNK_SIZE - 1, 0)),
            flag(self.get(0, CHUNK_SIZE - 1)),
            flag(self.get(CHUNK_SIZE - 1, CHUNK_SIZE - 1)),
        ];
        EdgeBundle { top, bottom, left, right, corners }
    }

    /// One GoL step against the supplied halo. Frozen cells are re-applied at the end.
    pub fn step(&self, halo: &EdgeBundle) -> (r: StepResult)
        ensures
            r is Unchanged <==> self.blank() && halo.zero(),
            r matches StepResult::Stepped(c) ==> self.evolves(self.within(*halo), c),
    {
        // Empty + zero halo: result is identical to input. One branch
        // instead of ~3000 kernel ops, and no clone.
        if self.is_empty() && halo.is_zero() {
            return StepResult::Unchanged;
        }
        let mut rows = [0u64;CHUNK_SIZE];
        kernel_scalar(&self.rows, halo, &mut rows);
        let frozen = match &self.frozen {
            None => None,
            Some(mask) => {
                let ghost stepped = rows;
                let mut y: usize = 0;
                while y < CHUNK_SIZE
                    invariant
                        y <= CHUNK_SIZE,
                        forall|x: int, j: int|
                            0 <= x < CHUNK_SIZE && 0 <= j < CHUNK_SIZE ==> #[trigger] bits::bit(
                                rows[j],
                                x,
                            ) == (if j < y && bits::bit(mask.mask[j], x) {
                                bits::bit(mask.value[j], x)
                            } else {
                                bits::bit(stepped[j], x)
                            }),
                    decreases CHUNK_SIZE - y,
                {
                    let ghost before = rows@;
                    let w = rows[y];
                    let m = mask.mask[y];
                    let v = mask.value[y];
                    rows[y] = (w & !m) | (v & m);
                    proof {
                        assert(rows@ == before.update(y as int, (w & !m) | (v & m)));
                        assert forall|x: int| 0 <= x < CHUNK_SIZE implies #[trigger] bits::bit(
                            (w & !m) | (v & m),
                            x,
                        ) == (if bits::bit(m, x) {
                            bits::bit(v, x)
                        } else {
                            bits::bit(w, x)
                        }) by {
                            bits::lemma_bit_ops(m, m, x);
                            bits::lemma_bit_ops(w, !m, x);
                            bits::lemma_bit_ops(v, m, x);
                            bits::lemma_bit_ops(w & !m, v & m, x);
                        }
                    }
                    y = y + 1;
                }
                Some(shared::share(mask))
            },
        };
        StepResult::Stepped(Chunk { rows, frozen })
    }

    /// Whether a cell is alive on the side or corner that points toward the neighbor at
    /// `(dx, dy)`, each -1, 0 or 1.
    pub open spec fn touches(self, dx: int, dy: int) -> bool {
        exists|x: int, y: int|
            facing(x, dx) && facing(y, dy) && #[trigger] self.cell(x, y)
    }

    /// Whether a cell is alive on the side or corner toward the neighbor at `(dx, dy)`.
    pub fn has_edge_toward(&self, dx: i32, dy: i32) -> (r: bool)
        requires
            -1 <= dx <= 1,
            -1 <= dy <= 1,
            dx != 0 || dy != 0,
        ensures
            r == self.touches(dx as int, dy as int),
    {
        let e = self.edges();
        proof {
            self.lemma_touches(e);
        }
        if dx == 0 {
            if dy < 0 {
                e.top != 0
            } else {
                e.bottom != 0
            }
        } else if dy == 0 {
            if dx < 0 {
                e.left != 0
            } else {
                e.right != 0
            }
        } else if dy < 0 {
            if dx < 0 {
                e.corners[0] != 0
            } else {
                e.corners[1] != 0
            }
        } else if dx < 0 {
            e.corners[2] != 0
        } else {
            e.corners[3] != 0
        }
    }

    /// What each part of the edges of a chunk says of the neighbor on that side.
    pub proof fn lemma_touches(self, e: EdgeBundle)
        requires
            self.bordered_by(e),
        ensures
            (e.top != 0) == self.touches(0, -1),
            (e.bottom != 0) == self.touches(0, 1),
            (e.left != 0) == self.touches(-1, 0),
            (e.right != 0) == self.touches(1, 0),
            (e.corners[0] != 0) == self.touches(-1, -1),
            (e.corners[1] != 0) == self.touches(1, -1),
            (e.corners[2] != 0) == self.touches(-1, 1),
            (e.corners[3] != 0) == self.touches(1, 1),
    {
        let last = CHUNK_SIZE - 1;
        bits::lemma_zero_iff_no_bit(e.top);
        bits::lemma_zero_iff_no_bit(e.bottom);
        bits::lemma_zero_iff_no_bit(e.left);
        bits::lemma_zero_iff_no_bit(e.right);
        if e.top != 0 {
            let x = choose|x: int| 0 <= x < 64 && bits::bit(e.top, x);
            assert(facing(x, 0) && facing(0, -1) && self.cell(x, 0));
        }
        if self.touches(0, -1) {
            let (x, y) = choose|x: int, y: int|
                facing(x, 0) && facing(y, -1) && #[trigger] self.cell(x, y);
            assert(bits::bit(e.top, x));
        }
        if e.bottom != 0 {
            let x = choose|x: int| 0 <= x < 64 && bits::bit(e.bottom, x);
            assert(facing(x, 0) && facing(last, 1) && self.cell(x, last));
        }
        if self.touches(0, 1) {
            let (x, y) = choose|x: int, y: int|
                facing(x, 0) && facing(y, 1) && #[trigger] self.cell(x, y);
            assert(bits::bit(e.bottom, x));
        }
        if e.left != 0 {
            let y = choose|y: int| 0 <= y < 64 && bits::bit(e.left, y);
            assert(facing(0, -1) && facing(y, 0) && self.cell(0, y));
        }
        if self.touches(-1, 0) {
            let (x, y) = choose|x: int, y: int|
                facing(x, -1) && facing(y, 0) && #[trigger] self.cell(x, y);
            assert(bits::bit(e.left, y));
        }
        if e.right != 0 {
            let y = choose|y: int| 0 <= y < 64 && bits::bit(e.right, y);
            assert(facing(last, 1) && facing(y, 0) && self.cell(last, y));
        }
        if self.touches(1, 0) {
            let (x, y) = choose|x: int, y: int|
                facing(x, 1) && facing(y, 0) && #[trigger] self.cell(x, y);
            assert(bits::bit(e.right, y));
        }
        assert(self.cell(0, 0) ==> self.touches(-1, -1)) by {
            assert(facing(0, -1));
        }
        assert(self.cell(last, 0) ==> self.touches(1, -1)) by {
            assert(facing(last, 1) && facing(0, -1));
        }
        assert(self.cell(0, last) ==> self.touches(-1, 1)) by {
            assert(facing(last, 1) && facing(0, -1));
        }
        assert(self.cell(last, last) ==> self.touches(1, 1)) by {
            assert(facing(last, 1));
        }
    }

    /// The chunk after [`Chunk::step`], where `plane` holds its cells and those around it: as it
    /// is where nothing lives in it or just outside, else one generation on.
    pub open spec fn stepped(self, plane: spec_fn(int, int) -> bool) -> Chunk {
        if self.blank() && quiet(plane) {
            self
        } else {
            self.next(plane)
        }
    }

    /// Stepping against a halo is stepping in the plane that the halo was taken from.
    pub proof fn lemma_stepped(
        self,
        halo: EdgeBundle,
        plane: spec_fn(int, int) -> bool,
        r: StepResult,
    )
        requires
            halo.holds(plane),
            forall|x: int, y: int|
                0 <= x < CHUNK_SIZE && 0 <= y < CHUNK_SIZE ==> #[trigger] plane(x, y) == self.cell(
                    x,
                    y,
                ),
            r is Unchanged <==> self.blank() && halo.zero(),
            r matches StepResult::Stepped(c) ==> self.evolves(self.within(halo), c),
        ensures
            r.chunk(self) == self.stepped(plane),
            r is Unchanged <==> self.blank() && quiet(plane),
    {
        if let StepResult::Stepped(c) = r {
            let p = self.within(halo);
            assert forall|x: int, y: int|
                -1 <= x <= CHUNK_SIZE && -1 <= y <= CHUNK_SIZE implies #[trigger] p(x, y) == plane(
                x,
                y,
            ) by {
                if on_rim(x, y) {
                    assert(halo.at(x, y) == plane(x, y));
                } else {
                    assert(plane(x, y) == self.cell(x, y));
                }
            }
            self.lemma_next_local(p, plane);
            self.lemma_next(p);
        }
    }

    /// What a chunk evolves to depends only on its cells and those just outside.
    pub proof fn lemma_next_local(
        self,
        p: spec_fn(int, int) -> bool,
        q: spec_fn(int, int) -> bool,
    )
        requires
            forall|x: int, y: int|
                -1 <= x <= CHUNK_SIZE && -1 <= y <= CHUNK_SIZE ==> #[trigger] p(x, y) == q(x, y),
        ensures
            self.next(p) == self.next(q),
    {
        self.lemma_next(p);
        self.lemma_next(q);
        let n = self.next(p);
        assert forall|x: int, y: int|
            0 <= x < CHUNK_SIZE && 0 <= y < CHUNK_SIZE implies #[trigger] n.cell(x, y)
            == self.next_cell(q, x, y) by {
            assert(p(x - 1, y - 1) == q(x - 1, y - 1));
            assert(p(x, y - 1) == q(x, y - 1));
            assert(p(x + 1, y - 1) == q(x + 1, y - 1));
            assert(p(x - 1, y) == q(x - 1, y));
            assert(p(x, y) == q(x, y));
            assert(p(x + 1, y) == q(x + 1, y));
            assert(p(x - 1, y + 1) == q(x - 1, y + 1));
            assert(p(x, y + 1) == q(x, y + 1));
            assert(p(x + 1, y + 1) == q(x + 1, y + 1));
        }
        assert(self.evolves(q, n));
    }

    /// The chunk one generation on, where `plane` holds its cells and those around it.
    pub open spec fn next(self, plane: spec_fn(int, int) -> bool) -> Chunk {
        Chunk {
            rows: rows_of(
                |y: int| bits::word_of(|x: int| self.next_cell(plane, x, y), CHUNK_SIZE as nat),
                CHUNK_SIZE as nat,
            ),
            frozen: self.frozen,
        }
    }

    /// [`Chunk::next`] is the one chunk that this chunk evolves to.
    pub proof fn lemma_next(self, plane: spec_fn(int, int) -> bool)
        ensures
            self.evolves(plane, self.next(plane)),
            forall|c: Chunk| self.evolves(plane, c) ==> c == self.next(plane),
    {
        let n = self.next(plane);
        let f = |y: int| bits::word_of(|x: int| self.next_cell(plane, x, y), CHUNK_SIZE as nat);
        assert forall|x: int, y: int|
            0 <= x < CHUNK_SIZE && 0 <= y < CHUNK_SIZE implies #[trigger] n.cell(x, y)
            == self.next_cell(plane, x, y) by {
            lemma_rows_of(f, CHUNK_SIZE as nat, y);
            bits::lemma_word_of(|x: int| self.next_cell(plane, x, y), CHUNK_SIZE as nat, x);
        }
        assert forall|c: Chunk| self.evolves(plane, c) implies c == n by {
            c.lemma_equal(n);
        }
    }

    /// Pinned cells stay pinned: whatever a chunk evolves to holds its frozen cells.
    pub proof fn lemma_pins_persist(self, plane: spec_fn(int, int) -> bool, next: Chunk)
        requires
            self.evolves(plane, next),
        ensures
            next.pins_hold(),
            forall|x: int, y: int|
                0 <= x < CHUNK_SIZE && 0 <= y < CHUNK_SIZE && self.frozen_at(x, y)
                    ==> #[trigger] next.cell(x, y) == self.pinned_at(x, y),
    {
    }

    /// A blank chunk whose pinned cells hold and around which nothing lives evolves to itself,
    /// so that the early-out of [`Chunk::step`] skips no change.
    pub proof fn lemma_blank_stays(self, plane: spec_fn(int, int) -> bool)
        requires
            self.blank(),
            self.pins_hold(),
            forall|x: int, y: int|
                -1 <= x <= CHUNK_SIZE && -1 <= y <= CHUNK_SIZE ==> !#[trigger] plane(x, y),
        ensures
            self.evolves(plane, self),
    {
        assert forall|x: int, y: int|
            0 <= x < CHUNK_SIZE && 0 <= y < CHUNK_SIZE implies #[trigger] self.cell(x, y)
            == self.next_cell(plane, x, y) by {
            assert(!plane(x, y));
            if self.frozen_at(x, y) {
                assert(self.cell(x, y) == self.pinned_at(x, y));
            }
        }
    }

    /// A chunk is blank exactly if every row is zero.
    pub proof fn lemma_blank(self)
        ensures
            self.blank() <==> (forall|y: int| 0 <= y < CHUNK_SIZE ==> self.rows[y] == 0),
    {
        if self.blank() {
            assert forall|y: int| 0 <= y < CHUNK_SIZE implies self.rows[y] == 0 by {
                bits::lemma_zero_iff_no_bit(self.rows[y]);
                assert forall|x: int| 0 <= x < 64 implies !bits::bit(self.rows[y], x) by {
                    assert(!self.cell(x, y));
                }
            }
        }
        if forall|y: int| 0 <= y < CHUNK_SIZE ==> self.rows[y] == 0 {
            assert forall|x: int, y: int|
                0 <= x < CHUNK_SIZE && 0 <= y < CHUNK_SIZE implies !#[trigger] self.cell(x, y) by {
                assert(self.rows[y] == 0);
                bits::lemma_bit_zero(x);
            }
        }
    }

    /// Two chunks with the same cells have the same rows.
    pub proof fn lemma_equal_rows(self, other: Chunk)
        requires
            forall|x: int, y: int|
                0 <= x < CHUNK_SIZE && 0 <= y < CHUNK_SIZE ==> #[trigger] self.cell(x, y)
                    == other.cell(x, y),
        ensures
            self.rows == other.rows,
    {
        assert forall|y: int| 0 <= y < CHUNK_SIZE implies self.rows[y] == other.rows[y] by {
            assert forall|x: int| 0 <= x < 64 implies bits::bit(self.rows[y], x) == bits::bit(
                other.rows[y],
                x,
            ) by {
                assert(self.cell(x, y) == other.cell(x, y));
            }
            bits::lemma_bits_equal(self.rows[y], other.rows[y]);
        }
        assert(self.rows =~= other.rows);
    }

    /// Two chunks with the same cells and the same mask are equal.
    pub proof fn lemma_equal(self, other: Chunk)
        requires
            self.frozen == other.frozen,
            forall|x: int, y: int|
                0 <= x < CHUNK_SIZE && 0 <= y < CHUNK_SIZE ==> #[trigger] self.cell(x, y)
                    == other.cell(x, y),
        ensures
            self == other,
    {
        self.lemma_equal_rows(other);
    }
}

/// Whether the local coordinate `x` lies on the side that points toward `d` (-1, 0 or 1).
pub open spec fn facing(x: int, d: int) -> bool {
    &&& 0 <= x < CHUNK_SIZE
    &&& d < 0 ==> x == 0
    &&& d > 0 ==> x == CHUNK_SIZE - 1
}

/// The rows `f(0), .., f(n - 1)`; all further rows are zero.
pub open spec fn rows_of(f: spec_fn(int) -> u64, n: nat) -> [u64; CHUNK_SIZE]
    decreases n,
{
    if n == 0 {
        [0u64;CHUNK_SIZE]
    } else {
        vstd::array::spec_array_update(rows_of(f, (n - 1) as nat), n - 1, f(n - 1))
    }
}

/// The rows of the cells that `f` has.
pub open spec fn drawn(f: spec_fn(int, int) -> bool) -> [u64; CHUNK_SIZE] {
    rows_of(|y: int| bits::word_of(|x: int| f(x, y), CHUNK_SIZE as nat), CHUNK_SIZE as nat)
}

pub proof fn lemma_drawn(f: spec_fn(int, int) -> bool)
    ensures
        forall|x: int, y: int|
            0 <= x < CHUNK_SIZE && 0 <= y < CHUNK_SIZE ==> #[trigger] bits::bit(drawn(f)[y], x)
                == f(x, y),
{
    let g = |y: int| bits::word_of(|x: int| f(x, y), CHUNK_SIZE as nat);
    assert forall|x: int, y: int|
        0 <= x < CHUNK_SIZE && 0 <= y < CHUNK_SIZE implies #[trigger] bits::bit(drawn(f)[y], x)
        == f(x, y) by {
        lemma_rows_of(g, CHUNK_SIZE as nat, y);
        bits::lemma_word_of(|x: int| f(x, y), CHUNK_SIZE as nat, x);
    }
}

pub proof fn lemma_rows_of(f: spec_fn(int) -> u64, n: nat, y: int)
    requires
        n <= CHUNK_SIZE,
        0 <= y < n,
    ensures
        rows_of(f, n)[y] == f(y),
    decreases n,
{
    if y < n - 1 {
        lemma_rows_of(f, (n - 1) as nat, y);
    }
}

/// A truth value as a byte.
pub fn flag(b: bool) -> (n: u8)
    ensures
        n == count(b),
{
    if b {
        1
    } else {
        0
    }
}

/// `w` with bit `x` set to `alive`.
fn with_bit(w: u64, x: usize, alive: bool) -> (r: u64)
    requires
        x < 64,
    ensures
        forall|i: int|
            0 <= i < 64 ==> #[trigger] bits::bit(r, i) == (if i == x {
                alive
            } else {
                bits::bit(w, i)
            }),
{
    let b: u64 = 1u64 << (x as u64);
    let r = if alive {
        w | b
    } else {
        w & !b
    };
    proof {
        assert forall|i: int| 0 <= i < 64 implies #[trigger] bits::bit(r, i) == (if i == x {
            alive
        } else {
            bits::bit(w, i)
        }) by {
            bits::lemma_bit_update(w, x as int, i);
        }
    }
    r
}

/// Live cells in the first `n` rows.
pub open spec fn live_cells(rows: Seq<u64>, n: nat) -> nat
    decreases n,
{
    if n == 0 {
        0
    } else {
        live_cells(rows, (n - 1) as nat) + bits::ones_below(rows[n - 1], 64)
    }
}

/// The mix of the first `n` rows, one multiply-xor round per row.
pub open spec fn hash_rows(rows: Seq<u64>, n: nat) -> u64
    decreases n,
{
    if n == 0 {
        HASH_MIX_K
    } else {
        let m = (hash_rows(rows, (n - 1) as nat) ^ rows[n - 1]).wrapping_mul(HASH_MIX_K);
        m ^ (m >> 32)
    }
}

proof fn lemma_ones_bound(w: u64, n: nat)
    ensures
        bits::ones_below(w, n) <= n,
    decreases n,
{
    if n > 0 {
        lemma_ones_bound(w, (n - 1) as nat);
    }
}

} // verus!
