//! The operations of a chunk and of the world on single cells, bit by bit.

use crate::bindings;
use crate::bits;
use crate::chunk;
use crate::chunk::{Chunk, EdgeBundle};
use crate::codec;
use crate::coord::ChunkCoord;
use crate::wire;
use crate::world;
use crate::world::WorldState;
use vstd::prelude::*;

verus! {

/// Whether bit `i` of a word is set.
pub open spec fn set_in(w: u64, i: int) -> bool {
    (w >> (i as u64)) & 1 == 1
}

/// Setting a cell writes one bit, unless that cell is frozen, and leaves all others and the frozen
/// mask as they are.
pub proof fn law_setting_writes_one_bit(
    c: Chunk,
    x: int,
    y: int,
    alive: bool,
    next: Chunk,
    i: int,
    j: int,
)
    requires
        c.sets(x, y, alive, next),
        0 <= i < 64,
        0 <= j < 64,
    ensures
        next.frozen == c.frozen,
        set_in(next.rows[j], i) == (if i == x && j == y && !(c.frozen is Some && set_in(
            c.frozen->0.mask[j],
            i,
        )) {
            alive
        } else {
            set_in(c.rows[j], i)
        }),
{
    assert(next.cell(i, j) == set_in(next.rows[j], i));
}

/// Freezing a cell sets it, marks it as frozen, and pins it to its value; all other cells stay as
/// they are.
pub proof fn law_freezing_pins_one_cell(
    c: Chunk,
    x: int,
    y: int,
    alive: bool,
    next: Chunk,
    i: int,
    j: int,
)
    requires
        c.freezes(x, y, alive, next),
        0 <= i < 64,
        0 <= j < 64,
    ensures
        next.frozen is Some,
        i == x && j == y ==> set_in(next.rows[j], i) == alive && set_in(next.frozen->0.mask[j], i)
            && set_in(next.frozen->0.value[j], i) == alive,
        i != x || j != y ==> set_in(next.rows[j], i) == set_in(c.rows[j], i) && set_in(
            next.frozen->0.mask[j],
            i,
        ) == (c.frozen is Some && set_in(c.frozen->0.mask[j], i)) && set_in(
            next.frozen->0.value[j],
            i,
        ) == (c.frozen is Some && set_in(c.frozen->0.value[j], i)),
{
    assert(next.cell(i, j) == set_in(next.rows[j], i));
    assert(next.frozen_at(i, j) == set_in(next.frozen->0.mask[j], i));
    assert(next.pinned_at(i, j) == set_in(next.frozen->0.value[j], i));
}

/// Letting go of a cell leaves all cells as they are, and all other cells frozen that were. Where
/// none is left, the chunk has no frozen mask.
pub proof fn law_unfreezing_frees_one_cell(
    c: Chunk,
    x: int,
    y: int,
    next: Chunk,
    i: int,
    j: int,
)
    requires
        c.unfreezes(x, y, next),
        0 <= i < 64,
        0 <= j < 64,
    ensures
        next.rows == c.rows,
        (next.frozen is Some && set_in(next.frozen->0.mask[j], i)) == (c.frozen is Some && set_in(
            c.frozen->0.mask[j],
            i,
        ) && !(i == x && j == y)),
        next.frozen is Some && (i != x || j != y) ==> set_in(next.frozen->0.value[j], i) == (
        c.frozen is Some && set_in(c.frozen->0.value[j], i)),
        next.frozen is Some ==> exists|u: int, v: int|
            0 <= u < 64 && 0 <= v < 64 && #[trigger] set_in(next.frozen->0.mask[v], u),
{
    assert(next.frozen_at(i, j) == (c.frozen_at(i, j) && !(i == x && j == y)));
    if next.frozen is Some {
        let (u, v) = choose|u: int, v: int|
            0 <= u < 64 && 0 <= v < 64 && #[trigger] next.frozen_at(u, v);
        assert(set_in(next.frozen->0.mask[v], u));
        assert(next.pinned_at(i, j) == set_in(next.frozen->0.value[j], i));
    }
}

/// Whether the cell at `(x, y)` of a chunk, or just outside of it, is alive, where `halo` holds
/// what is outside.
pub open spec fn lit_at(c: Chunk, halo: EdgeBundle, x: int, y: int) -> bool {
    if 0 <= x <= 63 && 0 <= y <= 63 {
        set_in(c.rows[y], x)
    } else if y == -1 && x == -1 {
        halo.corners[0] & 1 == 1
    } else if y == -1 && x == 64 {
        halo.corners[1] & 1 == 1
    } else if y == 64 && x == -1 {
        halo.corners[2] & 1 == 1
    } else if y == 64 && x == 64 {
        halo.corners[3] & 1 == 1
    } else if y == -1 {
        set_in(halo.top, x)
    } else if y == 64 {
        set_in(halo.bottom, x)
    } else if x == -1 {
        set_in(halo.left, y)
    } else {
        set_in(halo.right, y)
    }
}

/// One if the cell is alive.
pub open spec fn one_at(c: Chunk, halo: EdgeBundle, x: int, y: int) -> int {
    if lit_at(c, halo, x, y) {
        1
    } else {
        0
    }
}

/// A step takes every cell that is not frozen to what Conway's rule makes of it and its eight
/// neighbors, in the chunk and in the halo, and every frozen cell to the value that it is pinned
/// to.
pub proof fn law_step_follows_the_rule(
    c: Chunk,
    halo: EdgeBundle,
    next: Chunk,
    x: int,
    y: int,
)
    requires
        c.evolves(c.within(halo), next),
        0 <= x < 64,
        0 <= y < 64,
    ensures
        next.frozen == c.frozen,
        c.frozen is Some && set_in(c.frozen->0.mask[y], x) ==> set_in(next.rows[y], x) == set_in(
            c.frozen->0.value[y],
            x,
        ),
        !(c.frozen is Some && set_in(c.frozen->0.mask[y], x)) ==> ({
            let n = one_at(c, halo, x - 1, y - 1) + one_at(c, halo, x, y - 1) + one_at(
                c,
                halo,
                x + 1,
                y - 1,
            ) + one_at(c, halo, x - 1, y) + one_at(c, halo, x + 1, y) + one_at(
                c,
                halo,
                x - 1,
                y + 1,
            ) + one_at(c, halo, x, y + 1) + one_at(c, halo, x + 1, y + 1);
            set_in(next.rows[y], x) == (n == 3 || (n == 2 && set_in(c.rows[y], x)))
        }),
{
    let p = c.within(halo);
    assert(next.cell(x, y) == c.next_cell(p, x, y));
    assert forall|u: int, v: int| -1 <= u <= 64 && -1 <= v <= 64 implies one_at(c, halo, u, v)
        == #[trigger] chunk::count(p(u, v)) by {}
    assert(one_at(c, halo, x - 1, y - 1) == chunk::count(p(x - 1, y - 1)));
    assert(one_at(c, halo, x, y - 1) == chunk::count(p(x, y - 1)));
    assert(one_at(c, halo, x + 1, y - 1) == chunk::count(p(x + 1, y - 1)));
    assert(one_at(c, halo, x - 1, y) == chunk::count(p(x - 1, y)));
    assert(one_at(c, halo, x + 1, y) == chunk::count(p(x + 1, y)));
    assert(one_at(c, halo, x - 1, y + 1) == chunk::count(p(x - 1, y + 1)));
    assert(one_at(c, halo, x, y + 1) == chunk::count(p(x, y + 1)));
    assert(one_at(c, halo, x + 1, y + 1) == chunk::count(p(x + 1, y + 1)));
}

/// The edges of a chunk are its outermost rows, columns and corners.
pub proof fn law_edges_are_outermost(c: Chunk, e: EdgeBundle, k: int)
    requires
        c.bordered_by(e),
        0 <= k < 64,
    ensures
        set_in(e.top, k) == set_in(c.rows[0], k),
        set_in(e.bottom, k) == set_in(c.rows[63], k),
        set_in(e.left, k) == set_in(c.rows[k], 0),
        set_in(e.right, k) == set_in(c.rows[k], 63),
        e.corners[0] == (if set_in(c.rows[0], 0) {
            1int
        } else {
            0
        }),
        e.corners[1] == (if set_in(c.rows[0], 63) {
            1int
        } else {
            0
        }),
        e.corners[2] == (if set_in(c.rows[63], 0) {
            1int
        } else {
            0
        }),
        e.corners[3] == (if set_in(c.rows[63], 63) {
            1int
        } else {
            0
        }),
{
    assert(bits::bit(e.left, k) == c.cell(0, k));
    assert(bits::bit(e.right, k) == c.cell(63, k));
}

/// A chunk touches the neighbor in some direction exactly if a cell on that side, or in that
/// corner, is alive.
pub proof fn law_touching_is_by_the_side(c: Chunk, dx: int, dy: int)
    requires
        -1 <= dx <= 1,
        -1 <= dy <= 1,
    ensures
        c.touches(dx, dy) <==> exists|x: int, y: int|
            0 <= x < 64 && 0 <= y < 64 && (dx == -1 ==> x == 0) && (dx == 1 ==> x == 63) && (dy
                == -1 ==> y == 0) && (dy == 1 ==> y == 63) && #[trigger] set_in(c.rows[y], x),
{
    if c.touches(dx, dy) {
        let (x, y) = choose|x: int, y: int|
            chunk::facing(x, dx) && chunk::facing(y, dy) && #[trigger] c.cell(x, y);
        assert(set_in(c.rows[y], x));
    }
    if exists|x: int, y: int|
        0 <= x < 64 && 0 <= y < 64 && (dx == -1 ==> x == 0) && (dx == 1 ==> x == 63) && (dy == -1
            ==> y == 0) && (dy == 1 ==> y == 63) && #[trigger] set_in(c.rows[y], x) {
        let (x, y) = choose|x: int, y: int|
            0 <= x < 64 && 0 <= y < 64 && (dx == -1 ==> x == 0) && (dx == 1 ==> x == 63) && (dy
                == -1 ==> y == 0) && (dy == 1 ==> y == 63) && #[trigger] set_in(c.rows[y], x);
        assert(c.cell(x, y));
        assert(chunk::facing(x, dx) && chunk::facing(y, dy));
    }
}

/// A chunk is empty exactly if no bit is set.
pub proof fn law_empty_has_no_bit(c: Chunk)
    ensures
        c.blank() <==> forall|x: int, y: int|
            0 <= x < 64 && 0 <= y < 64 ==> !#[trigger] set_in(c.rows[y], x),
{
    if c.blank() {
        assert forall|x: int, y: int| 0 <= x < 64 && 0 <= y < 64 implies !#[trigger] set_in(
            c.rows[y],
            x,
        ) by {
            assert(!c.cell(x, y));
        }
    }
    if forall|x: int, y: int| 0 <= x < 64 && 0 <= y < 64 ==> !#[trigger] set_in(c.rows[y], x) {
        assert forall|x: int, y: int| 0 <= x < 64 && 0 <= y < 64 implies !#[trigger] c.cell(x, y) by {
            assert(!set_in(c.rows[y], x));
        }
    }
}

/// Live cells among the first `n`, row by row.
pub open spec fn lit_among(rows: Seq<u64>, n: nat) -> nat
    decreases n,
{
    if n == 0 {
        0
    } else {
        lit_among(rows, (n - 1) as nat) + (if set_in(rows[(n - 1) / 64], (n - 1) % 64) {
            1nat
        } else {
            0
        })
    }
}

proof fn lemma_lit_among(rows: Seq<u64>, y: nat, x: nat)
    requires
        x <= 64,
    ensures
        lit_among(rows, 64 * y + x) == lit_among(rows, 64 * y) + bits::ones_below(rows[y as int], x),
    decreases x,
{
    if x > 0 {
        lemma_lit_among(rows, y, (x - 1) as nat);
        let n = (64 * y + x) as int;
        assert((n - 1) / 64 == y);
        assert((n - 1) % 64 == x - 1);
        assert((64 * y + x - 1) as nat == 64 * y + ((x - 1) as nat));
    }
}

/// The live cells of rows are counted one by one.
pub proof fn law_live_cells_are_counted(rows: Seq<u64>, n: nat)
    ensures
        chunk::live_cells(rows, n) == lit_among(rows, 64 * n),
    decreases n,
{
    if n > 0 {
        law_live_cells_are_counted(rows, (n - 1) as nat);
        lemma_lit_among(rows, (n - 1) as nat, 64);
        assert(64 * ((n - 1) as nat) + 64 == 64 * n);
    }
}

/// The hash of a chunk mixes in one row after the other, by one multiplication and one fold each.
pub proof fn law_hash_mixes_rows(rows: Seq<u64>, n: nat)
    ensures
        chunk::hash_rows(rows, 0) == 0x9E37_79B9_7F4A_7C15,
        ({
            let m = (chunk::hash_rows(rows, n) ^ rows[n as int]).wrapping_mul(
                0x9E37_79B9_7F4A_7C15,
            );
            chunk::hash_rows(rows, n + 1) == m ^ (m >> 32)
        }),
{
}

/// Setting a cell of the world writes one bit of the chunk that holds it, unless the cell is
/// frozen; the chunk is made if it was not there, and all else stays as it is.
pub proof fn law_world_writes_one_bit(
    w: WorldState,
    next: WorldState,
    x: int,
    y: int,
    alive: bool,
)
    requires
        -0x8000_0000 <= x / 64 <= 0x7fff_ffff,
        -0x8000_0000 <= y / 64 <= 0x7fff_ffff,
        ({
            let c = world::home_coord(x, y);
            &&& world::lookup(w.chunks, c).sets(
                x % crate::CHUNK_SIZE as int,
                y % crate::CHUNK_SIZE as int,
                alive,
                next.chunks[c],
            )
            &&& next == (WorldState { chunks: w.chunks.insert(c, next.chunks[c]), ..w })
        }),
    ensures
        ({
            let c = ((x / 64) as i32, (y / 64) as i32);
            &&& next.oscillators == w.oscillators
            &&& next.owned == w.owned
            &&& next.tick == w.tick
            &&& next.chunks.contains_key(c)
            &&& forall|d: ChunkCoord|
                d != c ==> #[trigger] next.chunks.contains_key(d) == w.chunks.contains_key(d)
                    && next.chunks[d] == w.chunks[d]
            &&& !(w.chunks.contains_key(c) && w.chunks[c].frozen is Some && set_in(
                w.chunks[c].frozen->0.mask[y % 64],
                x % 64,
            )) ==> set_in(next.chunks[c].rows[y % 64], x % 64) == alive
            &&& forall|i: int, j: int|
                0 <= i < 64 && 0 <= j < 64 && (i != x % 64 || j != y % 64) ==> #[trigger] set_in(
                    next.chunks[c].rows[j],
                    i,
                ) == (w.chunks.contains_key(c) && set_in(w.chunks[c].rows[j], i))
        }),
{
    let c = world::home_coord(x, y);
    assert(c == ((x / 64) as i32, (y / 64) as i32));
    let o = world::lookup(w.chunks, c);
    let n = next.chunks[c];
    assert(n.cell(x % 64, y % 64) == set_in(n.rows[y % 64], x % 64));
    assert forall|i: int, j: int|
        0 <= i < 64 && 0 <= j < 64 && (i != x % 64 || j != y % 64) implies #[trigger] set_in(
        n.rows[j],
        i,
    ) == (w.chunks.contains_key(c) && set_in(w.chunks[c].rows[j], i)) by {
        assert(n.cell(i, j) == o.cell(i, j));
        if !w.chunks.contains_key(c) {
            assert(o.rows@[j] == 0);
            bits::lemma_bit_zero(i);
        }
    }
}

/// Whether the cell at `(x, y)` of a chunk, or just outside of it, is alive, where the chunk and
/// the halo are given by their bytes.
pub open spec fn lit_in_bytes(bits: Seq<u8>, halo: Seq<u8>, x: int, y: int) -> bool {
    if 0 <= x <= 63 && 0 <= y <= 63 {
        (bits[8 * y + x / 8] >> ((x % 8) as u8)) & 1 == 1
    } else if y == -1 && x == -1 {
        halo[32] & 1 == 1
    } else if y == -1 && x == 64 {
        (halo[32] >> 1) & 1 == 1
    } else if y == 64 && x == -1 {
        (halo[32] >> 2) & 1 == 1
    } else if y == 64 && x == 64 {
        (halo[32] >> 3) & 1 == 1
    } else if y == -1 {
        (halo[x / 8] >> ((x % 8) as u8)) & 1 == 1
    } else if y == 64 {
        (halo[8 + x / 8] >> ((x % 8) as u8)) & 1 == 1
    } else if x == -1 {
        (halo[16 + y / 8] >> ((y % 8) as u8)) & 1 == 1
    } else {
        (halo[24 + y / 8] >> ((y % 8) as u8)) & 1 == 1
    }
}

/// One if the cell is alive.
pub open spec fn one_in_bytes(bits: Seq<u8>, halo: Seq<u8>, x: int, y: int) -> int {
    if lit_in_bytes(bits, halo, x, y) {
        1
    } else {
        0
    }
}

proof fn lemma_low_bit(b: u8)
    ensures
        (b & 1) & 1 == b & 1,
{
    assert((b & 1) & 1 == b & 1) by (bit_vector);
}

/// What is read of a chunk and a halo shows the cells that the bytes show.
proof fn lemma_read_cells(
    bits: Seq<u8>,
    halo: Seq<u8>,
    mask: Seq<u8>,
    c: Chunk,
    e: EdgeBundle,
    x: int,
    y: int,
)
    requires
        bits.len() == 512,
        halo.len() == 33,
        bindings::reads_chunk(bits, mask, c),
        bindings::reads_edge(halo, e),
        -1 <= x <= 64,
        -1 <= y <= 64,
    ensures
        lit_at(c, e, x, y) == lit_in_bytes(bits, halo, x, y),
{
    lemma_low_bit(halo[32]);
    lemma_low_bit(halo[32] >> 1);
    lemma_low_bit(halo[32] >> 2);
    lemma_low_bit(halo[32] >> 3);
    if 0 <= x <= 63 && 0 <= y <= 63 {
        wire::law_bitset_layout(bits, x, y);
    } else if 0 <= x <= 63 {
        let p = if y == -1 {
            halo.subrange(0, 8)
        } else {
            halo.subrange(8, 16)
        };
        wire::lemma_value_bits(p, x);
    } else if 0 <= y <= 63 {
        let p = if x == -1 {
            halo.subrange(16, 24)
        } else {
            halo.subrange(24, 32)
        };
        wire::lemma_value_bits(p, y);
    }
}

/// A step in bytes takes every cell that is not under the mask to what Conway's rule makes of it
/// and its eight neighbors, in the chunk and in the halo; cells under the mask stay as they are.
#[verifier::spinoff_prover]
pub proof fn law_steps_in_bytes_follow_the_rule(
    bits: Seq<u8>,
    halo: Seq<u8>,
    mask: Seq<u8>,
    c: Chunk,
    e: EdgeBundle,
    out: Seq<u8>,
    x: int,
    y: int,
)
    requires
        bits.len() == 512,
        halo.len() == 33,
        bindings::reads_chunk(bits, mask, c),
        bindings::reads_edge(halo, e),
        out == bindings::stepped_bytes(bits, c, e),
        0 <= x < 64,
        0 <= y < 64,
    ensures
        out.len() == 512,
        ({
            let under = mask.len() == 512 && (mask[8 * y + x / 8] >> ((x % 8) as u8)) & 1 == 1;
            let was = (bits[8 * y + x / 8] >> ((x % 8) as u8)) & 1 == 1;
            let is = (out[8 * y + x / 8] >> ((x % 8) as u8)) & 1 == 1;
            let n = one_in_bytes(bits, halo, x - 1, y - 1) + one_in_bytes(bits, halo, x, y - 1)
                + one_in_bytes(bits, halo, x + 1, y - 1) + one_in_bytes(bits, halo, x - 1, y)
                + one_in_bytes(bits, halo, x + 1, y) + one_in_bytes(bits, halo, x - 1, y + 1)
                + one_in_bytes(bits, halo, x, y + 1) + one_in_bytes(bits, halo, x + 1, y + 1);
            is == (if under {
                was
            } else {
                n == 3 || (n == 2 && was)
            })
        }),
{
    lemma_read_cells(bits, halo, mask, c, e, x - 1, y - 1);
    lemma_read_cells(bits, halo, mask, c, e, x, y - 1);
    lemma_read_cells(bits, halo, mask, c, e, x + 1, y - 1);
    lemma_read_cells(bits, halo, mask, c, e, x - 1, y);
    lemma_read_cells(bits, halo, mask, c, e, x, y);
    lemma_read_cells(bits, halo, mask, c, e, x + 1, y);
    lemma_read_cells(bits, halo, mask, c, e, x - 1, y + 1);
    lemma_read_cells(bits, halo, mask, c, e, x, y + 1);
    lemma_read_cells(bits, halo, mask, c, e, x + 1, y + 1);
    if mask.len() == 512 {
        wire::law_bitset_layout(mask, x, y);
        let r = c.rows[y];
        let m = c.frozen->0.mask[y];
        bits::lemma_bit_ops(r, m, x);
        assert(c.frozen->0.value[y] == r & m);
    }
    if c.blank() && e.zero() {
        assert forall|u: int, v: int| -1 <= u <= 64 && -1 <= v <= 64 implies !#[trigger] lit_at(
            c,
            e,
            u,
            v,
        ) by {
            if 0 <= u <= 63 && 0 <= v <= 63 {
                assert(!c.cell(u, v));
            } else {
                lemma_zero_halo(c, e, u, v);
            }
        }
    } else {
        let p = c.within(e);
        let next = c.next(p);
        c.lemma_next(p);
        law_step_follows_the_rule(c, e, next, x, y);
        wire::law_packed_layout(next.rows@, x, y);
    }
}

proof fn lemma_zero_halo(c: Chunk, e: EdgeBundle, u: int, v: int)
    requires
        e.zero(),
        -1 <= u <= 64,
        -1 <= v <= 64,
        !(0 <= u <= 63 && 0 <= v <= 63),
    ensures
        !lit_at(c, e, u, v),
{
    assert(0u8 & 1 == 0) by (bit_vector);
    if 0 <= u <= 63 {
        bits::lemma_bit_zero(u);
    } else if 0 <= v <= 63 {
        bits::lemma_bit_zero(v);
    }
}

/// The bytes of edges hold the top row, the bottom row, the left column and the right column, eight
/// bytes each, and the corners in the lowest bits of the last byte.
pub proof fn law_edge_layout(e: EdgeBundle, k: int)
    requires
        0 <= k < 64,
        forall|i: int| 0 <= i < 4 ==> #[trigger] e.corners[i] <= 1,
    ensures
        ({
            let s = bindings::edge_bytes(e);
            &&& s.len() == 33
            &&& set_in(e.top, k) == ((s[k / 8] >> ((k % 8) as u8)) & 1 == 1)
            &&& set_in(e.bottom, k) == ((s[8 + k / 8] >> ((k % 8) as u8)) & 1 == 1)
            &&& set_in(e.left, k) == ((s[16 + k / 8] >> ((k % 8) as u8)) & 1 == 1)
            &&& set_in(e.right, k) == ((s[24 + k / 8] >> ((k % 8) as u8)) & 1 == 1)
            &&& s[32] == e.corners[0] + 2 * e.corners[1] + 4 * e.corners[2] + 8 * e.corners[3]
        }),
{
    let s = bindings::edge_bytes(e);
    let t = codec::le_bytes(e.top as nat, 8);
    let b = codec::le_bytes(e.bottom as nat, 8);
    let l = codec::le_bytes(e.left as nat, 8);
    let r = codec::le_bytes(e.right as nat, 8);
    codec::lemma_pow256_values();
    codec::lemma_le_roundtrip(e.top as nat, 8);
    codec::lemma_le_roundtrip(e.bottom as nat, 8);
    codec::lemma_le_roundtrip(e.left as nat, 8);
    codec::lemma_le_roundtrip(e.right as nat, 8);
    wire::lemma_value_bits(t, k);
    wire::lemma_value_bits(b, k);
    wire::lemma_value_bits(l, k);
    wire::lemma_value_bits(r, k);
    assert(s[k / 8] == t[k / 8]);
    assert(s[8 + k / 8] == b[k / 8]);
    assert(s[16 + k / 8] == l[k / 8]);
    assert(s[24 + k / 8] == r[k / 8]);
    let (c0, c1, c2, c3) = (e.corners[0], e.corners[1], e.corners[2], e.corners[3]);
    assert(c0 <= 1 && c1 <= 1 && c2 <= 1 && c3 <= 1);
    assert(c0 | (c1 << 1) | (c2 << 2) | (c3 << 3) == c0 + 2 * c1 + 4 * c2 + 8 * c3) by (bit_vector)
        requires
            c0 <= 1,
            c1 <= 1,
            c2 <= 1,
            c3 <= 1,
    ;
}

/// The live cells of listed chunks are added up.
pub proof fn law_live_cells_add_up(s: Seq<(ChunkCoord, Chunk)>, e: (ChunkCoord, Chunk))
    ensures
        bindings::total(Seq::empty()) == 0,
        bindings::total(s.push(e)) == bindings::total(s) + lit_among(e.1.rows@, 4096),
{
    assert(s.push(e).drop_last() =~= s);
    law_live_cells_are_counted(e.1.rows@, 64);
}

/// Freezing a rectangle freezes all its cells at what they are, and no other; nothing else changes.
pub proof fn law_rectangles_are_frozen(
    m: Map<ChunkCoord, Chunk>,
    next: Map<ChunkCoord, Chunk>,
    x: int,
    y: int,
    w: int,
    h: int,
    c: ChunkCoord,
    i: int,
    j: int,
)
    requires
        world::pins_all(m, |u: int, v: int| x <= u < x + w && y <= v < y + h, next),
        0 <= i < 64,
        0 <= j < 64,
    ensures
        ({
            let inside = x <= 64 * c.0 + i < x + w && y <= 64 * c.1 + j < y + h;
            let frozen = m.contains_key(c) && m[c].frozen is Some && set_in(
                m[c].frozen->0.mask[j],
                i,
            );
            &&& m.contains_key(c) || inside ==> next.contains_key(c)
            &&& next.contains_key(c) && m.contains_key(c) ==> next[c].rows == m[c].rows
            &&& next.contains_key(c) && !m.contains_key(c) ==> !set_in(next[c].rows[j], i)
            &&& next.contains_key(c) ==> (next[c].frozen is Some && set_in(
                next[c].frozen->0.mask[j],
                i,
            )) == (frozen || inside)
            &&& next.contains_key(c) && inside ==> set_in(next[c].frozen->0.value[j], i) == set_in(
                next[c].rows[j],
                i,
            )
            &&& next.contains_key(c) && frozen && !inside ==> set_in(next[c].frozen->0.value[j], i)
                == set_in(m[c].frozen->0.value[j], i)
        }),
{
    let mask = |u: int, v: int| x <= u < x + w && y <= v < y + h;
    let o = world::lookup(m, c);
    assert(next.contains_key(c) <==> m.contains_key(c) || world::covers(mask, c));
    assert(world::in_mask(mask, c, i, j) == (x <= 64 * c.0 + i < x + w && y <= 64 * c.1 + j < y
        + h));
    if !m.contains_key(c) {
        assert(o.rows@[j] == 0);
        bits::lemma_bit_zero(i);
    }
    if next.contains_key(c) {
        assert(world::pins(o, c, mask, next[c]));
        assert(next[c].frozen_at(i, j) == (o.frozen_at(i, j) || world::in_mask(mask, c, i, j)));
        assert(next[c].pinned_at(i, j) == (if world::in_mask(mask, c, i, j) {
            o.cell(i, j)
        } else {
            o.pinned_at(i, j)
        }));
    }
}

} // verus!
