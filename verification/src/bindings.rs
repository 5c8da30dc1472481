//! Browser bindings: chunks and halos as bytes.
//!
//! Edge-bundle wire format (33 bytes):
//!   `[0..8]`   top row    `[8..16]`  bottom row
//!   `[16..24]` left col   `[24..32]` right col   (bit y = cell at that col, row y)
//!   `[32]`     corners    bit0=TL  bit1=TR  bit2=BL  bit3=BR

use crate::chunk;
use crate::chunk::{Chunk, EdgeBundle, FrozenMask, StepResult};
use crate::codec;
use crate::coord::ChunkCoord;
use crate::protocol;
use crate::protocol::BITS_BYTES;
use crate::world;
use crate::world::{World, WorldState};
use crate::CHUNK_SIZE;
use std::sync::Arc;
use vstd::prelude::*;

verus! {

/// Bytes of an edge bundle.
pub const EDGE_BYTES: usize = 33;

/// The corners, one bit each.
pub open spec fn corner_byte(c: [u8; 4]) -> u8 {
    c[0] | (c[1] << 1) | (c[2] << 2) | (c[3] << 3)
}

/// The bytes of an edge bundle.
pub open spec fn edge_bytes(e: EdgeBundle) -> Seq<u8> {
    codec::le_bytes(e.top as nat, 8) + codec::le_bytes(e.bottom as nat, 8) + codec::le_bytes(
        e.left as nat,
        8,
    ) + codec::le_bytes(e.right as nat, 8) + seq![corner_byte(e.corners)]
}

/// `e` is the edge bundle in the bytes.
pub open spec fn reads_edge(s: Seq<u8>, e: EdgeBundle) -> bool {
    &&& e.top == protocol::num_at(s, 0, 8)
    &&& e.bottom == protocol::num_at(s, 8, 8)
    &&& e.left == protocol::num_at(s, 16, 8)
    &&& e.right == protocol::num_at(s, 24, 8)
    &&& e.corners[0] == s[32] & 1
    &&& e.corners[1] == (s[32] >> 1) & 1
    &&& e.corners[2] == (s[32] >> 2) & 1
    &&& e.corners[3] == (s[32] >> 3) & 1
}

/// `ch` has the cells of the bitset, and those under the mask are frozen. A mask that has not the
/// length of a bitset freezes nothing.
pub open spec fn reads_chunk(s: Seq<u8>, mask: Seq<u8>, ch: Chunk) -> bool {
    &&& ch.rows == protocol::rows_from(s)
    &&& match ch.frozen {
        Some(m) => {
            &&& mask.len() == BITS_BYTES
            &&& m.mask == protocol::rows_from(mask)
            &&& forall|y: int|
                0 <= y < CHUNK_SIZE ==> #[trigger] m.value[y] == ch.rows[y] & m.mask[y]
        },
        None => mask.len() != BITS_BYTES,
    }
}

/// The bitset one generation after `ch`, which has the cells of `s`, in the halo `e`.
pub open spec fn stepped_bytes(s: Seq<u8>, ch: Chunk, e: EdgeBundle) -> Seq<u8> {
    if ch.blank() && e.zero() {
        s
    } else {
        protocol::rows_bytes(ch.next(ch.within(e)).rows@)
    }
}

fn bytes_to_rows(s: &[u8]) -> (rows: [u64; CHUNK_SIZE])
    requires
        s@.len() == BITS_BYTES,
    ensures
        rows == protocol::rows_from(s@),
{
    let bits = protocol::copy_bits(s, 0);
    assert(bits@ =~= s@);
    protocol::bits_to_rows(&bits)
}

fn rows_to_bytes(rows: &[u64; CHUNK_SIZE]) -> (out: Vec<u8>)
    ensures
        out@ == protocol::rows_bytes(rows@),
{
    let mut out: Vec<u8> = Vec::with_capacity(BITS_BYTES);
    let bits = protocol::rows_to_bits(rows);
    protocol::push_all(&mut out, bits.as_slice());
    assert(out@ =~= bits@);
    out
}

/// Encode an edge bundle.
pub fn edge_to_bytes(e: &EdgeBundle) -> (out: Vec<u8>)
    ensures
        out@ == edge_bytes(*e),
{
    let mut out: Vec<u8> = Vec::with_capacity(EDGE_BYTES);
    codec::push_le(&mut out, e.top, 8);
    codec::push_le(&mut out, e.bottom, 8);
    codec::push_le(&mut out, e.left, 8);
    codec::push_le(&mut out, e.right, 8);
    out.push(e.corners[0] | (e.corners[1] << 1) | (e.corners[2] << 2) | (e.corners[3] << 3));
    assert(out@ =~= edge_bytes(*e));
    out
}

/// Decode an edge bundle.
pub fn edge_from_bytes(halo: &[u8]) -> (e: EdgeBundle)
    requires
        halo@.len() == EDGE_BYTES,
    ensures
        reads_edge(halo@, e),
{
    let c = halo[32];
    EdgeBundle {
        top: codec::read_le(halo, 0, 8),
        bottom: codec::read_le(halo, 8, 8),
        left: codec::read_le(halo, 16, 8),
        right: codec::read_le(halo, 24, 8),
        corners: [c & 1, (c >> 1) & 1, (c >> 2) & 1, (c >> 3) & 1],
    }
}

fn build_frozen(frozen_mask: &[u8], rows: &[u64; CHUNK_SIZE]) -> (r: Option<Arc<FrozenMask>>)
    ensures
        match r {
            Some(m) => {
                &&& frozen_mask@.len() == BITS_BYTES
                &&& m.mask == protocol::rows_from(frozen_mask@)
                &&& forall|y: int|
                    0 <= y < CHUNK_SIZE ==> #[trigger] m.value[y] == rows[y] & m.mask[y]
            },
            None => frozen_mask@.len() != BITS_BYTES,
        },
{
    if frozen_mask.len() != BITS_BYTES {
        return None;
    }
    let mask = bytes_to_rows(frozen_mask);
    let mut value = [0u64;CHUNK_SIZE];
    let mut y: usize = 0;
    while y < CHUNK_SIZE
        invariant
            y <= CHUNK_SIZE,
            forall|j: int| 0 <= j < y ==> #[trigger] value[j] == rows[j] & mask[j],
        decreases CHUNK_SIZE - y,
    {
        value[y] = rows[y] & mask[y];
        y = y + 1;
    }
    Some(Arc::new(FrozenMask { mask, value }))
}

/// Compute the edge bundle for a chunk.
/// Input: 512-byte chunk bitset. Output: 33 bytes in edge-bundle wire format.
pub fn chunk_edges(bits: &[u8]) -> (out: Vec<u8>)
    requires
        bits@.len() == BITS_BYTES,
    ensures
        exists|ch: Chunk, e: EdgeBundle|
            ch.rows == protocol::rows_from(bits@) && #[trigger] ch.bordered_by(e) && out@
                == edge_bytes(e),
{
    let chunk = Chunk::from_rows_and_frozen(bytes_to_rows(bits), None);
    let e = chunk.edges();
    let out = edge_to_bytes(&e);
    assert(chunk.bordered_by(e));
    out
}

/// Advance a chunk by one GoL step.
/// `bits`: 512-byte chunk bitset.
/// `halo`: 33-byte edge-bundle assembled by the caller from neighbor chunks.
/// `frozen_mask`: 512-byte frozen-cell mask (1 bit = frozen), or empty if none.
/// Returns 512 new bytes.
pub fn step_chunk(bits: &[u8], halo: &[u8], frozen_mask: &[u8]) -> (out: Vec<u8>)
    requires
        bits@.len() == BITS_BYTES,
        halo@.len() == EDGE_BYTES,
    ensures
        exists|ch: Chunk, e: EdgeBundle| #[trigger]
            reads_chunk(bits@, frozen_mask@, ch) && #[trigger] reads_edge(halo@, e) && out@
                == stepped_bytes(bits@, ch, e),
{
    let rows = bytes_to_rows(bits);
    let frozen = build_frozen(frozen_mask, &rows);
    let chunk = Chunk::from_rows_and_frozen(rows, frozen);
    let e = edge_from_bytes(halo);
    let out = match chunk.step(&e) {
        StepResult::Stepped(c) => {
            proof {
                chunk.lemma_next(chunk.within(e));
            }
            rows_to_bytes(c.rows())
        },
        StepResult::Unchanged => {
            let mut same: Vec<u8> = Vec::with_capacity(BITS_BYTES);
            protocol::push_all(&mut same, bits);
            assert(same@ =~= bits@);
            same
        },
    };
    assert(reads_chunk(bits@, frozen_mask@, chunk) && reads_edge(halo@, e));
    out
}

/// An edge bundle whose corners are bits is read back from its bytes.
pub proof fn law_edge_roundtrip(e: EdgeBundle)
    requires
        forall|k: int| 0 <= k < 4 ==> #[trigger] e.corners[k] <= 1,
    ensures
        edge_bytes(e).len() == EDGE_BYTES,
        reads_edge(edge_bytes(e), e),
        forall|d: EdgeBundle| #[trigger] reads_edge(edge_bytes(e), d) ==> d == e,
{
    let s = edge_bytes(e);
    let t = codec::le_bytes(e.top as nat, 8);
    let b = codec::le_bytes(e.bottom as nat, 8);
    let l = codec::le_bytes(e.left as nat, 8);
    let r = codec::le_bytes(e.right as nat, 8);
    let c = seq![corner_byte(e.corners)];
    codec::lemma_pow256_values();
    protocol::lemma_num_at(Seq::empty(), e.top as nat, 8, b + l + r + c);
    protocol::lemma_num_at(t, e.bottom as nat, 8, l + r + c);
    protocol::lemma_num_at(t + b, e.left as nat, 8, r + c);
    protocol::lemma_num_at(t + b + l, e.right as nat, 8, c);
    assert(s =~= Seq::empty() + t + (b + l + r + c));
    assert(s =~= t + b + (l + r + c));
    assert(s =~= t + b + l + (r + c));
    let (c0, c1, c2, c3) = (e.corners[0], e.corners[1], e.corners[2], e.corners[3]);
    assert({
        let v = c0 | (c1 << 1) | (c2 << 2) | (c3 << 3);
        v & 1 == c0 && (v >> 1) & 1 == c1 && (v >> 2) & 1 == c2 && (v >> 3) & 1 == c3
    }) by (bit_vector)
        requires
            c0 <= 1,
            c1 <= 1,
            c2 <= 1,
            c3 <= 1,
    ;
    assert forall|d: EdgeBundle| #[trigger] reads_edge(s, d) implies d == e by {
        assert(d.corners =~= e.corners);
    }
}

/// The live cells of all chunks of a list.
pub open spec fn total(s: Seq<(ChunkCoord, Chunk)>) -> nat
    decreases s.len(),
{
    if s.len() == 0 {
        0
    } else {
        total(s.drop_last()) + chunk::live_cells(s.last().1.rows@, CHUNK_SIZE as nat)
    }
}

/// A world for the browser.
#[derive(Debug)]
pub struct WasmWorld(World);

impl View for WasmWorld {
    type V = WorldState;

    closed spec fn view(&self) -> WorldState {
        self.0@
    }
}

impl WasmWorld {
    /// An empty world.
    pub fn new() -> (w: Self)
        ensures
            w@.wf(),
            w@ == WorldState::void(),
    {
        WasmWorld(World::new())
    }

    /// Whether a tick can be taken.
    pub fn ready(&self) -> (b: bool)
        requires
            self@.wf(),
        ensures
            b == self@.ready(),
    {
        self.0.ready()
    }

    /// Advance by one tick.
    pub fn tick(&mut self)
        requires
            old(self)@.wf(),
            old(self)@.ready(),
        ensures
            final(self)@.wf(),
            old(self)@.ticks_to(final(self)@),
    {
        let _ = self.0.tick();
    }

    /// Number of ticks so far.
    pub fn tick_number(&self) -> (t: u64)
        ensures
            t == self@.tick,
    {
        self.0.tick_number()
    }

    /// Set a cell.
    pub fn set_cell(&mut self, x: i64, y: i64, alive: bool)
        requires
            world::addressable(x as int, y as int),
        ensures
            final(self)@ == old(self)@.edited(x as int, y as int, alive),
            old(self)@.wf() ==> final(self)@.wf(),
    {
        self.0.set_cell(x, y, alive);
    }

    /// Whether the live cells can be counted: there are not too many for a `u32`.
    pub fn countable(&self) -> (b: bool)
        ensures
            b == forall|s: Seq<(ChunkCoord, Chunk)>| #[trigger]
                self@.lists(s) ==> total(s) <= u32::MAX,
    {
        let all = self.0.iter_chunks();
        let ghost s = all@.map_values(|e: (ChunkCoord, &Chunk)| (e.0, *e.1));
        let mut n: u64 = 0;
        let mut i: usize = 0;
        assert(self@.lists(s));
        assert(s.take(0) =~= Seq::<(ChunkCoord, Chunk)>::empty());
        while i < all.len()
            invariant
                i <= all.len(),
                self@.lists(s),
                s == all@.map_values(|e: (ChunkCoord, &Chunk)| (e.0, *e.1)),
                n == total(s.take(i as int)),
                n <= u32::MAX,
            decreases all.len() - i,
        {
            proof {
                assert(s.take(i + 1).drop_last() =~= s.take(i as int));
                lemma_total_grows(s, i + 1);
            }
            n = n + all[i].1.live_count() as u64;
            if n > u32::MAX as u64 {
                return false;
            }
            i = i + 1;
        }
        proof {
            assert(s.take(i as int) =~= s);
            assert forall|t: Seq<(ChunkCoord, Chunk)>| #[trigger] self@.lists(t) implies total(t)
                <= u32::MAX by {
                lemma_total_is_fixed(self@, s, t);
            }
        }
        true
    }

    /// Number of live cells.
    pub fn live_count(&self) -> (n: u32)
        requires
            forall|s: Seq<(ChunkCoord, Chunk)>| #[trigger]
                self@.lists(s) ==> total(s) <= u32::MAX,
        ensures
            exists|s: Seq<(ChunkCoord, Chunk)>| #[trigger] self@.lists(s),
            forall|s: Seq<(ChunkCoord, Chunk)>| #[trigger] self@.lists(s) ==> n == total(s),
    {
        let all = self.0.iter_chunks();
        let ghost s = all@.map_values(|e: (ChunkCoord, &Chunk)| (e.0, *e.1));
        let mut n: u32 = 0;
        let mut i: usize = 0;
        assert(self@.lists(s));
        assert(s.take(0) =~= Seq::<(ChunkCoord, Chunk)>::empty());
        while i < all.len()
            invariant
                i <= all.len(),
                s == all@.map_values(|e: (ChunkCoord, &Chunk)| (e.0, *e.1)),
                n == total(s.take(i as int)),
                total(s) <= u32::MAX,
            decreases all.len() - i,
        {
            proof {
                assert(s.take(i + 1).drop_last() =~= s.take(i as int));
                lemma_total_grows(s, i + 1);
            }
            n = n + all[i].1.live_count();
            i = i + 1;
        }
        proof {
            assert(s.take(i as int) =~= s);
            assert forall|t: Seq<(ChunkCoord, Chunk)>| #[trigger] self@.lists(t) implies n == total(
                t,
            ) by {
                lemma_total_is_fixed(self@, s, t);
            }
        }
        n
    }
}

impl Default for WasmWorld {
    fn default() -> (w: Self)
        ensures
            w@ == WorldState::void(),
    {
        Self::new()
    }
}

/// The live cells of two lists.
proof fn lemma_total_adds(s: Seq<(ChunkCoord, Chunk)>, t: Seq<(ChunkCoord, Chunk)>)
    ensures
        total(s + t) == total(s) + total(t),
    decreases t.len(),
{
    if t.len() == 0 {
        assert(s + t =~= s);
    } else {
        lemma_total_adds(s, t.drop_last());
        assert((s + t).drop_last() =~= s + t.drop_last());
        assert((s + t).last() == t.last());
    }
}

/// The live cells of the same chunks are as many in whatever order they are listed.
proof fn lemma_total_reordered(
    a: Seq<ChunkCoord>,
    b: Seq<ChunkCoord>,
    f: spec_fn(ChunkCoord) -> (ChunkCoord, Chunk),
)
    requires
        a.no_duplicates(),
        b.no_duplicates(),
        a.to_set() == b.to_set(),
    ensures
        total(a.map_values(f)) == total(b.map_values(f)),
    decreases a.len(),
{
    if a.len() == 0 {
        if b.len() > 0 {
            assert(b.to_set().contains(b[0]));
            assert(a.to_set().contains(b[0]));
        }
        assert(a.map_values(f) =~= b.map_values(f));
    } else {
        let x = a.last();
        assert(a.contains(x));
        assert(a.to_set().contains(x));
        assert(b.to_set().contains(x));
        let k = choose|k: int| 0 <= k < b.len() && b[k] == x;
        let front = b.take(k);
        let back = b.skip(k + 1);
        let rest = front + back;
        let a0 = a.drop_last();
        assert(b =~= front + seq![x] + back);
        assert(rest.no_duplicates()) by {
            assert forall|i: int, j: int|
                0 <= i < rest.len() && 0 <= j < rest.len() && i != j implies rest[i] != rest[j] by {
                let p = if i < k { i } else { i + 1 };
                let q = if j < k { j } else { j + 1 };
                assert(rest[i] == b[p] && rest[j] == b[q]);
            }
        }
        assert forall|c: ChunkCoord| #[trigger] a0.to_set().contains(c) == rest.to_set().contains(
            c,
        ) by {
            if a0.contains(c) {
                let i = choose|i: int| 0 <= i < a0.len() && a0[i] == c;
                assert(a[i] == c);
                assert(c != x);
                assert(a.to_set().contains(c));
                assert(b.to_set().contains(c));
                let j = choose|j: int| 0 <= j < b.len() && b[j] == c;
                assert(rest[if j < k { j } else { j - 1 }] == c);
            }
            if rest.contains(c) {
                let i = choose|i: int| 0 <= i < rest.len() && rest[i] == c;
                let p = if i < k { i } else { i + 1 };
                assert(b[p] == c);
                assert(c != x);
                assert(b.to_set().contains(c));
                assert(a.to_set().contains(c));
                let j = choose|j: int| 0 <= j < a.len() && a[j] == c;
                assert(a0[j] == c);
            }
        }
        assert(a0.to_set() =~= rest.to_set());
        lemma_total_reordered(a0, rest, f);
        let one = seq![f(x)];
        lemma_total_adds(a0.map_values(f), one);
        lemma_total_adds(front.map_values(f), one);
        lemma_total_adds(front.map_values(f) + one, back.map_values(f));
        lemma_total_adds(front.map_values(f), back.map_values(f));
        assert(a.map_values(f) =~= a0.map_values(f) + one);
        assert(b.map_values(f) =~= front.map_values(f) + one + back.map_values(f));
        assert(rest.map_values(f) =~= front.map_values(f) + back.map_values(f));
    }
}

/// All lists of the chunks of a world have the same number of live cells.
proof fn lemma_total_is_fixed(
    w: WorldState,
    s: Seq<(ChunkCoord, Chunk)>,
    t: Seq<(ChunkCoord, Chunk)>,
)
    requires
        w.lists(s),
        w.lists(t),
    ensures
        total(s) == total(t),
{
    let f = |c: ChunkCoord| (c, w.chunks[c]);
    let g = |c: ChunkCoord| (c, w.oscillators[c].chunk);
    let (a, b) = choose|a: Seq<ChunkCoord>, b: Seq<ChunkCoord>| #[trigger] w.lists_as(a, b, s);
    let (c, d) = choose|c: Seq<ChunkCoord>, d: Seq<ChunkCoord>| #[trigger] w.lists_as(c, d, t);
    lemma_total_reordered(a, c, f);
    lemma_total_reordered(b, d, g);
    lemma_total_adds(a.map_values(f), b.map_values(g));
    lemma_total_adds(c.map_values(f), d.map_values(g));
    assert(s =~= a.map_values(f) + b.map_values(g));
    assert(t =~= c.map_values(f) + d.map_values(g));
}

/// The more chunks, the more live cells.
proof fn lemma_total_grows(s: Seq<(ChunkCoord, Chunk)>, i: int)
    requires
        0 <= i <= s.len(),
    ensures
        total(s.take(i)) <= total(s),
    decreases s.len() - i,
{
    if i < s.len() {
        lemma_total_grows(s, i + 1);
        assert(s.take(i + 1).drop_last() =~= s.take(i));
    } else {
        assert(s.take(i) =~= s);
    }
}

} // verus!
