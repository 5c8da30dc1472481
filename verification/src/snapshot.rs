//! Snapshot of the world. Format:
//!
//!   magic[8]="LAZOSWLD" version:u32=1 chunk_size:u8 tick:u64 count:u32
//!   { cx:i32 cy:i32 frozen_flag:u8 bits:[512]
//!     if frozen_flag != 0 { mask:[512] value:[512] } } * count
//!
//! All little-endian. No compression.

use crate::chunk::{Chunk, FrozenMask};
use crate::codec;
use crate::coord::ChunkCoord;
use crate::protocol;
use crate::protocol::BITS_BYTES;
use crate::sort;
use crate::world::{World, WorldState};
use crate::CHUNK_SIZE;
use std::sync::Arc;
use vstd::prelude::*;

verus! {

/// Version of the format.
pub const VERSION: u32 = 1;

/// Bytes before the first chunk.
pub const HEADER_BYTES: usize = 25;

/// Bytes of a chunk without frozen cells.
pub const PLAIN_BYTES: usize = 9 + BITS_BYTES;

/// Bytes of a chunk with frozen cells.
pub const FROZEN_BYTES: usize = 9 + 3 * BITS_BYTES;

/// Why bytes are no snapshot that can be loaded.
#[derive(Debug, Clone, Copy, PartialEq, Eq)]
pub enum SnapshotError {
    Truncated,
    BadMagic,
    BadVersion(u32),
    BadChunkSize(u8),
}

/// "LAZOSWLD"
pub open spec fn magic() -> Seq<u8> {
    seq![0x4c, 0x41, 0x5a, 0x4f, 0x53, 0x57, 0x4c, 0x44]
}

/// One chunk in the snapshot.
pub open spec fn entry_bytes(c: ChunkCoord, ch: Chunk) -> Seq<u8> {
    protocol::coord_bytes(c) + (match ch.frozen {
        None => seq![0u8] + protocol::rows_bytes(ch.rows@),
        Some(m) => seq![1u8] + protocol::rows_bytes(ch.rows@) + protocol::rows_bytes(m.mask@)
            + protocol::rows_bytes(m.value@),
    })
}

/// What the snapshot has for coordinate `c`: the chunk that is awake, then the one that is
/// paused, as it was when it was paused.
pub open spec fn place_bytes(w: WorldState, c: ChunkCoord) -> Seq<u8> {
    (if w.chunks.contains_key(c) {
        entry_bytes(c, w.chunks[c])
    } else {
        Seq::empty()
    }) + (if w.oscillators.contains_key(c) {
        entry_bytes(c, w.oscillators[c].chunk)
    } else {
        Seq::empty()
    })
}

pub open spec fn header_bytes(tick: u64, count: nat) -> Seq<u8> {
    magic() + codec::le_bytes(VERSION as nat, 4) + seq![CHUNK_SIZE as u8] + codec::le_bytes(
        tick as nat,
        8,
    ) + codec::le_bytes(count, 4)
}

/// `order` lists the coordinates of all chunks, each once, in ascending order.
pub open spec fn ordered(w: WorldState, order: Seq<ChunkCoord>) -> bool {
    &&& sort::ascending(order)
    &&& order.no_duplicates()
    &&& forall|c: ChunkCoord| #[trigger]
        order.contains(c) <==> w.chunks.contains_key(c) || w.oscillators.contains_key(c)
}

/// `s` is the snapshot of the world `w`.
pub open spec fn is_snapshot(w: WorldState, s: Seq<u8>) -> bool {
    exists|order: Seq<ChunkCoord>| #[trigger] ordered(w, order) && s == header_bytes(
        w.tick,
        w.chunks.len() + w.oscillators.len(),
    ) + codec::joined(order.len(), |k: int| place_bytes(w, order[k]))
}

/// The chunk in the entry at `at`.
pub open spec fn chunk_from(s: Seq<u8>, at: int) -> Chunk {
    let n = BITS_BYTES as int;
    Chunk {
        rows: protocol::rows_from(s.subrange(at + 9, at + 9 + n)),
        frozen: if s[at + 8] == 0 {
            None
        } else {
            Some(
                Arc::new(
                    FrozenMask {
                        mask: protocol::rows_from(s.subrange(at + 9 + n, at + 9 + 2 * n)),
                        value: protocol::rows_from(s.subrange(at + 9 + 2 * n, at + 9 + 3 * n)),
                    },
                ),
            )
        },
    }
}

/// Bytes of the entry at `at`.
pub open spec fn entry_len(s: Seq<u8>, at: int) -> int {
    if s[at + 8] == 0 {
        PLAIN_BYTES as int
    } else {
        FROZEN_BYTES as int
    }
}

/// Whether the entry at `at` is there in full.
pub open spec fn has_entry(s: Seq<u8>, at: int) -> bool {
    at + PLAIN_BYTES <= s.len() && at + entry_len(s, at) <= s.len()
}

/// `m` with the `n` entries from `at` on added; a later entry replaces an earlier one.
pub open spec fn entries_from(
    s: Seq<u8>,
    at: int,
    n: nat,
    m: Map<ChunkCoord, Chunk>,
) -> Option<Map<ChunkCoord, Chunk>>
    decreases n,
{
    if n == 0 {
        Some(m)
    } else if !has_entry(s, at) {
        None
    } else {
        entries_from(
            s,
            at + entry_len(s, at),
            (n - 1) as nat,
            m.insert(
                (protocol::i32_at(s, at), protocol::i32_at(s, at + 4)),
                chunk_from(s, at),
            ),
        )
    }
}

/// The world that a snapshot holds.
pub open spec fn world_from(s: Seq<u8>) -> Result<WorldState, SnapshotError> {
    if s.len() < 8 {
        Err(SnapshotError::Truncated)
    } else if s.subrange(0, 8) != magic() {
        Err(SnapshotError::BadMagic)
    } else if s.len() < 12 {
        Err(SnapshotError::Truncated)
    } else if protocol::num_at(s, 8, 4) != VERSION {
        Err(SnapshotError::BadVersion(protocol::num_at(s, 8, 4) as u32))
    } else if s.len() < 13 {
        Err(SnapshotError::Truncated)
    } else if s[12] != CHUNK_SIZE {
        Err(SnapshotError::BadChunkSize(s[12]))
    } else if s.len() < HEADER_BYTES {
        Err(SnapshotError::Truncated)
    } else {
        match entries_from(s, HEADER_BYTES as int, protocol::num_at(s, 21, 4), Map::empty()) {
            Some(chunks) => Ok(
                WorldState { chunks, tick: protocol::num_at(s, 13, 8) as u64, ..WorldState::void() },
            ),
            None => Err(SnapshotError::Truncated),
        }
    }
}

fn magic_array() -> (m: [u8; 8])
    ensures
        m@ == magic(),
{
    let m: [u8; 8] = [0x4c, 0x41, 0x5a, 0x4f, 0x53, 0x57, 0x4c, 0x44];
    assert(m@ =~= magic());
    m
}

fn push_rows(out: &mut Vec<u8>, rows: &[u64; CHUNK_SIZE])
    ensures
        final(out)@ == old(out)@ + protocol::rows_bytes(rows@),
{
    let bits = protocol::rows_to_bits(rows);
    protocol::push_all(out, bits.as_slice());
}

fn push_entry(out: &mut Vec<u8>, c: ChunkCoord, ch: &Chunk)
    ensures
        final(out)@ == old(out)@ + entry_bytes(c, *ch),
{
    let ghost start = out@;
    protocol::push_coord(out, c);
    match &ch.frozen {
        None => {
            out.push(0);
            push_rows(out, &ch.rows);
        },
        Some(m) => {
            out.push(1);
            push_rows(out, &ch.rows);
            push_rows(out, &m.mask);
            push_rows(out, &m.value);
        },
    }
    assert(out@ =~= start + entry_bytes(c, *ch));
}

/// Serialize the entire world to an in-memory buffer.
pub fn serialize(world: &World) -> (buf: Vec<u8>)
    requires
        world@.chunks.len() + world@.oscillators.len() <= u32::MAX,
    ensures
        is_snapshot(world@, buf@),
{
    let ghost w = world@;
    let mut buf: Vec<u8> = Vec::new();
    protocol::push_all(&mut buf, magic_array().as_slice());
    codec::push_le(&mut buf, VERSION as u64, 4);
    buf.push(CHUNK_SIZE as u8);
    codec::push_le(&mut buf, world.tick_number(), 8);
    codec::push_le(&mut buf, world.len() as u64, 4);
    let order = world.coords();
    let ghost f = |k: int| place_bytes(w, order@[k]);
    let ghost head = buf@;
    assert(head =~= header_bytes(w.tick, w.chunks.len() + w.oscillators.len()));
    let mut i: usize = 0;
    assert(head + codec::joined(0, f) =~= head);
    while i < order.len()
        invariant
            i <= order.len(),
            w == world@,
            f == (|k: int| place_bytes(w, order@[k])),
            buf@ == head + codec::joined(i as nat, f),
        decreases order.len() - i,
    {
        let c = order[i];
        let ghost before = buf@;
        if let Some(ch) = world.get_live_chunk(c) {
            push_entry(&mut buf, c, ch);
        }
        if let Some(ch) = world.get_paused_chunk(c) {
            push_entry(&mut buf, c, ch);
        }
        proof {
            assert(buf@ =~= before + place_bytes(w, c));
            assert(buf@ =~= head + codec::joined((i + 1) as nat, f));
        }
        i = i + 1;
    }
    assert(ordered(w, order@));
    buf
}

/// The rows in the bitset at `at`.
fn read_rows(buf: &[u8], at: usize) -> (rows: [u64; CHUNK_SIZE])
    requires
        at + BITS_BYTES <= buf@.len(),
    ensures
        rows == protocol::rows_from(buf@.subrange(at as int, at + BITS_BYTES)),
{
    let bits = protocol::copy_bits(buf, at);
    protocol::bits_to_rows(&bits)
}

/// Load a world from the bytes of a snapshot.
pub fn load(buf: &[u8]) -> (r: Result<World, SnapshotError>)
    ensures
        match r {
            Ok(w) => w@.wf() && world_from(buf@) == Ok::<WorldState, SnapshotError>(w@),
            Err(e) => world_from(buf@) == Err::<WorldState, SnapshotError>(e),
        },
{
    let n = buf.len();
    if n < 8 {
        return Err(SnapshotError::Truncated);
    }
    let m = magic_array();
    let mut i: usize = 0;
    while i < 8
        invariant
            i <= 8,
            n == buf@.len(),
            n >= 8,
            m@ == magic(),
            forall|j: int| 0 <= j < i ==> buf@[j] == m[j],
        decreases 8 - i,
    {
        if buf[i] != m[i] {
            assert(buf@.subrange(0, 8)[i as int] != magic()[i as int]);
            return Err(SnapshotError::BadMagic);
        }
        i = i + 1;
    }
    assert(buf@.subrange(0, 8) =~= magic());
    if n < 12 {
        return Err(SnapshotError::Truncated);
    }
    let version = protocol::read_u32(buf, 8);
    if version != VERSION {
        return Err(SnapshotError::BadVersion(version));
    }
    if n < 13 {
        return Err(SnapshotError::Truncated);
    }
    if buf[12] as usize != CHUNK_SIZE {
        return Err(SnapshotError::BadChunkSize(buf[12]));
    }
    if n < HEADER_BYTES {
        return Err(SnapshotError::Truncated);
    }
    let tick = codec::read_le(buf, 13, 8);
    let count = protocol::read_u32(buf, 21);
    let mut world = World::new();
    world.set_tick_number(tick);
    let ghost all = entries_from(buf@, HEADER_BYTES as int, count as nat, Map::empty());
    let mut at: usize = HEADER_BYTES;
    let mut k: u32 = 0;
    while k < count
        invariant
            k <= count,
            n == buf@.len(),
            at <= n,
            world@.wf(),
            world@ == (WorldState { chunks: world@.chunks, tick, ..WorldState::void() }),
            all == entries_from(buf@, at as int, (count - k) as nat, world@.chunks),
            world_from(buf@) == (match all {
                Some(chunks) => Ok::<WorldState, SnapshotError>(
                    WorldState { chunks, tick, ..WorldState::void() },
                ),
                None => Err(SnapshotError::Truncated),
            }),
        decreases count - k,
    {
        if n - at < PLAIN_BYTES {
            return Err(SnapshotError::Truncated);
        }
        let cx = protocol::read_i32(buf, at);
        let cy = protocol::read_i32(buf, at + 4);
        let frozen_flag = buf[at + 8];
        if frozen_flag != 0 && n - at < FROZEN_BYTES {
            return Err(SnapshotError::Truncated);
        }
        let rows = read_rows(buf, at + 9);
        let frozen = if frozen_flag == 0 {
            None
        } else {
            Some(
                Arc::new(
                    FrozenMask {
                        mask: read_rows(buf, at + 9 + BITS_BYTES),
                        value: read_rows(buf, at + 9 + 2 * BITS_BYTES),
                    },
                ),
            )
        };
        let ch = Chunk::from_rows_and_frozen(rows, frozen);
        proof {
            assert(has_entry(buf@, at as int));
            assert(ch == chunk_from(buf@, at as int));
        }
        world.insert_chunk((cx, cy), ch);
        at = at + if frozen_flag == 0 {
            PLAIN_BYTES
        } else {
            FROZEN_BYTES
        };
        k = k + 1;
    }
    Ok(world)
}

proof fn lemma_rows_bytes_len(rows: [u64; CHUNK_SIZE])
    ensures
        protocol::rows_bytes(rows@).len() == BITS_BYTES,
        protocol::rows_from(protocol::rows_bytes(rows@)) == rows,
{
    let some = Seq::new(BITS_BYTES as nat, |i: int| 0u8);
    protocol::law_rows_roundtrip(rows@, some);
    protocol::lemma_rows_from(protocol::rows_bytes(rows@), rows);
}

/// An entry is read back from where it was written.
proof fn lemma_entry_roundtrip(a: Seq<u8>, c: ChunkCoord, ch: Chunk, b: Seq<u8>)
    ensures
        ({
            let s = a + entry_bytes(c, ch) + b;
            let at = a.len() as int;
            &&& has_entry(s, at)
            &&& entry_len(s, at) == entry_bytes(c, ch).len()
            &&& chunk_from(s, at) == ch
            &&& (protocol::i32_at(s, at), protocol::i32_at(s, at + 4)) == c
        }),
{
    let e = entry_bytes(c, ch);
    let s = a + e + b;
    let at = a.len() as int;
    let x = protocol::i32_bytes(c.0);
    let y = protocol::i32_bytes(c.1);
    let n = BITS_BYTES as int;
    let rb = protocol::rows_bytes(ch.rows@);
    lemma_rows_bytes_len(ch.rows);
    protocol::lemma_i32_at(a, c.0, e.skip(4) + b);
    protocol::lemma_i32_at(a + x, c.1, e.skip(8) + b);
    assert(e =~= x + e.skip(4));
    assert(e =~= x + y + e.skip(8));
    assert(s =~= a + x + (e.skip(4) + b));
    assert(s =~= a + x + y + (e.skip(8) + b));
    match ch.frozen {
        None => {
            assert(s.subrange(at + 9, at + 9 + n) =~= rb);
            assert(s[at + 8] == 0);
        },
        Some(m) => {
            let mb = protocol::rows_bytes(m.mask@);
            let vb = protocol::rows_bytes(m.value@);
            lemma_rows_bytes_len(m.mask);
            lemma_rows_bytes_len(m.value);
            assert(s[at + 8] == 1);
            assert(s.subrange(at + 9, at + 9 + n) =~= rb);
            assert(s.subrange(at + 9 + n, at + 9 + 2 * n) =~= mb);
            assert(s.subrange(at + 9 + 2 * n, at + 9 + 3 * n) =~= vb);
        },
    }
}

/// The chunks in `list` at which [`World::get_chunk`](crate::world::World::get_chunk) finds one.
pub open spec fn shown(w: WorldState, list: Seq<ChunkCoord>) -> Map<ChunkCoord, Chunk> {
    Map::new(
        |c: ChunkCoord| list.contains(c) && w.visible(c) is Some,
        |c: ChunkCoord| w.visible(c)->0,
    )
}

/// The first of the entries is read back.
proof fn lemma_first_entry(
    a: Seq<u8>,
    c: ChunkCoord,
    ch: Chunk,
    b: Seq<u8>,
    n: nat,
    m: Map<ChunkCoord, Chunk>,
)
    requires
        n > 0,
    ensures
        ({
            let s = a + entry_bytes(c, ch) + b;
            entries_from(s, a.len() as int, n, m) == entries_from(
                s,
                (a + entry_bytes(c, ch)).len() as int,
                (n - 1) as nat,
                m.insert(c, ch),
            )
        }),
{
    lemma_entry_roundtrip(a, c, ch, b);
}

/// What is shown of a list is what is shown of its head and of its tail.
proof fn lemma_shown_first(
    w: WorldState,
    list: Seq<ChunkCoord>,
    m: Map<ChunkCoord, Chunk>,
    ch: Chunk,
)
    requires
        list.len() > 0,
        list.no_duplicates(),
        w.visible(list[0]) == Some(ch),
    ensures
        list.drop_first().no_duplicates(),
        forall|d: ChunkCoord| #[trigger] list.drop_first().contains(d) ==> list.contains(d),
        m.insert(list[0], ch).union_prefer_right(shown(w, list.drop_first()))
            == m.union_prefer_right(shown(w, list)),
{
    let rest = list.drop_first();
    let c = list[0];
    assert forall|d: ChunkCoord| #[trigger] list.contains(d) <==> d == c || rest.contains(d) by {
        if list.contains(d) {
            let i = choose|i: int| 0 <= i < list.len() && list[i] == d;
            if i > 0 {
                assert(rest[i - 1] == d);
            }
        }
        if rest.contains(d) {
            let i = choose|i: int| 0 <= i < rest.len() && rest[i] == d;
            assert(list[i + 1] == d);
        }
    }
    assert(m.insert(c, ch).union_prefer_right(shown(w, rest)) =~= m.union_prefer_right(
        shown(w, list),
    ));
}

/// The entries of the coordinates in `list`, one after the other, are read back.
proof fn lemma_entries_roundtrip(
    w: WorldState,
    list: Seq<ChunkCoord>,
    a: Seq<u8>,
    b: Seq<u8>,
    m: Map<ChunkCoord, Chunk>,
)
    requires
        list.no_duplicates(),
        forall|c: ChunkCoord| #[trigger]
            list.contains(c) ==> (w.chunks.contains_key(c) != w.oscillators.contains_key(c)),
    ensures
        entries_from(
            a + codec::joined(list.len(), |k: int| place_bytes(w, list[k])) + b,
            a.len() as int,
            list.len(),
            m,
        ) == Some(m.union_prefer_right(shown(w, list))),
    decreases list.len(),
{
    let f = |k: int| place_bytes(w, list[k]);
    let s = a + codec::joined(list.len(), f) + b;
    if list.len() == 0 {
        assert(m.union_prefer_right(shown(w, list)) =~= m);
    } else {
        let c = list[0];
        assert(list.contains(c));
        let rest = list.drop_first();
        let g = |k: int| place_bytes(w, rest[k]);
        let ch = w.visible(c)->0;
        let p = entry_bytes(c, ch);
        let tail = codec::joined(rest.len(), g);
        assert(place_bytes(w, c) =~= p);
        lemma_joined_first(list.len(), f);
        codec::lemma_joined_same(rest.len(), |k: int| f(k + 1), g);
        assert(s =~= a + p + (tail + b));
        assert(s =~= (a + p) + tail + b);
        lemma_first_entry(a, c, ch, tail + b, list.len(), m);
        lemma_shown_first(w, list, m, ch);
        lemma_entries_roundtrip(w, rest, a + p, b, m.insert(c, ch));
    }
}

/// `joined` seen from its first item.
proof fn lemma_joined_first(n: nat, f: spec_fn(int) -> Seq<u8>)
    requires
        n > 0,
    ensures
        codec::joined(n, f) == f(0) + codec::joined((n - 1) as nat, |k: int| f(k + 1)),
    decreases n,
{
    let g = |k: int| f(k + 1);
    if n == 1 {
        assert(codec::joined(1, f) =~= codec::joined(0, f) + f(0));
        assert(codec::joined(0, f) =~= Seq::<u8>::empty());
        assert(codec::joined(1, f) =~= f(0) + codec::joined(0, g));
    } else {
        lemma_joined_first((n - 1) as nat, f);
        assert(codec::joined((n - 1) as nat, g) == codec::joined((n - 2) as nat, g) + g(n - 2));
        assert(codec::joined(n, f) =~= f(0) + codec::joined((n - 1) as nat, g));
    }
}

/// Loading a snapshot gives back the tick and every chunk as
/// [`World::get_chunk`](crate::world::World::get_chunk) shows it; all of them run again.
pub proof fn law_snapshot_roundtrip(w: WorldState, s: Seq<u8>)
    requires
        is_snapshot(w, s),
        w.chunks.dom().finite(),
        w.oscillators.dom().finite(),
        w.chunks.len() + w.oscillators.len() <= u32::MAX,
        forall|c: ChunkCoord| #[trigger]
            w.chunks.contains_key(c) ==> !w.oscillators.contains_key(c),
    ensures
        world_from(s) == Ok::<WorldState, SnapshotError>(
            WorldState {
                chunks: Map::new(
                    |c: ChunkCoord| w.visible(c) is Some,
                    |c: ChunkCoord| w.visible(c)->0,
                ),
                tick: w.tick,
                ..WorldState::void()
            },
        ),
{
    let count = w.chunks.len() + w.oscillators.len();
    let order = choose|order: Seq<ChunkCoord>| #[trigger] ordered(w, order) && s == header_bytes(
        w.tick,
        count,
    ) + codec::joined(order.len(), |k: int| place_bytes(w, order[k]));
    let f = |k: int| place_bytes(w, order[k]);
    let body = codec::joined(order.len(), f);
    let v = codec::le_bytes(VERSION as nat, 4);
    let t = codec::le_bytes(w.tick as nat, 8);
    let n = codec::le_bytes(count, 4);
    let z = seq![CHUNK_SIZE as u8];
    let head = header_bytes(w.tick, count);
    codec::lemma_pow256_values();
    protocol::lemma_num_at(magic(), VERSION as nat, 4, z + t + n + body);
    protocol::lemma_num_at(magic() + v + z, w.tick as nat, 8, n + body);
    protocol::lemma_num_at(magic() + v + z + t, count, 4, body);
    assert(s =~= magic() + v + (z + t + n + body));
    assert(s =~= magic() + v + z + t + (n + body));
    assert(s =~= magic() + v + z + t + n + body);
    assert(s.subrange(0, 8) =~= magic());
    assert(s[12] == z[0]);
    // Each coordinate has one entry, so there are as many as chunks.
    assert(order.len() == count) by {
        let a = w.chunks.dom();
        let b = w.oscillators.dom();
        assert(order.to_set() =~= a.union(b));
        order.unique_seq_to_set();
        assert(a.disjoint(b));
        vstd::set_lib::lemma_set_disjoint_lens(a, b);
    }
    lemma_entries_roundtrip(w, order, head, Seq::empty(), Map::empty());
    assert(head + body + Seq::<u8>::empty() =~= s);
    let all = Map::new(|c: ChunkCoord| w.visible(c) is Some, |c: ChunkCoord| w.visible(c)->0);
    assert(Map::<ChunkCoord, Chunk>::empty().union_prefer_right(shown(w, order)) =~= all);
}

/// There is one way to list coordinates in ascending order, each once.
proof fn lemma_order_is_unique(a: Seq<ChunkCoord>, b: Seq<ChunkCoord>)
    requires
        sort::ascending(a),
        sort::ascending(b),
        a.no_duplicates(),
        b.no_duplicates(),
        forall|c: ChunkCoord| #[trigger] a.contains(c) <==> b.contains(c),
    ensures
        a == b,
    decreases a.len(),
{
    if a.len() == 0 {
        if b.len() > 0 {
            assert(b.contains(b[0]));
            assert(a.contains(b[0]));
        }
        assert(a =~= b);
    } else {
        let x = a.last();
        let a0 = a.drop_last();
        let b0 = b.drop_last();
        assert(a.contains(a[a.len() - 1]));
        assert(b.contains(x));
        let y = b.last();
        assert(b.contains(b[b.len() - 1]));
        assert(a.contains(y));
        let i = choose|i: int| 0 <= i < a.len() && a[i] == y;
        let j = choose|j: int| 0 <= j < b.len() && b[j] == x;
        if i < a.len() - 1 {
            assert(sort::Ranked::le(a[i], a[a.len() - 1]));
        }
        if j < b.len() - 1 {
            assert(sort::Ranked::le(b[j], b[b.len() - 1]));
        }
        assert(x == y);
        assert(a =~= a0.push(x));
        assert(b =~= b0.push(x));
        sort::lemma_push_contains(a0, x);
        sort::lemma_push_contains(b0, x);
        assert forall|c: ChunkCoord| #[trigger] a0.contains(c) <==> b0.contains(c) by {
            assert(a.contains(c) <==> b.contains(c));
            if a0.contains(c) && c == x {
                let k = choose|k: int| 0 <= k < a0.len() && a0[k] == c;
                assert(a[k] == a[a.len() - 1]);
            }
            if b0.contains(c) && c == x {
                let k = choose|k: int| 0 <= k < b0.len() && b0[k] == c;
                assert(b[k] == b[b.len() - 1]);
            }
        }
        lemma_order_is_unique(a0, b0);
    }
}

/// A world has one snapshot: its bytes do not depend on the order in which the chunks are held.
pub proof fn law_snapshot_is_determined(w: WorldState, s: Seq<u8>, t: Seq<u8>)
    requires
        is_snapshot(w, s),
        is_snapshot(w, t),
    ensures
        s == t,
{
    let count = w.chunks.len() + w.oscillators.len();
    let a = choose|order: Seq<ChunkCoord>| #[trigger] ordered(w, order) && s == header_bytes(
        w.tick,
        count,
    ) + codec::joined(order.len(), |k: int| place_bytes(w, order[k]));
    let b = choose|order: Seq<ChunkCoord>| #[trigger] ordered(w, order) && t == header_bytes(
        w.tick,
        count,
    ) + codec::joined(order.len(), |k: int| place_bytes(w, order[k]));
    assert forall|c: ChunkCoord| #[trigger] a.contains(c) <==> b.contains(c) by {
        assert(b.contains(c) <==> w.chunks.contains_key(c) || w.oscillators.contains_key(c));
    }
    lemma_order_is_unique(a, b);
}

} // verus!
