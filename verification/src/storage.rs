//! What is stored, byte by byte: snapshots of the world, and the log of edits.

use crate::chunk::Chunk;
use crate::codec;
use crate::coord::ChunkCoord;
use crate::protocol;
use crate::protocol::EditCell;
use crate::snapshot;
use crate::snapshot::SnapshotError;
use crate::wal;
use crate::wal::WalError;
use crate::wire;
use crate::world::WorldState;
use vstd::prelude::*;

verus! {

/// Whether `s` starts with eight bytes that spell "LAZOSW", then `a` and `b`.
pub open spec fn spells(s: Seq<u8>, a: u8, b: u8) -> bool {
    &&& s[0] == 0x4c
    &&& s[1] == 0x41
    &&& s[2] == 0x5a
    &&& s[3] == 0x4f
    &&& s[4] == 0x53
    &&& s[5] == 0x57
    &&& s[6] == a
    &&& s[7] == b
}

/// A snapshot starts with its name, its version, the side of a chunk, the tick, and the number of
/// chunks, each in its place.
pub proof fn law_snapshot_header(w: WorldState, s: Seq<u8>)
    requires
        snapshot::is_snapshot(w, s),
        w.chunks.len() + w.oscillators.len() <= 0xffff_ffff,
    ensures
        s.len() >= 25,
        spells(s, 0x4c, 0x44),
        wire::u32_of(s, 8) == 1,
        s[12] == 64,
        wire::u64_of(s, 13) == w.tick,
        wire::u32_of(s, 21) == w.chunks.len() + w.oscillators.len(),
{
    let count = w.chunks.len() + w.oscillators.len();
    let order = choose|order: Seq<ChunkCoord>| #[trigger] snapshot::ordered(w, order) && s
        == snapshot::header_bytes(w.tick, count) + codec::joined(
        order.len(),
        |k: int| snapshot::place_bytes(w, order[k]),
    );
    let body = codec::joined(order.len(), |k: int| snapshot::place_bytes(w, order[k]));
    let m = snapshot::magic();
    let v = codec::le_bytes(1, 4);
    let t = codec::le_bytes(w.tick as nat, 8);
    let n = codec::le_bytes(count, 4);
    codec::lemma_pow256_values();
    codec::lemma_le_len(1, 4);
    codec::lemma_le_len(w.tick as nat, 8);
    codec::lemma_le_len(count, 4);
    assert(s =~= m + v + (seq![64u8] + t + n + body));
    protocol::lemma_num_at(m, 1, 4, seq![64u8] + t + n + body);
    assert(s =~= (m + v + seq![64u8]) + t + (n + body));
    protocol::lemma_num_at(m + v + seq![64u8], w.tick as nat, 8, n + body);
    assert(s =~= (m + v + seq![64u8] + t) + n + body);
    protocol::lemma_num_at(m + v + seq![64u8] + t, count, 4, body);
    wire::lemma_numbers(s, 8);
    wire::lemma_numbers(s, 13);
    wire::lemma_numbers(s, 21);
}

/// Bytes are no snapshot exactly if one of these comes up, in this order: they are cut off, start
/// with another name, are of another version, or are of chunks with another side. The tick is read
/// from its place.
pub proof fn law_snapshot_headers_are_checked(s: Seq<u8>)
    ensures
        s.len() >= 8 && !spells(s, 0x4c, 0x44) ==> snapshot::world_from(s) == Err::<
            WorldState,
            SnapshotError,
        >(SnapshotError::BadMagic),
        s.len() >= 12 && spells(s, 0x4c, 0x44) && wire::u32_of(s, 8) != 1 ==> snapshot::world_from(s)
            == Err::<WorldState, SnapshotError>(
            SnapshotError::BadVersion(wire::u32_of(s, 8) as u32),
        ),
        s.len() >= 13 && spells(s, 0x4c, 0x44) && wire::u32_of(s, 8) == 1 && s[12] != 64
            ==> snapshot::world_from(s) == Err::<WorldState, SnapshotError>(
            SnapshotError::BadChunkSize(s[12]),
        ),
        s.len() < 8 || (spells(s, 0x4c, 0x44) && (s.len() < 12 || (wire::u32_of(s, 8) == 1 && (
        s.len() < 13 || (s[12] == 64 && s.len() < 25))))) ==> snapshot::world_from(s) == Err::<
            WorldState,
            SnapshotError,
        >(SnapshotError::Truncated),
        s.len() >= 25 && spells(s, 0x4c, 0x44) && wire::u32_of(s, 8) == 1 && s[12] == 64 ==> (
        match snapshot::entries_from(s, 25, wire::u32_of(s, 21) as nat, Map::empty()) {
            Some(chunks) => snapshot::world_from(s) == Ok::<WorldState, SnapshotError>(
                WorldState {
                    chunks,
                    oscillators: Map::empty(),
                    owned: Set::empty(),
                    tick: wire::u64_of(s, 13) as u64,
                },
            ),
            None => snapshot::world_from(s) == Err::<WorldState, SnapshotError>(
                SnapshotError::Truncated,
            ),
        }),
{
    if s.len() >= 8 {
        let h = s.subrange(0, 8);
        let m = snapshot::magic();
        if spells(s, 0x4c, 0x44) {
            assert(h =~= m);
        } else if h == m {
            assert(h[0] == s[0] && h[1] == s[1] && h[2] == s[2] && h[3] == s[3]);
            assert(h[4] == s[4] && h[5] == s[5] && h[6] == s[6] && h[7] == s[7]);
        }
    }
    wire::lemma_numbers(s, 8);
    wire::lemma_numbers(s, 13);
    wire::lemma_numbers(s, 21);
}

/// Whether an entry that says `ch` of chunk `c` stands from `at` on.
pub open spec fn holds_entry(s: Seq<u8>, at: int, c: ChunkCoord, ch: Chunk) -> bool {
    &&& c.0 == wire::i32_of(s, at)
    &&& c.1 == wire::i32_of(s, at + 4)
    &&& rows_at(s, at + 9, ch.rows)
    &&& match ch.frozen {
        None => s[at + 8] == 0,
        Some(m) => s[at + 8] != 0 && rows_at(s, at + 521, m.mask) && rows_at(s, at + 1033, m.value),
    }
}

/// Whether the bits of rows stand from `at` on, eight bytes for each row, the first cell in the
/// lowest bit of the first byte.
pub open spec fn rows_at(s: Seq<u8>, at: int, rows: [u64; 64]) -> bool {
    forall|x: int, y: int| #[trigger] bit_stands(s, at, rows, x, y)
}

/// Whether the bit of cell `(x, y)` stands in its place.
pub open spec fn bit_stands(s: Seq<u8>, at: int, rows: [u64; 64], x: int, y: int) -> bool {
    0 <= x < 64 && 0 <= y < 64 ==> ((rows[y] >> (x as u64)) & 1 == 1) == ((s[at + 8 * y + x / 8] >> (
    (x % 8) as u8)) & 1 == 1)
}

proof fn lemma_rows_stand(s: Seq<u8>, at: int)
    requires
        0 <= at,
        at + 512 <= s.len(),
    ensures
        rows_at(s, at, protocol::rows_from(s.subrange(at, at + 512))),
{
    let part = s.subrange(at, at + 512);
    assert forall|x: int, y: int| #[trigger] bit_stands(s, at, protocol::rows_from(part), x, y) by {
        if 0 <= x < 64 && 0 <= y < 64 {
            wire::law_bitset_layout(part, x, y);
            assert(part[8 * y + x / 8] == s[at + 8 * y + x / 8]);
        }
    }
}

/// Entries of a snapshot are read one after the other, each as it stands; a later one of the same
/// chunk replaces an earlier one. One that is cut off is no entry.
pub proof fn law_snapshot_entries(s: Seq<u8>, at: int, n: nat, m: Map<ChunkCoord, Chunk>)
    requires
        0 <= at,
    ensures
        snapshot::entries_from(s, at, 0, m) == Some(m),
        s.len() < at + 521 || (s[at + 8] != 0 && s.len() < at + 1545) ==> snapshot::entries_from(
            s,
            at,
            n + 1,
            m,
        ) is None,
        s.len() >= at + 521 && (s[at + 8] == 0 || s.len() >= at + 1545) ==> ({
            let c = (wire::i32_of(s, at) as i32, wire::i32_of(s, at + 4) as i32);
            let ch = snapshot::chunk_from(s, at);
            let end = if s[at + 8] == 0 {
                at + 521
            } else {
                at + 1545
            };
            &&& holds_entry(s, at, c, ch)
            &&& snapshot::entries_from(s, at, n + 1, m) == snapshot::entries_from(
                s,
                end,
                n,
                m.insert(c, ch),
            )
        }),
{
    wire::lemma_numbers(s, at);
    wire::lemma_numbers(s, at + 4);
    if s.len() >= at + 521 {
        lemma_rows_stand(s, at + 9);
        if s[at + 8] != 0 && s.len() >= at + 1545 {
            lemma_rows_stand(s, at + 521);
            lemma_rows_stand(s, at + 1033);
        }
    }
}

/// A log starts with its name, its version and the side of a chunk, each in its place.
pub proof fn law_log_header(chunk_size: u8)
    ensures
        ({
            let s = wal::wal_header_bytes(chunk_size);
            &&& s.len() == 13
            &&& spells(s, 0x41, 0x4c)
            &&& wire::u32_of(s, 8) == 1
            &&& s[12] == chunk_size
        }),
{
    let s = wal::wal_header_bytes(chunk_size);
    codec::lemma_pow256_values();
    codec::lemma_le_len(1, 4);
    protocol::lemma_num_at(wal::WAL_MAGIC@, 1, 4, seq![chunk_size]);
    assert(s =~= wal::WAL_MAGIC@ + codec::le_bytes(1, 4) + seq![chunk_size]);
    wire::lemma_numbers(s, 8);
}

/// A log is refused exactly if one of these comes up, in this order: it is cut off, starts with
/// another name, is of another version, or is of chunks with another side.
pub proof fn law_log_headers_are_checked(s: Seq<u8>, chunk_size: u8)
    ensures
        wal::header_error(s, chunk_size) == (if s.len() < 8 {
            Some(WalError::Truncated)
        } else if !spells(s, 0x41, 0x4c) {
            Some(WalError::BadMagic)
        } else if s.len() < 12 {
            Some(WalError::Truncated)
        } else if wire::u32_of(s, 8) != 1 {
            Some(WalError::BadVersion(wire::u32_of(s, 8) as u32))
        } else if s.len() < 13 {
            Some(WalError::Truncated)
        } else if s[12] != chunk_size {
            Some(WalError::BadChunkSize(s[12]))
        } else {
            None
        }),
{
    if s.len() >= 8 {
        let h = s.subrange(0, 8);
        let m = wal::WAL_MAGIC@;
        if spells(s, 0x41, 0x4c) {
            assert(h =~= m);
        } else if h == m {
            assert(h[0] == s[0] && h[1] == s[1] && h[2] == s[2] && h[3] == s[3]);
            assert(h[4] == s[4] && h[5] == s[5] && h[6] == s[6] && h[7] == s[7]);
        }
    }
    wire::lemma_numbers(s, 8);
}

/// A record holds the tick, the number of edits, and the edits, each in its place.
pub proof fn law_record_layout(tick: u64, cells: Seq<EditCell>)
    requires
        cells.len() <= 0xffff_ffff,
    ensures
        ({
            let s = wal::record_bytes(tick, cells);
            &&& s.len() == 12 + 11 * cells.len()
            &&& wire::u64_of(s, 0) == tick
            &&& wire::u32_of(s, 8) == cells.len()
            &&& forall|k: int|
                0 <= k < cells.len() ==> (#[trigger] cells[k]).cx == wire::i32_of(s, 12 + 11 * k)
                    && cells[k].cy == wire::i32_of(s, 16 + 11 * k) && cells[k].lx == s[20 + 11 * k]
                    && cells[k].ly == s[21 + 11 * k] && cells[k].alive == (s[22 + 11 * k] != 0)
        }),
{
    let s = wal::record_bytes(tick, cells);
    let f = |k: int| protocol::cell_bytes(cells[k]);
    let t = codec::le_bytes(tick as nat, 8);
    let n = codec::le_bytes(cells.len(), 4);
    let body = codec::joined(cells.len(), f);
    let e = Seq::<u8>::empty();
    codec::lemma_pow256_values();
    codec::lemma_le_len(tick as nat, 8);
    codec::lemma_le_len(cells.len(), 4);
    assert forall|k: int| 0 <= k < cells.len() implies (#[trigger] f(k)).len() == 11 by {
        codec::lemma_le_len(cells[k].cx as u32 as nat, 4);
        codec::lemma_le_len(cells[k].cy as u32 as nat, 4);
    }
    codec::lemma_joined(cells.len(), f, 11);
    assert(s =~= e + t + (n + body));
    protocol::lemma_num_at(e, tick as nat, 8, n + body);
    assert(s =~= t + n + body);
    protocol::lemma_num_at(t, cells.len(), 4, body);
    wire::lemma_numbers(s, 0);
    wire::lemma_numbers(s, 8);
    assert forall|k: int| 0 <= k < cells.len() implies (#[trigger] cells[k]).cx == wire::i32_of(
        s,
        12 + 11 * k,
    ) && cells[k].cy == wire::i32_of(s, 16 + 11 * k) && cells[k].lx == s[20 + 11 * k] && cells[k].ly
        == s[21 + 11 * k] && cells[k].alive == (s[22 + 11 * k] != 0) by {
        let c = cells[k];
        let item = codec::item(body, k, 11);
        assert(item == f(k));
        codec::lemma_item_bounds(cells.len(), k, 11);
        assert forall|i: int| 0 <= i < 11 implies item[i] == s[12 + 11 * k + i] by {}
        let x = protocol::i32_bytes(c.cx);
        let y = protocol::i32_bytes(c.cy);
        let l = protocol::local_bytes(c);
        codec::lemma_le_len(c.cx as u32 as nat, 4);
        codec::lemma_le_len(c.cy as u32 as nat, 4);
        assert(item =~= e + x + (y + l));
        protocol::lemma_i32_at(e, c.cx, y + l);
        assert(item =~= x + y + l);
        protocol::lemma_i32_at(x, c.cy, l);
        assert(item.subrange(0, 4) =~= s.subrange(12 + 11 * k, 16 + 11 * k));
        assert(item.subrange(4, 8) =~= s.subrange(16 + 11 * k, 20 + 11 * k));
        wire::lemma_numbers(s, 12 + 11 * k);
        wire::lemma_numbers(s, 16 + 11 * k);
        assert(item[8] == l[0] && item[9] == l[1] && item[10] == l[2]);
    }
}

/// Chunk coordinates are put in order by their column, then by their row, each once.
pub proof fn law_snapshot_order(w: WorldState, order: Seq<ChunkCoord>, i: int, j: int)
    requires
        snapshot::ordered(w, order),
        0 <= i < j < order.len(),
    ensures
        order[i].0 < order[j].0 || (order[i].0 == order[j].0 && order[i].1 < order[j].1),
{
    assert(order[i] != order[j]);
}

/// A log is read one record after the other. What is too short to hold a tick at its end is left
/// out. A record of a tick that the world is past is skipped; for another the world is run up to
/// its tick, and then gets its edits.
pub proof fn law_log_is_read_in_order(w: WorldState, s: Seq<u8>, at: int)
    requires
        0 <= at,
    ensures
        s.len() < at + 8 ==> wal::records_from(w, s, at) == (w, Ok::<nat, WalError>(0)),
        at + 8 <= s.len() < at + 12 ==> wal::records_from(w, s, at) == (
            w,
            Err::<nat, WalError>(WalError::Truncated),
        ),
        s.len() >= at + 12 ==> ({
            let tick = wire::u64_of(s, at);
            let n = wire::u32_of(s, at + 8);
            let end = at + 12 + 11 * n;
            let (v, there) = w.run((tick - w.tick) as nat);
            let (u, stop) = wal::edits_from(v, s, at + 12, n as nat);
            &&& tick < w.tick && s.len() < end ==> wal::records_from(w, s, at) == (
                w,
                Err::<nat, WalError>(WalError::Truncated),
            )
            &&& tick < w.tick && s.len() >= end ==> wal::records_from(w, s, at)
                == wal::records_from(w, s, end)
            &&& tick >= w.tick && !there ==> wal::records_from(w, s, at) == (
                v,
                Err::<nat, WalError>(WalError::OutOfRange),
            )
            &&& tick >= w.tick && there && stop is Some ==> wal::records_from(w, s, at) == (
                u,
                Err::<nat, WalError>(stop->0),
            )
            &&& tick >= w.tick && there && stop is None ==> wal::records_from(w, s, at).0
                == wal::records_from(u, s, end).0 && (match wal::records_from(u, s, end).1 {
                Ok(k) => wal::records_from(w, s, at).1 == Ok::<nat, WalError>(k + 1),
                Err(e) => wal::records_from(w, s, at).1 == Err::<nat, WalError>(e),
            })
        }),
{
    wire::lemma_numbers(s, at);
    wire::lemma_numbers(s, at + 8);
}

/// The edits of a record are made one after the other, each to the cell that its bytes name; they
/// stop at one that is cut off or lies outside the coordinate range.
pub proof fn law_logged_edits_are_made(w: WorldState, s: Seq<u8>, at: int, n: nat)
    requires
        0 <= at,
    ensures
        wal::edits_from(w, s, at, 0) == (w, None::<WalError>),
        s.len() < at + 11 ==> wal::edits_from(w, s, at, n + 1) == (w, Some(WalError::Truncated)),
        s.len() >= at + 11 ==> ({
            let x = 64 * wire::i32_of(s, at) + s[at + 8];
            let y = 64 * wire::i32_of(s, at + 4) + s[at + 9];
            let reach = -0x8000_0000 <= x / 64 <= 0x7fff_ffff && -0x8000_0000 <= y / 64
                <= 0x7fff_ffff;
            &&& !reach ==> wal::edits_from(w, s, at, n + 1) == (w, Some(WalError::OutOfRange))
            &&& reach ==> wal::edits_from(w, s, at, n + 1) == wal::edits_from(
                w.edited(x, y, s[at + 10] != 0),
                s,
                at + 11,
                n,
            )
        }),
{
    if s.len() >= at + 11 {
        let p = s.subrange(at, at + 11);
        assert(p.subrange(0, 4) =~= s.subrange(at, at + 4));
        assert(p.subrange(4, 8) =~= s.subrange(at + 4, at + 8));
        assert(p[8] == s[at + 8] && p[9] == s[at + 9] && p[10] == s[at + 10]);
        wire::lemma_numbers(s, at);
        wire::lemma_numbers(s, at + 4);
    }
}

/// A log whose header is refused leaves the world as it is; any other is read from behind its
/// header.
pub proof fn law_logs_are_read_behind_the_header(w: WorldState, s: Seq<u8>, chunk_size: u8)
    ensures
        match wal::header_error(s, chunk_size) {
            Some(e) => wal::replayed(w, s, chunk_size) == (w, Err::<nat, WalError>(e)),
            None => wal::replayed(w, s, chunk_size) == wal::records_from(w, s, 13),
        },
{
}

} // verus!
