//! Write-ahead log of edits. Format:
//!
//!   magic[8]="LAZOSWAL" version:u32=1 chunk_size:u8
//!   { tick:u64 count:u32 { cx:i32 cy:i32 lx:u8 ly:u8 alive:u8 } * count } *
//!
//! All little-endian.

use crate::codec;
use crate::protocol;
use crate::protocol::EditCell;
use crate::world;
use crate::world::{World, WorldState};
use crate::{CHUNK_SIZE, CHUNK_SIZE_I64};
use vstd::prelude::*;

verus! {

/// "LAZOSWAL"
pub const WAL_MAGIC: [u8; 8] = [0x4c, 0x41, 0x5a, 0x4f, 0x53, 0x57, 0x41, 0x4c];

/// Version of the format.
pub const WAL_VERSION: u32 = 1;

/// Bytes before the first record.
pub const WAL_HEADER_BYTES: usize = 13;

/// What is asked of the task that writes to disk.
#[derive(Debug)]
pub enum IoCmd {
    /// Edits applied this sim tick. Must arrive in tick order.
    AppendEdits { tick: u64, cells: Vec<EditCell> },
    /// Pre-serialized snapshot bytes, to be written atomically. The log begins anew behind it.
    Snapshot { tick: u64, bytes: Vec<u8> },
}

/// Why a log cannot be replayed.
#[derive(Debug, Clone, Copy, PartialEq, Eq)]
pub enum WalError {
    Truncated,
    BadMagic,
    BadVersion(u32),
    BadChunkSize(u8),
    /// A tick cannot be made, or a cell lies outside the coordinate range.
    OutOfRange,
}

pub open spec fn wal_header_bytes(chunk_size: u8) -> Seq<u8> {
    WAL_MAGIC@ + codec::le_bytes(WAL_VERSION as nat, 4) + seq![chunk_size]
}

/// What is wrong with the header, if anything.
pub open spec fn header_error(s: Seq<u8>, chunk_size: u8) -> Option<WalError> {
    if s.len() < 8 {
        Some(WalError::Truncated)
    } else if s.subrange(0, 8) != WAL_MAGIC@ {
        Some(WalError::BadMagic)
    } else if s.len() < 12 {
        Some(WalError::Truncated)
    } else if protocol::num_at(s, 8, 4) != WAL_VERSION {
        Some(WalError::BadVersion(protocol::num_at(s, 8, 4) as u32))
    } else if s.len() < 13 {
        Some(WalError::Truncated)
    } else if s[12] != chunk_size {
        Some(WalError::BadChunkSize(s[12]))
    } else {
        None
    }
}

/// The record of the edits that were applied at `tick`.
pub open spec fn record_bytes(tick: u64, cells: Seq<EditCell>) -> Seq<u8> {
    codec::le_bytes(tick as nat, 8) + codec::le_bytes(cells.len(), 4) + codec::joined(
        cells.len(),
        |k: int| protocol::cell_bytes(cells[k]),
    )
}

/// The column of an edited cell.
pub open spec fn cell_x(c: EditCell) -> int {
    CHUNK_SIZE * c.cx + c.lx
}

/// The row of an edited cell.
pub open spec fn cell_y(c: EditCell) -> int {
    CHUNK_SIZE * c.cy + c.ly
}

/// The cell in the bytes from `at` on.
pub open spec fn cell_at(s: Seq<u8>, at: int) -> EditCell {
    protocol::cell_from(s.subrange(at, at + 11))
}

/// The world after the `n` edits from `at` on, or where they stopped, and why.
pub open spec fn edits_from(
    w: WorldState,
    s: Seq<u8>,
    at: int,
    n: nat,
) -> (WorldState, Option<WalError>)
    decreases n,
{
    if n == 0 {
        (w, None)
    } else if s.len() < at + 11 {
        (w, Some(WalError::Truncated))
    } else {
        let c = cell_at(s, at);
        if !world::addressable(cell_x(c), cell_y(c)) {
            (w, Some(WalError::OutOfRange))
        } else {
            edits_from(w.edited(cell_x(c), cell_y(c), c.alive), s, at + 11, (n - 1) as nat)
        }
    }
}

/// The world after the records from `at` on, and how many were applied. Records of ticks before
/// that of the world are skipped; else the world is first ticked up to the tick of the record.
/// What is too short to hold a tick at the end of the log is left out.
pub open spec fn records_from(w: WorldState, s: Seq<u8>, at: int) -> (
    WorldState,
    Result<nat, WalError>,
)
    decreases (if s.len() >= at { s.len() - at } else { 0 }),
{
    if s.len() < at + 8 {
        (w, Ok(0))
    } else if s.len() < at + 12 {
        (w, Err(WalError::Truncated))
    } else {
        let tick = protocol::num_at(s, at, 8);
        let n = protocol::num_at(s, at + 8, 4);
        let end = at + 12 + 11 * n;
        if tick < w.tick {
            if s.len() < end {
                (w, Err(WalError::Truncated))
            } else {
                records_from(w, s, end)
            }
        } else {
            let (v, there) = w.run((tick - w.tick) as nat);
            let (u, stop) = edits_from(v, s, at + 12, n);
            if !there {
                (v, Err(WalError::OutOfRange))
            } else if stop is Some {
                (u, Err(stop->0))
            } else {
                let (z, r) = records_from(u, s, end);
                match r {
                    Ok(k) => (z, Ok(k + 1)),
                    Err(e) => (z, Err(e)),
                }
            }
        }
    }
}

/// The world after the whole log, and how many records were applied.
pub open spec fn replayed(w: WorldState, s: Seq<u8>, chunk_size: u8) -> (
    WorldState,
    Result<nat, WalError>,
) {
    match header_error(s, chunk_size) {
        Some(e) => (w, Err(e)),
        None => records_from(w, s, WAL_HEADER_BYTES as int),
    }
}

/// The header of a log.
pub fn wal_header(chunk_size: u8) -> (buf: Vec<u8>)
    ensures
        buf@ == wal_header_bytes(chunk_size),
{
    let mut buf: Vec<u8> = Vec::new();
    let magic = WAL_MAGIC;
    protocol::push_all(&mut buf, magic.as_slice());
    codec::push_le(&mut buf, WAL_VERSION as u64, 4);
    buf.push(chunk_size);
    assert(buf@ =~= wal_header_bytes(chunk_size));
    buf
}

/// Check the header of a log.
pub fn check_wal_header(buf: &[u8], chunk_size: u8) -> (r: Result<(), WalError>)
    ensures
        match r {
            Ok(_) => header_error(buf@, chunk_size) is None,
            Err(e) => header_error(buf@, chunk_size) == Some(e),
        },
{
    let n = buf.len();
    if n < 8 {
        return Err(WalError::Truncated);
    }
    let magic = WAL_MAGIC;
    let mut i: usize = 0;
    while i < 8
        invariant
            i <= 8,
            n == buf@.len(),
            n >= 8,
            magic == WAL_MAGIC,
            forall|j: int| 0 <= j < i ==> buf@[j] == magic[j],
        decreases 8 - i,
    {
        if buf[i] != magic[i] {
            assert(buf@.subrange(0, 8)[i as int] != WAL_MAGIC@[i as int]);
            return Err(WalError::BadMagic);
        }
        i = i + 1;
    }
    assert(buf@.subrange(0, 8) =~= WAL_MAGIC@);
    if n < 12 {
        return Err(WalError::Truncated);
    }
    let version = protocol::read_u32(buf, 8);
    if version != WAL_VERSION {
        return Err(WalError::BadVersion(version));
    }
    if n < 13 {
        return Err(WalError::Truncated);
    }
    if buf[12] != chunk_size {
        return Err(WalError::BadChunkSize(buf[12]));
    }
    Ok(())
}

/// The record of the edits that were applied at `tick`.
pub fn encode_record(tick: u64, cells: &Vec<EditCell>) -> (buf: Vec<u8>)
    requires
        cells@.len() <= u32::MAX,
    ensures
        buf@ == record_bytes(tick, cells@),
{
    let ghost f = |k: int| protocol::cell_bytes(cells@[k]);
    let mut buf: Vec<u8> = Vec::new();
    codec::push_le(&mut buf, tick, 8);
    codec::push_le(&mut buf, cells.len() as u64, 4);
    let ghost head = buf@;
    let mut i: usize = 0;
    assert(head + codec::joined(0, f) =~= head);
    while i < cells.len()
        invariant
            i <= cells.len(),
            f == (|k: int| protocol::cell_bytes(cells@[k])),
            buf@ == head + codec::joined(i as nat, f),
        decreases cells.len() - i,
    {
        let c = cells[i];
        protocol::push_coord(&mut buf, (c.cx, c.cy));
        protocol::push_local(&mut buf, &c);
        assert(buf@ =~= head + codec::joined((i + 1) as nat, f));
        i = i + 1;
    }
    assert(buf@ =~= record_bytes(tick, cells@));
    buf
}

/// The cell in the bytes from `at` on.
fn read_cell(buf: &[u8], at: usize) -> (c: EditCell)
    requires
        at + 11 <= buf@.len(),
    ensures
        c == cell_at(buf@, at as int),
{
    let total = buf.len();
    let ghost s = buf@.subrange(at as int, at + 11);
    assert(s.subrange(0, 4) =~= buf@.subrange(at as int, at + 4));
    assert(s.subrange(4, 8) =~= buf@.subrange(at + 4, at + 8));
    EditCell {
        cx: protocol::read_i32(buf, at),
        cy: protocol::read_i32(buf, at + 4),
        lx: buf[at + 8],
        ly: buf[at + 9],
        alive: buf[at + 10] != 0,
    }
}

/// Whether a cell lies in a chunk that has coordinates.
fn is_addressable(x: i64, y: i64) -> (b: bool)
    ensures
        b == world::addressable(x as int, y as int),
{
    let lo: i64 = -0x8000_0000 * CHUNK_SIZE_I64;
    let hi: i64 = 0x8000_0000 * CHUNK_SIZE_I64;
    lo <= x && x < hi && lo <= y && y < hi
}

/// Apply the `n` edits from `at` on.
fn replay_edits(world: &mut World, buf: &[u8], at: usize, n: u32) -> (r: Result<(), WalError>)
    requires
        old(world)@.wf(),
        at <= buf@.len(),
    ensures
        final(world)@.wf(),
        final(world)@ == edits_from(old(world)@, buf@, at as int, n as nat).0,
        match r {
            Ok(_) => edits_from(old(world)@, buf@, at as int, n as nat).1 is None && at + 11 * n
                <= buf@.len(),
            Err(e) => edits_from(old(world)@, buf@, at as int, n as nat).1 == Some(e),
        },
{
    let ghost w = world@;
    let total = buf.len();
    let ghost all = edits_from(w, buf@, at as int, n as nat);
    let mut p: usize = at;
    let mut k: u32 = 0;
    while k < n
        invariant
            k <= n,
            total == buf@.len(),
            p <= total,
            p == at + 11 * k,
            world@.wf(),
            w == old(world)@,
            all == edits_from(w, buf@, at as int, n as nat),
            all == edits_from(world@, buf@, p as int, (n - k) as nat),
        decreases n - k,
    {
        if total - p < 11 {
            return Err(WalError::Truncated);
        }
        let c = read_cell(buf, p);
        let x: i64 = c.cx as i64 * CHUNK_SIZE_I64 + c.lx as i64;
        let y: i64 = c.cy as i64 * CHUNK_SIZE_I64 + c.ly as i64;
        if !is_addressable(x, y) {
            return Err(WalError::OutOfRange);
        }
        world.set_cell(x, y, c.alive);
        p = p + 11;
        k = k + 1;
    }
    Ok(())
}

/// Replay the log onto `world` (read at boot, before the simulation runs). For each
/// record with a tick from that of the world on we step the world forward to that
/// tick, then apply the edits - same convention as live: edits arrive
/// after the previous tick and before the next. Returns the number of records applied.
pub fn replay_into(world: &mut World, buf: &[u8], chunk_size: u8) -> (r: Result<u64, WalError>)
    requires
        old(world)@.wf(),
    ensures
        final(world)@.wf(),
        final(world)@ == replayed(old(world)@, buf@, chunk_size).0,
        match r {
            Ok(k) => replayed(old(world)@, buf@, chunk_size).1 == Ok::<nat, WalError>(k as nat),
            Err(e) => replayed(old(world)@, buf@, chunk_size).1 == Err::<nat, WalError>(e),
        },
{
    if let Err(e) = check_wal_header(buf, chunk_size) {
        return Err(e);
    }
    let total = buf.len();
    let ghost w = world@;
    let ghost all = replayed(w, buf@, chunk_size);
    let mut applied: u64 = 0;
    let mut at: usize = WAL_HEADER_BYTES;
    while total - at >= 8
        invariant
            total == buf@.len(),
            at <= total,
            applied <= at,
            world@.wf(),
            w == old(world)@,
            all == replayed(w, buf@, chunk_size),
            all.0 == records_from(world@, buf@, at as int).0,
            match records_from(world@, buf@, at as int).1 {
                Ok(k) => all.1 == Ok::<nat, WalError>(k + applied as nat),
                Err(e) => all.1 == Err::<nat, WalError>(e),
            },
        decreases total - at,
    {
        if total - at < 12 {
            return Err(WalError::Truncated);
        }
        let ghost before = world@;
        let tick = codec::read_le(buf, at, 8);
        let n = protocol::read_u32(buf, at + 8);
        if tick < world.tick_number() {
            // Already covered by the snapshot; skip the cells.
            let size: u64 = 11 * (n as u64);
            if ((total - at - 12) as u64) < size {
                return Err(WalError::Truncated);
            }
            at = at + 12 + size as usize;
        } else {
            // The tick of a record is that of the world at the moment the edits were
            // applied, so step forward to it first, then set cells.
            if !world.run_to(tick) {
                return Err(WalError::OutOfRange);
            }
            if let Err(e) = replay_edits(world, buf, at + 12, n) {
                return Err(e);
            }
            at = at + 12 + 11 * (n as usize);
            applied = applied + 1;
        }
    }
    Ok(applied)
}

/// The world after all edits, one after the other.
pub open spec fn edited_all(w: WorldState, cells: Seq<EditCell>) -> WorldState
    decreases cells.len(),
{
    if cells.len() == 0 {
        w
    } else {
        let c = cells[0];
        edited_all(w.edited(cell_x(c), cell_y(c), c.alive), cells.drop_first())
    }
}

proof fn lemma_edits(w: WorldState, s: Seq<u8>, at: int, cells: Seq<EditCell>)
    requires
        0 <= at,
        at + 11 * cells.len() <= s.len(),
        forall|k: int|
            0 <= k < cells.len() ==> s.subrange(at + 11 * k, at + 11 * k + 11)
                == protocol::cell_bytes(#[trigger] cells[k]),
        forall|k: int|
            0 <= k < cells.len() ==> world::addressable(
                cell_x(#[trigger] cells[k]),
                cell_y(cells[k]),
            ),
    ensures
        edits_from(w, s, at, cells.len()) == (edited_all(w, cells), None::<WalError>),
    decreases cells.len(),
{
    if cells.len() > 0 {
        let c = cells[0];
        let rest = cells.drop_first();
        protocol::lemma_cell_roundtrip(c);
        assert(s.subrange(at + 11 * 0, at + 11 * 0 + 11) == protocol::cell_bytes(c));
        assert(cell_at(s, at) == c);
        assert forall|k: int| 0 <= k < rest.len() implies s.subrange(
            at + 11 + 11 * k,
            at + 11 + 11 * k + 11,
        ) == protocol::cell_bytes(#[trigger] rest[k]) && world::addressable(
            cell_x(rest[k]),
            cell_y(rest[k]),
        ) by {
            let d = cells[k + 1];
            assert(at + 11 * (k + 1) == at + 11 + 11 * k);
            assert(s.subrange(at + 11 * (k + 1), at + 11 * (k + 1) + 11) == protocol::cell_bytes(
                d,
            ));
        }
        lemma_edits(w.edited(cell_x(c), cell_y(c), c.alive), s, at + 11, rest);
    }
}

/// A record that was appended to a log is replayed: it is skipped where the world is past its
/// tick; else the world is ticked up to it and then gets its edits.
pub proof fn law_record_is_replayed(
    w: WorldState,
    log: Seq<u8>,
    tick: u64,
    cells: Seq<EditCell>,
    rest: Seq<u8>,
)
    requires
        cells.len() <= u32::MAX,
        forall|k: int|
            0 <= k < cells.len() ==> world::addressable(
                cell_x(#[trigger] cells[k]),
                cell_y(cells[k]),
            ),
    ensures
        ({
            let s = log + record_bytes(tick, cells) + rest;
            let at = log.len() as int;
            let end = at + record_bytes(tick, cells).len();
            let (v, there) = w.run((tick - w.tick) as nat);
            if tick < w.tick {
                records_from(w, s, at) == records_from(w, s, end)
            } else if there {
                let (z, r) = records_from(edited_all(v, cells), s, end);
                records_from(w, s, at) == (
                    z,
                    match r {
                        Ok(k) => Ok::<nat, WalError>(k + 1),
                        Err(e) => Err(e),
                    },
                )
            } else {
                records_from(w, s, at) == (v, Err::<nat, WalError>(WalError::OutOfRange))
            }
        }),
{
    let n = cells.len();
    let f = |k: int| protocol::cell_bytes(cells[k]);
    let t = codec::le_bytes(tick as nat, 8);
    let c = codec::le_bytes(n, 4);
    let body = codec::joined(n, f);
    let s = log + record_bytes(tick, cells) + rest;
    let at = log.len() as int;
    codec::lemma_pow256_values();
    protocol::lemma_num_at(log, tick as nat, 8, c + body + rest);
    protocol::lemma_num_at(log + t, n, 4, body + rest);
    assert(s =~= log + t + (c + body + rest));
    assert(s =~= log + t + c + (body + rest));
    assert forall|k: int| 0 <= k < n implies (#[trigger] f(k)).len() == 11 by {
        protocol::lemma_cell_roundtrip(cells[k]);
    }
    codec::lemma_joined(n, f, 11);
    assert(body.len() == 11 * n);
    assert forall|k: int| 0 <= k < n implies s.subrange(at + 12 + 11 * k, at + 12 + 11 * k + 11)
        == protocol::cell_bytes(#[trigger] cells[k]) by {
        codec::lemma_item_bounds(n, k, 11);
        assert(codec::item(body, k, 11) == f(k));
        assert(s.subrange(at + 12 + 11 * k, at + 12 + 11 * k + 11) =~= codec::item(body, k, 11));
    }
    if tick >= w.tick {
        let (v, there) = w.run((tick - w.tick) as nat);
        lemma_edits(v, s, at + 12, cells);
    }
}

/// A log that was just begun is accepted, with nothing to replay.
pub proof fn law_fresh_log_is_accepted(w: WorldState, chunk_size: u8)
    ensures
        replayed(w, wal_header_bytes(chunk_size), chunk_size) == (w, Ok::<nat, WalError>(0)),
{
    let s = wal_header_bytes(chunk_size);
    codec::lemma_pow256_values();
    protocol::lemma_num_at(WAL_MAGIC@, WAL_VERSION as nat, 4, seq![chunk_size]);
    assert(s.subrange(0, 8) =~= WAL_MAGIC@);
}

/// A batch of edits and the tick at which it was made.
pub struct Batch {
    pub tick: u64,
    pub cells: Seq<EditCell>,
}

/// Whether a batch can be recorded: its cells can be counted and have coordinates.
pub open spec fn recordable(b: Batch) -> bool {
    &&& b.cells.len() <= u32::MAX
    &&& forall|k: int|
        0 <= k < b.cells.len() ==> world::addressable(
            cell_x(#[trigger] b.cells[k]),
            cell_y(b.cells[k]),
        )
}

/// The records of batches, one after the other.
pub open spec fn batches_bytes(batches: Seq<Batch>) -> Seq<u8>
    decreases batches.len(),
{
    if batches.len() == 0 {
        Seq::empty()
    } else {
        record_bytes(batches[0].tick, batches[0].cells) + batches_bytes(batches.drop_first())
    }
}

/// The world that lives through batches of edits, and how many were made: it ticks up to the tick
/// of each, and then gets its edits. Batches of ticks that it is past are left out.
pub open spec fn lived(w: WorldState, batches: Seq<Batch>) -> (WorldState, Result<nat, WalError>)
    decreases batches.len(),
{
    if batches.len() == 0 {
        (w, Ok(0))
    } else {
        let b = batches[0];
        let rest = batches.drop_first();
        let (v, there) = w.run((b.tick - w.tick) as nat);
        if b.tick < w.tick {
            lived(w, rest)
        } else if !there {
            (v, Err(WalError::OutOfRange))
        } else {
            let (z, r) = lived(edited_all(v, b.cells), rest);
            match r {
                Ok(k) => (z, Ok(k + 1)),
                Err(e) => (z, Err(e)),
            }
        }
    }
}

proof fn lemma_batches(w: WorldState, log: Seq<u8>, batches: Seq<Batch>)
    requires
        forall|i: int| 0 <= i < batches.len() ==> recordable(#[trigger] batches[i]),
    ensures
        records_from(w, log + batches_bytes(batches), log.len() as int) == lived(w, batches),
    decreases batches.len(),
{
    if batches.len() > 0 {
        let b = batches[0];
        let rest = batches.drop_first();
        let record = record_bytes(b.tick, b.cells);
        let s = log + batches_bytes(batches);
        assert(recordable(batches[0]));
        assert forall|i: int| 0 <= i < rest.len() implies recordable(#[trigger] rest[i]) by {
            assert(rest[i] == batches[i + 1]);
        }
        assert(s =~= log + record + batches_bytes(rest));
        law_record_is_replayed(w, log, b.tick, b.cells, batches_bytes(rest));
        if b.tick < w.tick {
            lemma_batches(w, log + record, rest);
        } else {
            let (v, there) = w.run((b.tick - w.tick) as nat);
            lemma_batches(edited_all(v, b.cells), log + record, rest);
        }
    }
}

/// Edits survive: replaying a log onto the world that it was begun with gives the world that lived
/// through the recorded edits.
pub proof fn law_log_brings_world_back(w: WorldState, chunk_size: u8, batches: Seq<Batch>)
    requires
        forall|i: int| 0 <= i < batches.len() ==> recordable(#[trigger] batches[i]),
    ensures
        replayed(w, wal_header_bytes(chunk_size) + batches_bytes(batches), chunk_size) == lived(
            w,
            batches,
        ),
{
    let log = wal_header_bytes(chunk_size);
    let s = log + batches_bytes(batches);
    codec::lemma_pow256_values();
    protocol::lemma_num_at(
        WAL_MAGIC@,
        WAL_VERSION as nat,
        4,
        seq![chunk_size] + batches_bytes(batches),
    );
    assert(s =~= WAL_MAGIC@ + codec::le_bytes(WAL_VERSION as nat, 4) + (seq![chunk_size]
        + batches_bytes(batches)));
    assert(s.subrange(0, 8) =~= WAL_MAGIC@);
    lemma_batches(w, log, batches);
}

} // verus!
