//! The wire format, byte by byte and bit by bit.

use crate::chunk;
use crate::codec;
use crate::coord;
use crate::coord::ChunkCoord;
use crate::protocol;
use crate::protocol::{
    ClientModel, ClientMsg, DecodeError, EditCell, Region, ServerModel, ServerMsg, BITS_BYTES,
};
use crate::CHUNK_SIZE;
use vstd::prelude::*;

verus! {

/// Whether bit `x` of a row of cells that is spread over eight bytes is set, by the byte that it
/// is in.
pub open spec fn bit_of_bytes(bits: Seq<u8>, x: int, y: int) -> bool {
    (bits[8 * y + x / 8] >> ((x % 8) as u8)) & 1 == 1
}

proof fn lemma_byte_bits(
    v: u64,
    b0: u8,
    b1: u8,
    b2: u8,
    b3: u8,
    b4: u8,
    b5: u8,
    b6: u8,
    b7: u8,
    x: u64,
)
    by (bit_vector)
    requires
        v == b0 + 0x100 * b1 + 0x1_0000 * b2 + 0x100_0000 * b3 + 0x1_0000_0000 * b4
            + 0x100_0000_0000 * b5 + 0x1_0000_0000_0000 * b6 + 0x100_0000_0000_0000 * b7,
        x < 64,
    ensures
        (v >> x) & 1 == if x < 8 {
            ((b0 as u64) >> x) & 1
        } else if x < 16 {
            ((b1 as u64) >> ((x - 8) as u64)) & 1
        } else if x < 24 {
            ((b2 as u64) >> ((x - 16) as u64)) & 1
        } else if x < 32 {
            ((b3 as u64) >> ((x - 24) as u64)) & 1
        } else if x < 40 {
            ((b4 as u64) >> ((x - 32) as u64)) & 1
        } else if x < 48 {
            ((b5 as u64) >> ((x - 40) as u64)) & 1
        } else if x < 56 {
            ((b6 as u64) >> ((x - 48) as u64)) & 1
        } else {
            ((b7 as u64) >> ((x - 56) as u64)) & 1
        },
{
}

/// Bit `x` of the number in eight bytes is bit `x % 8` of byte `x / 8`.
pub proof fn lemma_value_bits(s: Seq<u8>, x: int)
    requires
        s.len() == 8,
        0 <= x < 64,
    ensures
        codec::le_value(s) <= u64::MAX,
        (((codec::le_value(s) as u64) >> (x as u64)) & 1 == 1) == ((s[x / 8] >> ((x % 8) as u8)) & 1
            == 1),
{
    reveal_with_fuel(codec::le_value, 9);
    codec::lemma_value_roundtrip(s);
    codec::lemma_pow256_values();
    let v = codec::le_value(s) as u64;
    lemma_byte_bits(v, s[0], s[1], s[2], s[3], s[4], s[5], s[6], s[7], x as u64);
}

/// A bitset holds its rows from the top, eight bytes each, and the cells of a row from the left,
/// the first in the lowest bit of the first byte: this is how it is read into rows.
pub proof fn law_bitset_layout(bits: Seq<u8>, x: int, y: int)
    requires
        bits.len() == BITS_BYTES,
        0 <= x < 64,
        0 <= y < 64,
    ensures
        ((protocol::rows_from(bits)[y] >> (x as u64)) & 1 == 1) == bit_of_bytes(bits, x, y),
{
    chunk::lemma_rows_of(|k: int| protocol::row_from(bits, k) as u64, CHUNK_SIZE as nat, y);
    let part = bits.subrange(8 * y, 8 * y + 8);
    lemma_value_bits(part, x);
    assert(part[x / 8] == bits[8 * y + x / 8]);
    assert(protocol::rows_from(bits)[y] == codec::le_value(part) as u64);
}

/// Rows are packed in the same layout.
pub proof fn law_packed_layout(rows: Seq<u64>, x: int, y: int)
    requires
        0 <= x < 64,
        0 <= y < rows.len(),
    ensures
        protocol::rows_bytes(rows).len() == 8 * rows.len(),
        bit_of_bytes(protocol::rows_bytes(rows), x, y) == ((rows[y] >> (x as u64)) & 1 == 1),
{
    let f = |k: int| codec::le_bytes(rows[k] as nat, 8);
    let all = protocol::rows_bytes(rows);
    assert forall|k: int| 0 <= k < rows.len() implies (#[trigger] f(k)).len() == 8 by {
        codec::lemma_le_len(rows[k] as nat, 8);
    }
    codec::lemma_joined(rows.len(), f, 8);
    codec::lemma_pow256_values();
    codec::lemma_le_roundtrip(rows[y] as nat, 8);
    let part = codec::item(all, y, 8);
    assert(part == f(y));
    lemma_value_bits(part, x);
    assert(part[x / 8] == all[8 * y + x / 8]);
}

/// The number in two bytes, the lower first.
pub open spec fn u16_of(s: Seq<u8>, at: int) -> int {
    s[at] + 0x100 * s[at + 1]
}

/// The number in four bytes, the lowest first.
pub open spec fn u32_of(s: Seq<u8>, at: int) -> int {
    s[at] + 0x100 * s[at + 1] + 0x1_0000 * s[at + 2] + 0x100_0000 * s[at + 3]
}

/// The number in eight bytes, the lowest first.
pub open spec fn u64_of(s: Seq<u8>, at: int) -> int {
    u32_of(s, at) + 0x1_0000_0000 * u32_of(s, at + 4)
}

/// The number in four bytes, the lowest first, in two's complement.
pub open spec fn i32_of(s: Seq<u8>, at: int) -> int {
    if u32_of(s, at) < 0x8000_0000 {
        u32_of(s, at)
    } else {
        u32_of(s, at) - 0x1_0000_0000
    }
}

/// The number in eight bytes, the lowest first, in two's complement.
pub open spec fn i64_of(s: Seq<u8>, at: int) -> int {
    if u64_of(s, at) < 0x8000_0000_0000_0000 {
        u64_of(s, at)
    } else {
        u64_of(s, at) - 0x1_0000_0000_0000_0000
    }
}

proof fn lemma_signs(a: u32, b: u64)
    ensures
        a as i32 == (if a < 0x8000_0000 {
            a as int
        } else {
            a - 0x1_0000_0000
        }),
        b as i64 == (if b < 0x8000_0000_0000_0000 {
            b as int
        } else {
            b - 0x1_0000_0000_0000_0000
        }),
{
    assert(a as i32 == if a < 0x8000_0000 {
        a as int
    } else {
        a - 0x1_0000_0000
    }) by (bit_vector);
    assert(b as i64 == if b < 0x8000_0000_0000_0000 {
        b as int
    } else {
        b - 0x1_0000_0000_0000_0000
    }) by (bit_vector);
}

/// The numbers that are read are those in the bytes.
pub proof fn lemma_numbers(s: Seq<u8>, at: int)
    requires
        0 <= at,
    ensures
        at + 2 <= s.len() ==> protocol::num_at(s, at, 2) == u16_of(s, at),
        at + 4 <= s.len() ==> protocol::num_at(s, at, 4) == u32_of(s, at) && protocol::i32_at(s, at)
            == i32_of(s, at),
        at + 8 <= s.len() ==> protocol::num_at(s, at, 8) == u64_of(s, at) && protocol::i64_at(s, at)
            == i64_of(s, at),
{
    reveal_with_fuel(codec::le_value, 9);
    if at + 2 <= s.len() {
        let p = s.subrange(at, at + 2);
        assert(p[0] == s[at] && p[1] == s[at + 1]);
    }
    if at + 4 <= s.len() {
        let p = s.subrange(at, at + 4);
        assert(p[0] == s[at] && p[1] == s[at + 1] && p[2] == s[at + 2] && p[3] == s[at + 3]);
        lemma_signs(u32_of(s, at) as u32, 0);
    }
    if at + 8 <= s.len() {
        let p = s.subrange(at, at + 8);
        assert(p[0] == s[at] && p[1] == s[at + 1] && p[2] == s[at + 2] && p[3] == s[at + 3]);
        assert(p[4] == s[at + 4] && p[5] == s[at + 5] && p[6] == s[at + 6] && p[7] == s[at + 7]);
        lemma_signs(0, u64_of(s, at) as u64);
    }
}

/// Whether `s` starts with a list of chunk coordinates at `at`.
pub open spec fn holds_coords(s: Seq<u8>, at: int, coords: Seq<ChunkCoord>) -> bool {
    &&& s.len() >= at + 2 + 8 * coords.len()
    &&& u16_of(s, at) == coords.len()
    &&& forall|k: int|
        0 <= k < coords.len() ==> (#[trigger] coords[k]).0 == i32_of(s, at + 2 + 8 * k)
            && coords[k].1 == i32_of(s, at + 6 + 8 * k)
}

/// Whether `s` starts with a frame of a client that says `m`, by the place of each byte.
pub open spec fn says_client(s: Seq<u8>, m: ClientModel) -> bool {
    match m {
        ClientModel::Subscribe(coords) => s[0] == 0x10 && holds_coords(s, 1, coords),
        ClientModel::Unsubscribe(coords) => s[0] == 0x11 && holds_coords(s, 1, coords),
        ClientModel::Edit(cells) => {
            &&& s[0] == 0x12
            &&& s.len() >= 3 + 11 * cells.len()
            &&& u16_of(s, 1) == cells.len()
            &&& forall|k: int|
                0 <= k < cells.len() ==> (#[trigger] cells[k]).cx == i32_of(s, 3 + 11 * k)
                    && cells[k].cy == i32_of(s, 7 + 11 * k) && cells[k].lx == s[11 + 11 * k]
                    && cells[k].ly == s[12 + 11 * k] && cells[k].alive == (s[13 + 11 * k] != 0)
        },
        ClientModel::ClaimCreate(c) => {
            &&& s[0] == 0x13
            &&& s.len() >= 9
            &&& c.0 == i32_of(s, 1)
            &&& c.1 == i32_of(s, 5)
        },
        ClientModel::ClaimDelete => s[0] == 0x14,
    }
}

/// A list of coordinates that is there is read as it is.
proof fn lemma_coords_read(s: Seq<u8>, at: int)
    requires
        0 <= at,
        protocol::has_list(s, at, 8),
    ensures
        holds_coords(
            s,
            at,
            protocol::list_from(s, at, 8, |i: Seq<u8>| protocol::coord_from(i)),
        ),
{
    let coords = protocol::list_from(s, at, 8, |i: Seq<u8>| protocol::coord_from(i));
    lemma_numbers(s, at);
    assert forall|k: int| 0 <= k < coords.len() implies (#[trigger] coords[k]).0 == i32_of(
        s,
        at + 2 + 8 * k,
    ) && coords[k].1 == i32_of(s, at + 6 + 8 * k) by {
        let item = protocol::list_item(s, at, k, 8);
        assert(item.subrange(0, 4) =~= s.subrange(at + 2 + 8 * k, at + 6 + 8 * k));
        assert(item.subrange(4, 8) =~= s.subrange(at + 6 + 8 * k, at + 10 + 8 * k));
        lemma_numbers(s, at + 2 + 8 * k);
        lemma_numbers(s, at + 6 + 8 * k);
    }
}

/// Item `k` of a list of edited cells with their chunks.
proof fn lemma_cell_read(s: Seq<u8>, k: int)
    requires
        0 <= k,
        3 + 11 * k + 11 <= s.len(),
    ensures
        ({
            let c = protocol::cell_from(protocol::list_item(s, 1, k, 11));
            &&& c.cx == i32_of(s, 3 + 11 * k)
            &&& c.cy == i32_of(s, 7 + 11 * k)
            &&& c.lx == s[11 + 11 * k]
            &&& c.ly == s[12 + 11 * k]
            &&& c.alive == (s[13 + 11 * k] != 0)
        }),
{
    let item = protocol::list_item(s, 1, k, 11);
    assert(item.subrange(0, 4) =~= s.subrange(3 + 11 * k, 7 + 11 * k));
    assert(item.subrange(4, 8) =~= s.subrange(7 + 11 * k, 11 + 11 * k));
    assert(item[8] == s[11 + 11 * k] && item[9] == s[12 + 11 * k] && item[10] == s[13 + 11 * k]);
    lemma_numbers(s, 3 + 11 * k);
    lemma_numbers(s, 7 + 11 * k);
}

/// Whether edit `k` of a frame is there in full and lies outside its chunk.
pub open spec fn strays(s: Seq<u8>, k: int) -> bool {
    &&& 0 <= k < u16_of(s, 1)
    &&& s.len() >= 14 + 11 * k
    &&& s[11 + 11 * k] >= 64 || s[12 + 11 * k] >= 64
}

/// A frame of a client is taken to say what its bytes say, each in its place; it is rejected
/// exactly if it is empty, has no known tag, is too short for what it announces, or holds an edit
/// outside its chunk.
pub proof fn law_client_frames(s: Seq<u8>)
    ensures
        protocol::parse_client(s) matches Ok(m) ==> s.len() > 0 && says_client(s, m),
        protocol::parse_client(s) matches Ok(ClientModel::Edit(cells)) ==> forall|k: int|
            0 <= k < cells.len() ==> (#[trigger] cells[k]).lx < 64 && cells[k].ly < 64,
        protocol::parse_client(s) matches Err(e) ==> e == (if s.len() == 0 {
            DecodeError::Empty
        } else if s[0] < 0x10 || s[0] > 0x14 {
            DecodeError::UnknownTag(s[0])
        } else if s[0] == 0x12 && s.len() >= 3 && exists|k: int| strays(s, k) {
            DecodeError::BadLocalCoord
        } else {
            DecodeError::Truncated
        }),
        protocol::parse_client(s) is Err <==> ({
            ||| s.len() == 0
            ||| s[0] < 0x10
            ||| s[0] > 0x14
            ||| s[0] <= 0x11 && (s.len() < 3 || s.len() < 3 + 8 * u16_of(s, 1))
            ||| s[0] == 0x12 && (s.len() < 3 || s.len() < 3 + 11 * u16_of(s, 1) || exists|k: int|
                strays(s, k))
            ||| s[0] == 0x13 && s.len() < 9
        }),
{
    if s.len() > 0 {
        if s.len() >= 3 {
            lemma_numbers(s, 1);
        }
        if s[0] == 0x10 || s[0] == 0x11 {
            if protocol::has_list(s, 1, 8) {
                lemma_coords_read(s, 1);
            }
        } else if s[0] == 0x12 && s.len() >= 3 {
            let f = |i: Seq<u8>| protocol::cell_from(i);
            assert forall|k: int| #[trigger] protocol::stray(s, 1, 11, f, k) == strays(s, k) by {
                if 0 <= k && 14 + 11 * k <= s.len() {
                    lemma_cell_read(s, k);
                }
            }
            if exists|k: int| strays(s, k) {
                let k = choose|k: int| strays(s, k);
                assert(protocol::stray(s, 1, 11, f, k));
            }
            if protocol::has_list(s, 1, 11) {
                let cells = protocol::list_from(s, 1, 11, f);
                assert forall|k: int| 0 <= k < cells.len() implies (#[trigger] cells[k]).cx
                    == i32_of(s, 3 + 11 * k) && cells[k].cy == i32_of(s, 7 + 11 * k) && cells[k].lx
                    == s[11 + 11 * k] && cells[k].ly == s[12 + 11 * k] && cells[k].alive == (s[13
                    + 11 * k] != 0) && (!(exists|k: int| strays(s, k)) ==> cells[k].lx < 64
                    && cells[k].ly < 64) by {
                    lemma_cell_read(s, k);
                    if !(exists|k: int| strays(s, k)) {
                        assert(!strays(s, k));
                    }
                }
            }
        } else if s[0] == 0x13 {
            lemma_numbers(s, 1);
            lemma_numbers(s, 5);
        }
    }
}

/// What a client encodes has each byte in its place.
pub proof fn law_client_layout(m: ClientModel)
    requires
        match m {
            ClientModel::Subscribe(coords) => coords.len() < 0x1_0000,
            ClientModel::Unsubscribe(coords) => coords.len() < 0x1_0000,
            ClientModel::Edit(cells) => cells.len() < 0x1_0000 && forall|k: int|
                0 <= k < cells.len() ==> (#[trigger] cells[k]).lx < 64 && cells[k].ly < 64,
            _ => true,
        },
    ensures
        says_client(protocol::client_bytes(m), m),
{
    if let ClientModel::Edit(cells) = m {
        assert forall|k: int| 0 <= k < cells.len() implies protocol::in_chunk(
            #[trigger] cells[k],
        ) by {
            assert(cells[k].lx < 64 && cells[k].ly < 64);
        }
    }
    protocol::law_client_roundtrip(m);
    law_client_frames(protocol::client_bytes(m));
}

/// Whether a region stands in the 29 bytes from `at` on.
pub open spec fn holds_region(s: Seq<u8>, at: int, r: Region) -> bool {
    &&& r.x == i64_of(s, at)
    &&& r.y == i64_of(s, at + 8)
    &&& r.w == u32_of(s, at + 16)
    &&& r.h == u32_of(s, at + 20)
    &&& r.flags == s[at + 24]
    &&& r.owner == u32_of(s, at + 25)
}

/// Whether the bits of a chunk stand behind the tag.
pub open spec fn holds_chunk(s: Seq<u8>, cx: i32, cy: i32, tick: u64, bits: Seq<u8>) -> bool {
    &&& s.len() >= 529
    &&& cx == i32_of(s, 1)
    &&& cy == i32_of(s, 5)
    &&& tick == u64_of(s, 9)
    &&& bits == s.subrange(17, 529)
}

/// Whether `s` starts with a frame of a server that says `m`, by the place of each byte.
pub open spec fn says_server(s: Seq<u8>, m: ServerModel) -> bool {
    match m {
        ServerModel::ChunkState { cx, cy, tick, bits } => s[0] == 1 && holds_chunk(
            s,
            cx,
            cy,
            tick,
            bits,
        ),
        ServerModel::ChunkDelta { cx, cy, tick, bits } => s[0] == 2 && holds_chunk(
            s,
            cx,
            cy,
            tick,
            bits,
        ),
        ServerModel::Reaped { cx, cy } => s[0] == 3 && s.len() >= 9 && cx == i32_of(s, 1) && cy
            == i32_of(s, 5),
        ServerModel::Stats { tick, live_chunks, tick_rate_hz, tick_utilization } => {
            &&& s[0] == 4
            &&& s.len() >= 21
            &&& tick == u64_of(s, 1)
            &&& live_chunks == u32_of(s, 9)
            &&& tick_rate_hz == u32_of(s, 13)
            &&& tick_utilization == u32_of(s, 17)
        },
        ServerModel::Hello { tick, chunk_size } => s[0] == 5 && s.len() >= 10 && tick == u64_of(
            s,
            1,
        ) && chunk_size == s[9],
        ServerModel::Regions { regions } => {
            &&& s[0] == 6
            &&& s.len() >= 3 + 29 * regions.len()
            &&& u16_of(s, 1) == regions.len()
            &&& forall|k: int|
                0 <= k < regions.len() ==> holds_region(s, 3 + 29 * k, #[trigger] regions[k])
        },
        ServerModel::Sync { tick } => s[0] == 7 && s.len() >= 9 && tick == u64_of(s, 1),
        ServerModel::EditApplied { cx, cy, cells } => {
            &&& s[0] == 8
            &&& s.len() >= 11 + 3 * cells.len()
            &&& cx == i32_of(s, 1)
            &&& cy == i32_of(s, 5)
            &&& u16_of(s, 9) == cells.len()
            &&& forall|k: int|
                0 <= k < cells.len() ==> (#[trigger] cells[k]).cx == cx && cells[k].cy == cy
                    && cells[k].lx == s[11 + 3 * k] && cells[k].ly == s[12 + 3 * k]
                    && cells[k].alive == (s[13 + 3 * k] != 0)
        },
        ServerModel::AuthState { uid, claim, name, email } => {
            let n = u16_of(s, 14);
            let k = u16_of(s, 16 + n);
            &&& s[0] == 9
            &&& s.len() >= 18 + n + k
            &&& uid == u32_of(s, 1)
            &&& match claim {
                Some(c) => s[5] != 0 && c.0 == i32_of(s, 6) && c.1 == i32_of(s, 10),
                None => s[5] == 0,
            }
            &&& name == vstd::utf8::decode_utf8(s.subrange(16, 16 + n))
            &&& email == vstd::utf8::decode_utf8(s.subrange(18 + n, 18 + n + k))
        },
        ServerModel::ClaimResult { ok } => s[0] == 10 && s.len() >= 2 && ok == (s[1] != 0),
    }
}

/// A region that is there is read as it is.
proof fn lemma_region_read(s: Seq<u8>, k: int)
    requires
        0 <= k,
        3 + 29 * k + 29 <= s.len(),
    ensures
        holds_region(s, 3 + 29 * k, protocol::region_from(protocol::list_item(s, 1, k, 29))),
{
    let at = 3 + 29 * k;
    let item = protocol::list_item(s, 1, k, 29);
    assert(item.subrange(0, 8) =~= s.subrange(at, at + 8));
    assert(item.subrange(8, 16) =~= s.subrange(at + 8, at + 16));
    assert(item.subrange(16, 20) =~= s.subrange(at + 16, at + 20));
    assert(item.subrange(20, 24) =~= s.subrange(at + 20, at + 24));
    assert(item[24] == s[at + 24]);
    assert(item.subrange(25, 29) =~= s.subrange(at + 25, at + 29));
    lemma_numbers(s, at);
    lemma_numbers(s, at + 8);
    lemma_numbers(s, at + 16);
    lemma_numbers(s, at + 20);
    lemma_numbers(s, at + 25);
}

/// Whether edit `k` of a frame about applied edits is there in full and lies outside its chunk.
pub open spec fn strays_local(s: Seq<u8>, k: int) -> bool {
    &&& 0 <= k < u16_of(s, 9)
    &&& s.len() >= 14 + 3 * k
    &&& s[11 + 3 * k] >= 64 || s[12 + 3 * k] >= 64
}

/// A frame about applied edits.
proof fn lemma_edit_frame(s: Seq<u8>)
    requires
        s.len() >= 11,
        s[0] == 8,
    ensures
        protocol::parse_server(s) matches Ok(m) ==> says_server(s, m),
        protocol::parse_server(s) is Ok <==> s.len() >= 11 + 3 * u16_of(s, 9) && !(exists|k: int|
            strays_local(s, k)),
        protocol::parse_server(s) matches Err(e) ==> e == (if exists|k: int| strays_local(s, k) {
            DecodeError::BadLocalCoord
        } else {
            DecodeError::Truncated
        }),
{
    lemma_numbers(s, 1);
    lemma_numbers(s, 5);
    lemma_numbers(s, 9);
    let cx = protocol::i32_at(s, 1);
    let cy = protocol::i32_at(s, 5);
    let f = |i: Seq<u8>| protocol::local_from(cx, cy, i);
    assert forall|k: int| 0 <= k && 14 + 3 * k <= s.len() implies ({
        let c = #[trigger] f(protocol::list_item(s, 9, k, 3));
        &&& c.cx == cx
        &&& c.cy == cy
        &&& c.lx == s[11 + 3 * k]
        &&& c.ly == s[12 + 3 * k]
        &&& c.alive == (s[13 + 3 * k] != 0)
    }) by {
        let item = protocol::list_item(s, 9, k, 3);
        assert(item[0] == s[11 + 3 * k] && item[1] == s[12 + 3 * k] && item[2] == s[13 + 3 * k]);
    }
    assert forall|k: int| #[trigger] protocol::stray(s, 9, 3, f, k) == strays_local(s, k) by {
        if 0 <= k && 14 + 3 * k <= s.len() {
            let c = f(protocol::list_item(s, 9, k, 3));
            assert(c.lx == s[11 + 3 * k] && c.ly == s[12 + 3 * k]);
        }
    }
    if exists|k: int| strays_local(s, k) {
        let k = choose|k: int| strays_local(s, k);
        assert(protocol::stray(s, 9, 3, f, k));
    }
    if protocol::has_list(s, 9, 3) {
        let cells = protocol::list_from(s, 9, 3, f);
        assert forall|k: int| 0 <= k < cells.len() implies (#[trigger] cells[k]).cx == cx
            && cells[k].cy == cy && cells[k].lx == s[11 + 3 * k] && cells[k].ly == s[12 + 3 * k]
            && cells[k].alive == (s[13 + 3 * k] != 0) by {
            let c = f(protocol::list_item(s, 9, k, 3));
            assert(c == cells[k]);
        }
    }
}

/// A frame of a server is taken to say what its bytes say, each in its place.
pub proof fn law_server_frames(s: Seq<u8>)
    ensures
        protocol::parse_server(s) matches Ok(m) ==> s.len() > 0 && says_server(s, m),
        s.len() == 0 ==> protocol::parse_server(s) == Err::<ServerModel, DecodeError>(
            DecodeError::Empty,
        ),
        s.len() > 0 && (s[0] == 0 || s[0] > 10) ==> protocol::parse_server(s) == Err::<
            ServerModel,
            DecodeError,
        >(DecodeError::UnknownTag(s[0])),
        s.len() > 0 && 1 <= s[0] <= 10 && s[0] != 8 ==> protocol::parse_server(s) is Ok
            || protocol::parse_server(s) == Err::<ServerModel, DecodeError>(DecodeError::Truncated),
        s.len() >= 11 && s[0] == 8 ==> (protocol::parse_server(s) is Ok <==> s.len() >= 11 + 3
            * u16_of(s, 9) && !(exists|k: int| strays_local(s, k))),
        s.len() > 0 && 1 <= s[0] <= 7 && s[0] != 6 || s.len() > 0 && s[0] == 10 ==> (
        protocol::parse_server(s) is Ok <==> s.len() >= (if s[0] <= 2 {
            529int
        } else if s[0] == 4 {
            21
        } else if s[0] == 5 {
            10
        } else if s[0] == 10 {
            2
        } else {
            9
        })),
        s.len() > 0 && s[0] == 6 ==> (protocol::parse_server(s) is Ok <==> s.len() >= 3 && s.len()
            >= 3 + 29 * u16_of(s, 1)),
{
    if s.len() > 0 {
        if s[0] == 8 {
            if s.len() >= 11 {
                lemma_edit_frame(s);
            }
        } else if s[0] == 6 {
            if s.len() >= 3 {
                lemma_numbers(s, 1);
            }
            if protocol::has_list(s, 1, 29) {
                let f = |i: Seq<u8>| protocol::region_from(i);
                let regions = protocol::list_from(s, 1, 29, f);
                assert forall|k: int| 0 <= k < regions.len() implies holds_region(
                    s,
                    3 + 29 * k,
                    #[trigger] regions[k],
                ) by {
                    lemma_region_read(s, k);
                }
            }
        } else if s[0] == 9 {
            lemma_numbers(s, 1);
            lemma_numbers(s, 6);
            lemma_numbers(s, 10);
            lemma_numbers(s, 14);
            if protocol::has_texts(s) {
                lemma_numbers(s, 16 + u16_of(s, 14));
            }
        } else {
            lemma_numbers(s, 1);
            lemma_numbers(s, 5);
            lemma_numbers(s, 9);
            lemma_numbers(s, 13);
            lemma_numbers(s, 17);
        }
    }
}

/// What a server encodes has each byte in its place.
pub proof fn law_server_layout(m: ServerModel)
    requires
        match m {
            ServerModel::Regions { regions } => regions.len() < 0x1_0000,
            ServerModel::AuthState { name, email, .. } => vstd::utf8::encode_utf8(name).len()
                < 0x1_0000 && vstd::utf8::encode_utf8(email).len() < 0x1_0000,
            ServerModel::ChunkState { bits, .. } => bits.len() == 512,
            ServerModel::ChunkDelta { bits, .. } => bits.len() == 512,
            ServerModel::EditApplied { cx, cy, cells } => cells.len() < 0x1_0000 && forall|k: int|
                0 <= k < cells.len() ==> (#[trigger] cells[k]).lx < 64 && cells[k].ly < 64
                    && cells[k].cx == cx && cells[k].cy == cy,
            _ => true,
        },
    ensures
        says_server(protocol::server_bytes(m), m),
{
    if let ServerModel::EditApplied { cx, cy, cells } = m {
        assert forall|k: int| 0 <= k < cells.len() implies protocol::in_chunk(#[trigger] cells[k])
            && cells[k].cx == cx && cells[k].cy == cy by {
            assert(cells[k].lx < 64 && cells[k].ly < 64);
        }
    }
    protocol::law_server_roundtrip(m);
    law_server_frames(protocol::server_bytes(m));
}

/// The flags of regions are single bits.
pub proof fn law_flag_bits()
    ensures
        protocol::FLAG_FROZEN == 1,
        protocol::FLAG_LOCKED == 2,
        protocol::FLAG_OWNED == 4,
{
}

/// What a message of a server says is what it holds, all of it.
pub proof fn law_server_messages_say_all(m: ServerMsg)
    ensures
        match m {
            ServerMsg::Hello { tick, chunk_size } => m@ == (ServerModel::Hello {
                tick,
                chunk_size,
            }),
            ServerMsg::Regions { regions } => m@ == (ServerModel::Regions { regions: regions@ }),
            ServerMsg::ChunkState { cx, cy, tick, bits } => m@ == (ServerModel::ChunkState {
                cx,
                cy,
                tick,
                bits: bits@,
            }),
            ServerMsg::ChunkDelta { cx, cy, tick, bits } => m@ == (ServerModel::ChunkDelta {
                cx,
                cy,
                tick,
                bits: bits@,
            }),
            ServerMsg::Reaped { cx, cy } => m@ == (ServerModel::Reaped { cx, cy }),
            ServerMsg::Stats { tick, live_chunks, tick_rate_hz, tick_utilization } => m@ == (
            ServerModel::Stats { tick, live_chunks, tick_rate_hz, tick_utilization }),
            ServerMsg::Sync { tick } => m@ == (ServerModel::Sync { tick }),
            ServerMsg::EditApplied { cx, cy, cells } => m@ == (ServerModel::EditApplied {
                cx,
                cy,
                cells: cells@,
            }),
            ServerMsg::AuthState { uid, claim, name, email } => m@ == (ServerModel::AuthState {
                uid,
                claim,
                name: name@,
                email: email@,
            }),
            ServerMsg::ClaimResult { ok } => m@ == (ServerModel::ClaimResult { ok }),
        },
{
}

/// What a message of a client says is what it holds, all of it.
pub proof fn law_client_messages_say_all(m: ClientMsg)
    ensures
        match m {
            ClientMsg::Subscribe(coords) => m@ == ClientModel::Subscribe(coords@),
            ClientMsg::Unsubscribe(coords) => m@ == ClientModel::Unsubscribe(coords@),
            ClientMsg::Edit(cells) => m@ == ClientModel::Edit(cells@),
            ClientMsg::ClaimCreate(c) => m@ == ClientModel::ClaimCreate(c),
            ClientMsg::ClaimDelete => m@ == ClientModel::ClaimDelete,
        },
{
}

/// A message fits the wire format exactly if the length of its list, or of each of its texts, can be
/// written in two bytes.
pub proof fn law_short_messages_fit(c: ClientModel, s: ServerModel)
    ensures
        protocol::client_fits(c) == (match c {
            ClientModel::Subscribe(coords) => coords.len() < 0x1_0000,
            ClientModel::Unsubscribe(coords) => coords.len() < 0x1_0000,
            ClientModel::Edit(cells) => cells.len() < 0x1_0000,
            _ => true,
        }),
        protocol::server_fits(s) == (match s {
            ServerModel::Regions { regions } => regions.len() < 0x1_0000,
            ServerModel::EditApplied { cells, .. } => cells.len() < 0x1_0000,
            ServerModel::AuthState { name, email, .. } => vstd::utf8::encode_utf8(name).len()
                < 0x1_0000 && vstd::utf8::encode_utf8(email).len() < 0x1_0000,
            _ => true,
        }),
{
}

/// A frame about a login is read exactly if both of its texts are there in full and are texts; else
/// it counts as cut off.
pub proof fn law_login_frames(s: Seq<u8>)
    requires
        s.len() > 0,
        s[0] == 9,
    ensures
        protocol::parse_server(s) is Ok <==> {
            &&& s.len() >= 16
            &&& s.len() >= 18 + u16_of(s, 14)
            &&& s.len() >= 18 + u16_of(s, 14) + u16_of(s, 16 + u16_of(s, 14))
            &&& vstd::utf8::valid_utf8(s.subrange(16, 16 + u16_of(s, 14)))
            &&& vstd::utf8::valid_utf8(
                s.subrange(
                    18 + u16_of(s, 14),
                    18 + u16_of(s, 14) + u16_of(s, 16 + u16_of(s, 14)),
                ),
            )
        },
        protocol::parse_server(s) is Err ==> protocol::parse_server(s) == Err::<
            ServerModel,
            DecodeError,
        >(DecodeError::Truncated),
{
    if s.len() >= 16 {
        lemma_numbers(s, 14);
        lemma_numbers(s, 16 + u16_of(s, 14));
    }
}

/// Yes is sent as one, no as zero, and a claim that is not there as zeros.
pub proof fn law_answers_are_zero_or_one(
    uid: u32,
    claim: Option<ChunkCoord>,
    name: Seq<char>,
    email: Seq<char>,
    c: EditCell,
)
    ensures
        protocol::server_bytes(ServerModel::ClaimResult { ok: true }) == seq![10u8, 1u8],
        protocol::server_bytes(ServerModel::ClaimResult { ok: false }) == seq![10u8, 0u8],
        protocol::local_bytes(c) == seq![c.lx, c.ly, if c.alive {
            1u8
        } else {
            0u8
        }],
        ({
            let s = protocol::server_bytes(ServerModel::AuthState { uid, claim, name, email });
            &&& s[5] == (if claim is Some {
                1u8
            } else {
                0u8
            })
            &&& claim is None ==> forall|i: int| 6 <= i < 14 ==> #[trigger] s[i] == 0
        }),
{
    let m = ServerModel::AuthState { uid, claim, name, email };
    let s = protocol::server_bytes(m);
    let d: ChunkCoord = match claim {
        Some(c) => c,
        None => (0, 0),
    };
    codec::lemma_le_len(uid as nat, 4);
    protocol::lemma_coord_len(d);
    let rest = protocol::text_bytes(name) + protocol::text_bytes(email);
    assert(s =~= seq![9u8] + codec::le_bytes(uid as nat, 4) + seq![
        chunk::count(claim is Some) as u8,
    ] + protocol::coord_bytes(d) + rest);
    if claim is None {
        reveal_with_fuel(codec::le_bytes, 5);
        assert(codec::le_bytes(0, 4) =~= seq![0u8, 0u8, 0u8, 0u8]);
        assert forall|i: int| 6 <= i < 14 implies #[trigger] s[i] == 0 by {
            assert(s[i] == protocol::coord_bytes(d)[i - 6]);
        }
    }
    assert(protocol::server_bytes(ServerModel::ClaimResult { ok: true }) =~= seq![10u8, 1u8]);
    assert(protocol::server_bytes(ServerModel::ClaimResult { ok: false }) =~= seq![10u8, 0u8]);
}

/// A message of a client takes as many bytes as its parts, and no more.
pub proof fn law_client_lengths(m: ClientModel)
    ensures
        protocol::client_bytes(m).len() == (match m {
            ClientModel::Subscribe(coords) => 3 + 8 * coords.len(),
            ClientModel::Unsubscribe(coords) => 3 + 8 * coords.len(),
            ClientModel::Edit(cells) => 3 + 11 * cells.len(),
            ClientModel::ClaimCreate(c) => 9nat,
            ClientModel::ClaimDelete => 1nat,
        }),
{
    match m {
        ClientModel::Subscribe(coords) => {
            lemma_coords_len(coords);
        },
        ClientModel::Unsubscribe(coords) => {
            lemma_coords_len(coords);
        },
        ClientModel::Edit(cells) => {
            let f = |c: EditCell| protocol::cell_bytes(c);
            assert forall|k: int| 0 <= k < cells.len() implies (#[trigger] f(cells[k])).len()
                == 11 by {
                protocol::lemma_coord_len((cells[k].cx, cells[k].cy));
            }
            protocol::lemma_list_bytes_len(cells, f, 11);
        },
        ClientModel::ClaimCreate(c) => {
            protocol::lemma_coord_len(c);
        },
        ClientModel::ClaimDelete => {},
    }
}

proof fn lemma_coords_len(coords: Seq<ChunkCoord>)
    ensures
        protocol::list_bytes(coords, |c: ChunkCoord| protocol::coord_bytes(c)).len() == 2 + 8
            * coords.len(),
{
    let f = |c: ChunkCoord| protocol::coord_bytes(c);
    assert forall|k: int| 0 <= k < coords.len() implies (#[trigger] f(coords[k])).len() == 8 by {
        protocol::lemma_coord_len(coords[k]);
    }
    protocol::lemma_list_bytes_len(coords, f, 8);
}

/// A message of a server takes as many bytes as its parts, and no more.
pub proof fn law_server_lengths(m: ServerModel)
    ensures
        protocol::server_bytes(m).len() == (match m {
            ServerModel::ChunkState { bits, .. } => 17 + bits.len(),
            ServerModel::ChunkDelta { bits, .. } => 17 + bits.len(),
            ServerModel::Reaped { .. } => 9nat,
            ServerModel::Stats { .. } => 21nat,
            ServerModel::Hello { .. } => 10nat,
            ServerModel::Regions { regions } => 3 + 29 * regions.len(),
            ServerModel::Sync { .. } => 9nat,
            ServerModel::EditApplied { cells, .. } => 11 + 3 * cells.len(),
            ServerModel::AuthState { name, email, .. } => 18 + vstd::utf8::encode_utf8(name).len()
                + vstd::utf8::encode_utf8(email).len(),
            ServerModel::ClaimResult { .. } => 2nat,
        }),
{
    match m {
        ServerModel::ChunkState { cx, cy, tick, bits } => {
            protocol::lemma_coord_len((cx, cy));
            codec::lemma_le_len(tick as nat, 8);
        },
        ServerModel::ChunkDelta { cx, cy, tick, bits } => {
            protocol::lemma_coord_len((cx, cy));
            codec::lemma_le_len(tick as nat, 8);
        },
        ServerModel::Reaped { cx, cy } => {
            protocol::lemma_coord_len((cx, cy));
        },
        ServerModel::Stats { tick, live_chunks, tick_rate_hz, tick_utilization } => {
            codec::lemma_le_len(tick as nat, 8);
            codec::lemma_le_len(live_chunks as nat, 4);
            codec::lemma_le_len(tick_rate_hz as nat, 4);
            codec::lemma_le_len(tick_utilization as nat, 4);
        },
        ServerModel::Hello { tick, .. } => {
            codec::lemma_le_len(tick as nat, 8);
        },
        ServerModel::Regions { regions } => {
            let f = |r: Region| protocol::region_bytes(r);
            assert forall|k: int| 0 <= k < regions.len() implies (#[trigger] f(regions[k])).len()
                == 29 by {
                let r = regions[k];
                codec::lemma_le_len(r.x as u64 as nat, 8);
                codec::lemma_le_len(r.y as u64 as nat, 8);
                codec::lemma_le_len(r.w as nat, 4);
                codec::lemma_le_len(r.h as nat, 4);
                codec::lemma_le_len(r.owner as nat, 4);
            }
            protocol::lemma_list_bytes_len(regions, f, 29);
        },
        ServerModel::Sync { tick } => {
            codec::lemma_le_len(tick as nat, 8);
        },
        ServerModel::EditApplied { cx, cy, cells } => {
            protocol::lemma_coord_len((cx, cy));
            let f = |c: EditCell| protocol::local_bytes(c);
            assert forall|k: int| 0 <= k < cells.len() implies (#[trigger] f(cells[k])).len()
                == 3 by {}
            protocol::lemma_list_bytes_len(cells, f, 3);
        },
        ServerModel::AuthState { uid, claim, name, email } => {
            codec::lemma_le_len(uid as nat, 4);
            let d: ChunkCoord = match claim {
                Some(c) => c,
                None => (0, 0),
            };
            protocol::lemma_coord_len(d);
            codec::lemma_le_len(vstd::utf8::encode_utf8(name).len(), 2);
            codec::lemma_le_len(vstd::utf8::encode_utf8(email).len(), 2);
        },
        ServerModel::ClaimResult { .. } => {},
    }
}

/// The key of a chunk has its column in the upper half and its row in the lower, each counted from
/// zero on and around.
pub proof fn law_keys_have_two_halves(c: ChunkCoord)
    ensures
        coord::key_of(c) == 0x1_0000_0000 * (if c.0 < 0 {
            c.0 + 0x1_0000_0000
        } else {
            c.0 as int
        }) + (if c.1 < 0 {
            c.1 + 0x1_0000_0000
        } else {
            c.1 as int
        }),
{
    let x = c.0;
    let y = c.1;
    assert(((x as u32 as u64) << 32) | (y as u32 as u64) == 0x1_0000_0000 * (if x < 0 {
        x + 0x1_0000_0000
    } else {
        x as int
    }) + (if y < 0 {
        y + 0x1_0000_0000
    } else {
        y as int
    })) by (bit_vector);
}

} // verus!
