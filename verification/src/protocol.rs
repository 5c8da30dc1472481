//! Wire protocol. Little-endian binary frames; one tag byte + fixed-layout payload.
//!
//! Chunk payloads carry the bitset as `CHUNK_SIZE` rows x 8 bytes (LE u64), totalling
//! [`BITS_BYTES`]. All decode errors collapse to a single [`DecodeError`] - fail early.

use crate::chunk;
use crate::codec;
use crate::coord::ChunkCoord;
use crate::shared::{copied, share};
use crate::CHUNK_SIZE;
use std::sync::Arc;
use vstd::prelude::*;
use vstd::string::{StrSliceExecFns, StringExecFns};

verus! {

/// Bytes of one chunk bitset.
pub const BITS_BYTES: usize = CHUNK_SIZE * 8;

// Server to client tags.
pub const TAG_CHUNK_STATE: u8 = 0x01;

pub const TAG_CHUNK_DELTA: u8 = 0x02;

pub const TAG_REAPED: u8 = 0x03;

pub const TAG_STATS: u8 = 0x04;

pub const TAG_HELLO: u8 = 0x05;

pub const TAG_REGIONS: u8 = 0x06;

pub const TAG_SYNC: u8 = 0x07;

pub const TAG_EDIT_APPLIED: u8 = 0x08;

pub const TAG_AUTH_STATE: u8 = 0x09;

pub const TAG_CLAIM_RESULT: u8 = 0x0A;

// Region flags (bitfield, packed into `u8`); bits 3..7 are reserved.
/// Cells inside don't evolve.
pub const FLAG_FROZEN: u8 = 1;

/// Cells inside cannot be edited.
pub const FLAG_LOCKED: u8 = 2;

/// The `owner` field is meaningful.
pub const FLAG_OWNED: u8 = 4;

// Client to server tags.
pub const TAG_SUBSCRIBE: u8 = 0x10;

pub const TAG_UNSUBSCRIBE: u8 = 0x11;

pub const TAG_EDIT: u8 = 0x12;

pub const TAG_CLAIM_CREATE: u8 = 0x13;

pub const TAG_CLAIM_DELETE: u8 = 0x14;

/// A rectangle of cells with its flags.
#[derive(Debug, Clone, Copy, PartialEq, Eq)]
pub struct Region {
    pub x: i64,
    pub y: i64,
    pub w: u32,
    pub h: u32,
    pub flags: u8,
    /// User id of the owner. Meaningful iff `flags & FLAG_OWNED != 0`.
    pub owner: u32,
}

/// One edited cell.
#[derive(Debug, Clone, Copy, PartialEq, Eq)]
pub struct EditCell {
    pub cx: i32,
    pub cy: i32,
    pub lx: u8,
    pub ly: u8,
    pub alive: bool,
}

#[derive(Debug, PartialEq, Eq)]
pub enum ServerMsg {
    Hello { tick: u64, chunk_size: u8 },
    /// World region table. Sent once after `Hello` and again whenever it changes.
    /// The client materializes per-chunk flag masks from this list for rendering.
    Regions { regions: Arc<[Region]> },
    ChunkState { cx: i32, cy: i32, tick: u64, bits: [u8; BITS_BYTES] },
    ChunkDelta { cx: i32, cy: i32, tick: u64, bits: [u8; BITS_BYTES] },
    Reaped { cx: i32, cy: i32 },
    /// Periodic broadcast of server-wide stats. The two rates are IEEE 754 single precision
    /// numbers, given by their bits.
    Stats { tick: u64, live_chunks: u32, tick_rate_hz: u32, tick_utilization: u32 },
    /// Per-tick heartbeat. Clients advance their local simulation on receipt.
    Sync { tick: u64 },
    /// Broadcast to chunk subscribers when a player edit is applied. Clients
    /// patch their local bits then let the next `Sync` drive the GoL step.
    /// Cells are all in the same chunk (cx, cy); wire encodes only lx/ly/alive.
    EditApplied { cx: i32, cy: i32, cells: Vec<EditCell> },
    /// Sent after WebSocket join and after any auth/claim state change.
    /// `uid == 0` means anonymous. `claim` is `None` when the user has no active claim.
    AuthState { uid: u32, claim: Option<ChunkCoord>, name: String, email: String },
    /// Response to a `ClaimCreate` or `ClaimDelete` client message.
    ClaimResult { ok: bool },
}

#[derive(Debug, PartialEq, Eq)]
pub enum ClientMsg {
    Subscribe(Vec<(i32, i32)>),
    Unsubscribe(Vec<(i32, i32)>),
    Edit(Vec<EditCell>),
    ClaimCreate(ChunkCoord),
    ClaimDelete,
}

#[derive(Debug, Clone, Copy, PartialEq, Eq)]
pub enum DecodeError {
    Empty,
    UnknownTag(u8),
    Truncated,
    BadLocalCoord,
}

/// A byte as two hexadecimal digits.
pub open spec fn hex_byte(b: u8) -> Seq<char> {
    seq!["0123456789abcdef"@[b as int / 16], "0123456789abcdef"@[b as int % 16]]
}

impl DecodeError {
    /// What went wrong, in words.
    pub open spec fn text(self) -> Seq<char> {
        match self {
            DecodeError::Empty => "empty frame"@,
            DecodeError::UnknownTag(t) => "unknown tag 0x"@ + hex_byte(t),
            DecodeError::Truncated => "truncated frame"@,
            DecodeError::BadLocalCoord => "local coord out of CHUNK_SIZE range"@,
        }
    }

    /// What went wrong, in words.
    pub fn message(&self) -> (s: String)
        ensures
            s@ == self.text(),
    {
        match self {
            DecodeError::Empty => "empty frame".to_owned(),
            DecodeError::UnknownTag(t) => {
                proof {
                    reveal_strlit("0123456789abcdef");
                }
                let digits = "0123456789abcdef";
                let hi = (*t / 16) as usize;
                let lo = (*t % 16) as usize;
                let mut s = "unknown tag 0x".to_owned();
                s.append(digits.substring_char(hi, hi + 1));
                s.append(digits.substring_char(lo, lo + 1));
                assert(s@ =~= self.text());
                s
            },
            DecodeError::Truncated => "truncated frame".to_owned(),
            DecodeError::BadLocalCoord => "local coord out of CHUNK_SIZE range".to_owned(),
        }
    }
}

/// What a [`ServerMsg`] says.
#[verifier::ext_equal]
pub enum ServerModel {
    Hello { tick: u64, chunk_size: u8 },
    Regions { regions: Seq<Region> },
    ChunkState { cx: i32, cy: i32, tick: u64, bits: Seq<u8> },
    ChunkDelta { cx: i32, cy: i32, tick: u64, bits: Seq<u8> },
    Reaped { cx: i32, cy: i32 },
    Stats { tick: u64, live_chunks: u32, tick_rate_hz: u32, tick_utilization: u32 },
    Sync { tick: u64 },
    EditApplied { cx: i32, cy: i32, cells: Seq<EditCell> },
    AuthState { uid: u32, claim: Option<ChunkCoord>, name: Seq<char>, email: Seq<char> },
    ClaimResult { ok: bool },
}

/// What a [`ClientMsg`] says.
#[verifier::ext_equal]
pub enum ClientModel {
    Subscribe(Seq<ChunkCoord>),
    Unsubscribe(Seq<ChunkCoord>),
    Edit(Seq<EditCell>),
    ClaimCreate(ChunkCoord),
    ClaimDelete,
}

impl View for ServerMsg {
    type V = ServerModel;

    open spec fn view(&self) -> ServerModel {
        match *self {
            ServerMsg::Hello { tick, chunk_size } => ServerModel::Hello { tick, chunk_size },
            ServerMsg::Regions { regions } => ServerModel::Regions { regions: regions@ },
            ServerMsg::ChunkState { cx, cy, tick, bits } => ServerModel::ChunkState {
                cx,
                cy,
                tick,
                bits: bits@,
            },
            ServerMsg::ChunkDelta { cx, cy, tick, bits } => ServerModel::ChunkDelta {
                cx,
                cy,
                tick,
                bits: bits@,
            },
            ServerMsg::Reaped { cx, cy } => ServerModel::Reaped { cx, cy },
            ServerMsg::Stats { tick, live_chunks, tick_rate_hz, tick_utilization } =>
                ServerModel::Stats { tick, live_chunks, tick_rate_hz, tick_utilization },
            ServerMsg::Sync { tick } => ServerModel::Sync { tick },
            ServerMsg::EditApplied { cx, cy, cells } => ServerModel::EditApplied {
                cx,
                cy,
                cells: cells@,
            },
            ServerMsg::AuthState { uid, claim, name, email } => ServerModel::AuthState {
                uid,
                claim,
                name: name@,
                email: email@,
            },
            ServerMsg::ClaimResult { ok } => ServerModel::ClaimResult { ok },
        }
    }
}

impl View for ClientMsg {
    type V = ClientModel;

    open spec fn view(&self) -> ClientModel {
        match *self {
            ClientMsg::Subscribe(coords) => ClientModel::Subscribe(coords@),
            ClientMsg::Unsubscribe(coords) => ClientModel::Unsubscribe(coords@),
            ClientMsg::Edit(cells) => ClientModel::Edit(cells@),
            ClientMsg::ClaimCreate(c) => ClientModel::ClaimCreate(c),
            ClientMsg::ClaimDelete => ClientModel::ClaimDelete,
        }
    }
}

impl Clone for ServerMsg {
    fn clone(&self) -> (m: Self)
        ensures
            m@ == self@,
    {
        match self {
            ServerMsg::Hello { tick, chunk_size } => ServerMsg::Hello {
                tick: *tick,
                chunk_size: *chunk_size,
            },
            ServerMsg::Regions { regions } => ServerMsg::Regions { regions: share(regions) },
            ServerMsg::ChunkState { cx, cy, tick, bits } => ServerMsg::ChunkState {
                cx: *cx,
                cy: *cy,
                tick: *tick,
                bits: *bits,
            },
            ServerMsg::ChunkDelta { cx, cy, tick, bits } => ServerMsg::ChunkDelta {
                cx: *cx,
                cy: *cy,
                tick: *tick,
                bits: *bits,
            },
            ServerMsg::Reaped { cx, cy } => ServerMsg::Reaped { cx: *cx, cy: *cy },
            ServerMsg::Stats { tick, live_chunks, tick_rate_hz, tick_utilization } =>
                ServerMsg::Stats {
                tick: *tick,
                live_chunks: *live_chunks,
                tick_rate_hz: *tick_rate_hz,
                tick_utilization: *tick_utilization,
            },
            ServerMsg::Sync { tick } => ServerMsg::Sync { tick: *tick },
            ServerMsg::EditApplied { cx, cy, cells } => ServerMsg::EditApplied {
                cx: *cx,
                cy: *cy,
                cells: copied(cells),
            },
            ServerMsg::AuthState { uid, claim, name, email } => ServerMsg::AuthState {
                uid: *uid,
                claim: *claim,
                name: name.clone(),
                email: email.clone(),
            },
            ServerMsg::ClaimResult { ok } => ServerMsg::ClaimResult { ok: *ok },
        }
    }
}

impl Clone for ClientMsg {
    fn clone(&self) -> (m: Self)
        ensures
            m@ == self@,
    {
        match self {
            ClientMsg::Subscribe(coords) => ClientMsg::Subscribe(copied(coords)),
            ClientMsg::Unsubscribe(coords) => ClientMsg::Unsubscribe(copied(coords)),
            ClientMsg::Edit(cells) => ClientMsg::Edit(copied(cells)),
            ClientMsg::ClaimCreate(c) => ClientMsg::ClaimCreate(*c),
            ClientMsg::ClaimDelete => ClientMsg::ClaimDelete,
        }
    }
}

// Numbers on the wire.

pub open spec fn i32_bytes(x: i32) -> Seq<u8> {
    codec::le_bytes(x as u32 as nat, 4)
}

pub open spec fn i64_bytes(x: i64) -> Seq<u8> {
    codec::le_bytes(x as u64 as nat, 8)
}

/// The number in the `n` bytes of `s` from `at` on.
pub open spec fn num_at(s: Seq<u8>, at: int, n: int) -> nat {
    codec::le_value(s.subrange(at, at + n))
}

pub open spec fn i32_at(s: Seq<u8>, at: int) -> i32 {
    num_at(s, at, 4) as u32 as i32
}

pub open spec fn i64_at(s: Seq<u8>, at: int) -> i64 {
    num_at(s, at, 8) as u64 as i64
}

// Items of lists.

pub open spec fn coord_bytes(c: ChunkCoord) -> Seq<u8> {
    i32_bytes(c.0) + i32_bytes(c.1)
}

pub open spec fn coord_from(s: Seq<u8>) -> ChunkCoord {
    (i32_at(s, 0), i32_at(s, 4))
}

/// An edited cell with its chunk.
pub open spec fn cell_bytes(c: EditCell) -> Seq<u8> {
    coord_bytes((c.cx, c.cy)) + local_bytes(c)
}

pub open spec fn cell_from(s: Seq<u8>) -> EditCell {
    EditCell { cx: i32_at(s, 0), cy: i32_at(s, 4), lx: s[8], ly: s[9], alive: s[10] != 0 }
}

/// An edited cell within its chunk.
pub open spec fn local_bytes(c: EditCell) -> Seq<u8> {
    seq![c.lx, c.ly, chunk::count(c.alive) as u8]
}

pub open spec fn local_from(cx: i32, cy: i32, s: Seq<u8>) -> EditCell {
    EditCell { cx, cy, lx: s[0], ly: s[1], alive: s[2] != 0 }
}

pub open spec fn region_bytes(r: Region) -> Seq<u8> {
    i64_bytes(r.x) + i64_bytes(r.y) + codec::le_bytes(r.w as nat, 4) + codec::le_bytes(
        r.h as nat,
        4,
    ) + seq![r.flags] + codec::le_bytes(r.owner as nat, 4)
}

pub open spec fn region_from(s: Seq<u8>) -> Region {
    Region {
        x: i64_at(s, 0),
        y: i64_at(s, 8),
        w: num_at(s, 16, 4) as u32,
        h: num_at(s, 20, 4) as u32,
        flags: s[24],
        owner: num_at(s, 25, 4) as u32,
    }
}

/// A list: its length in two bytes, then its items.
pub open spec fn list_bytes<T>(s: Seq<T>, f: spec_fn(T) -> Seq<u8>) -> Seq<u8> {
    codec::le_bytes(s.len(), 2) + codec::joined(s.len(), |k: int| f(s[k]))
}

/// The length of the list at `at`.
pub open spec fn list_len(s: Seq<u8>, at: int) -> nat {
    num_at(s, at, 2)
}

/// Whether the list at `at`, with items of `size` bytes, lies within `s`.
pub open spec fn has_list(s: Seq<u8>, at: int, size: nat) -> bool {
    s.len() >= at + 2 && s.len() >= at + 2 + list_len(s, at) * size
}

/// Item `k` of the list at `at`.
pub open spec fn list_item(s: Seq<u8>, at: int, k: int, size: nat) -> Seq<u8> {
    s.subrange(at + 2 + k * size, at + 2 + k * size + size)
}

/// The list at `at`.
pub open spec fn list_from<T>(
    s: Seq<u8>,
    at: int,
    size: nat,
    f: spec_fn(Seq<u8>) -> T,
) -> Seq<T> {
    Seq::new(list_len(s, at), |k: int| f(list_item(s, at, k, size)))
}

/// Whether both local coordinates lie within a chunk.
pub open spec fn in_chunk(c: EditCell) -> bool {
    c.lx < CHUNK_SIZE && c.ly < CHUNK_SIZE
}

/// The list of edited cells at `at`. A cell that lies outside its chunk is rejected even where
/// the list is cut off behind it.
pub open spec fn cells_from(
    s: Seq<u8>,
    at: int,
    size: nat,
    f: spec_fn(Seq<u8>) -> EditCell,
) -> Result<Seq<EditCell>, DecodeError> {
    if s.len() < at + 2 {
        Err(DecodeError::Truncated)
    } else if exists|k: int| #[trigger] stray(s, at, size, f, k) {
        Err(DecodeError::BadLocalCoord)
    } else if !has_list(s, at, size) {
        Err(DecodeError::Truncated)
    } else {
        Ok(list_from(s, at, size, f))
    }
}

/// Whether item `k` of the list at `at` is there in full and lies outside its chunk.
pub open spec fn stray(
    s: Seq<u8>,
    at: int,
    size: nat,
    f: spec_fn(Seq<u8>) -> EditCell,
    k: int,
) -> bool {
    &&& 0 <= k < list_len(s, at)
    &&& at + 2 + k * size + size <= s.len()
    &&& !in_chunk(f(list_item(s, at, k, size)))
}

/// What [`encode_client`] appends.
pub open spec fn client_bytes(m: ClientModel) -> Seq<u8> {
    match m {
        ClientModel::Subscribe(coords) => seq![TAG_SUBSCRIBE] + list_bytes(
            coords,
            |c: ChunkCoord| coord_bytes(c),
        ),
        ClientModel::Unsubscribe(coords) => seq![TAG_UNSUBSCRIBE] + list_bytes(
            coords,
            |c: ChunkCoord| coord_bytes(c),
        ),
        ClientModel::Edit(cells) => seq![TAG_EDIT] + list_bytes(
            cells,
            |c: EditCell| cell_bytes(c),
        ),
        ClientModel::ClaimCreate(c) => seq![TAG_CLAIM_CREATE] + coord_bytes(c),
        ClientModel::ClaimDelete => seq![TAG_CLAIM_DELETE],
    }
}

/// What [`decode_client`] reads.
pub open spec fn parse_client(s: Seq<u8>) -> Result<ClientModel, DecodeError> {
    if s.len() == 0 {
        Err(DecodeError::Empty)
    } else if s[0] == TAG_SUBSCRIBE || s[0] == TAG_UNSUBSCRIBE {
        if !has_list(s, 1, 8) {
            Err(DecodeError::Truncated)
        } else {
            let coords = list_from(s, 1, 8, |i: Seq<u8>| coord_from(i));
            if s[0] == TAG_SUBSCRIBE {
                Ok(ClientModel::Subscribe(coords))
            } else {
                Ok(ClientModel::Unsubscribe(coords))
            }
        }
    } else if s[0] == TAG_EDIT {
        match cells_from(s, 1, 11, |i: Seq<u8>| cell_from(i)) {
            Ok(cells) => Ok(ClientModel::Edit(cells)),
            Err(e) => Err(e),
        }
    } else if s[0] == TAG_CLAIM_CREATE {
        if s.len() < 9 {
            Err(DecodeError::Truncated)
        } else {
            Ok(ClientModel::ClaimCreate((i32_at(s, 1), i32_at(s, 5))))
        }
    } else if s[0] == TAG_CLAIM_DELETE {
        Ok(ClientModel::ClaimDelete)
    } else {
        Err(DecodeError::UnknownTag(s[0]))
    }
}

/// Whether a message fits the wire format: its list has fewer than 65536 items.
pub open spec fn client_fits(m: ClientModel) -> bool {
    match m {
        ClientModel::Subscribe(coords) => coords.len() <= 0xffff,
        ClientModel::Unsubscribe(coords) => coords.len() <= 0xffff,
        ClientModel::Edit(cells) => cells.len() <= 0xffff,
        _ => true,
    }
}

pub(crate) fn push_i32(out: &mut Vec<u8>, x: i32)
    ensures
        final(out)@ == old(out)@ + i32_bytes(x),
{
    codec::push_le(out, x as u32 as u64, 4);
}

fn push_i64(out: &mut Vec<u8>, x: i64)
    ensures
        final(out)@ == old(out)@ + i64_bytes(x),
{
    codec::push_le(out, x as u64, 8);
}

pub(crate) fn read_u32(buf: &[u8], at: usize) -> (v: u32)
    requires
        at + 4 <= buf@.len(),
    ensures
        v == num_at(buf@, at as int, 4),
{
    proof {
        codec::lemma_pow256_values();
    }
    codec::read_le(buf, at, 4) as u32
}

pub(crate) fn read_i32(buf: &[u8], at: usize) -> (v: i32)
    requires
        at + 4 <= buf@.len(),
    ensures
        v == i32_at(buf@, at as int),
{
    read_u32(buf, at) as i32
}

fn read_i64(buf: &[u8], at: usize) -> (v: i64)
    requires
        at + 8 <= buf@.len(),
    ensures
        v == i64_at(buf@, at as int),
{
    codec::read_le(buf, at, 8) as i64
}

fn read_u16(buf: &[u8], at: usize) -> (v: u16)
    requires
        at + 2 <= buf@.len(),
    ensures
        v == num_at(buf@, at as int, 2),
{
    proof {
        codec::lemma_pow256_values();
    }
    codec::read_le(buf, at, 2) as u16
}

pub(crate) fn push_coord(out: &mut Vec<u8>, c: ChunkCoord)
    ensures
        final(out)@ == old(out)@ + coord_bytes(c),
{
    let ghost start = out@;
    push_i32(out, c.0);
    push_i32(out, c.1);
    assert(out@ =~= start + coord_bytes(c));
}

pub(crate) fn push_local(out: &mut Vec<u8>, c: &EditCell)
    ensures
        final(out)@ == old(out)@ + local_bytes(*c),
{
    let ghost start = out@;
    out.push(c.lx);
    out.push(c.ly);
    out.push(chunk::flag(c.alive));
    assert(out@ =~= start + local_bytes(*c));
}

/// The list item at `k`, by its place in the buffer.
proof fn lemma_list_item(s: Seq<u8>, at: int, k: int, size: nat, from: int, len: int)
    requires
        0 <= from,
        0 <= len,
        from + len <= size,
        0 <= at,
        0 <= k,
        at + 2 + k * size + size <= s.len(),
        0 <= k * size,
    ensures
        num_at(list_item(s, at, k, size), from, len) == num_at(s, at + 2 + k * size + from, len),
{
    assert(list_item(s, at, k, size).subrange(from, from + len) =~= s.subrange(
        at + 2 + k * size + from,
        at + 2 + k * size + from + len,
    ));
}

fn write_coord_list(out: &mut Vec<u8>, coords: &Vec<(i32, i32)>)
    requires
        coords@.len() <= 0xffff,
    ensures
        final(out)@ == old(out)@ + list_bytes(coords@, |c: ChunkCoord| coord_bytes(c)),
{
    let ghost start = out@;
    let ghost f = |k: int| (|c: ChunkCoord| coord_bytes(c))(coords@[k]);
    codec::push_le(out, coords.len() as u64, 2);
    let ghost head = out@;
    let mut i: usize = 0;
    assert(head + codec::joined(0, f) =~= head);
    while i < coords.len()
        invariant
            i <= coords.len(),
            f == (|k: int| (|c: ChunkCoord| coord_bytes(c))(coords@[k])),
            out@ == head + codec::joined(i as nat, f),
        decreases coords.len() - i,
    {
        push_coord(out, coords[i]);
        assert(out@ =~= head + codec::joined((i + 1) as nat, f));
        i = i + 1;
    }
    assert(out@ =~= start + list_bytes(coords@, |c: ChunkCoord| coord_bytes(c)));
}

pub fn encode_client(msg: &ClientMsg, out: &mut Vec<u8>)
    requires
        client_fits(msg@),
    ensures
        final(out)@ == old(out)@ + client_bytes(msg@),
{
    let ghost start = out@;
    match msg {
        ClientMsg::Subscribe(coords) => {
            out.push(TAG_SUBSCRIBE);
            write_coord_list(out, coords);
        },
        ClientMsg::Unsubscribe(coords) => {
            out.push(TAG_UNSUBSCRIBE);
            write_coord_list(out, coords);
        },
        ClientMsg::Edit(cells) => {
            out.push(TAG_EDIT);
            codec::push_le(out, cells.len() as u64, 2);
            let ghost f = |k: int| (|c: EditCell| cell_bytes(c))(cells@[k]);
            let ghost head = out@;
            let mut i: usize = 0;
            assert(head + codec::joined(0, f) =~= head);
            while i < cells.len()
                invariant
                    i <= cells.len(),
                    f == (|k: int| (|c: EditCell| cell_bytes(c))(cells@[k])),
                    out@ == head + codec::joined(i as nat, f),
                decreases cells.len() - i,
            {
                let c = cells[i];
                push_coord(out, (c.cx, c.cy));
                push_local(out, &c);
                assert(out@ =~= head + codec::joined((i + 1) as nat, f));
                i = i + 1;
            }
        },
        ClientMsg::ClaimCreate(c) => {
            out.push(TAG_CLAIM_CREATE);
            push_coord(out, *c);
        },
        ClientMsg::ClaimDelete => {
            out.push(TAG_CLAIM_DELETE);
        },
    }
    assert(out@ =~= start + client_bytes(msg@));
}

/// The list of coordinates at `at`.
fn read_coord_list(buf: &[u8], at: usize) -> (r: Result<Vec<(i32, i32)>, DecodeError>)
    requires
        at <= 1,
    ensures
        match r {
            Ok(v) => has_list(buf@, at as int, 8) && v@ == list_from(
                buf@,
                at as int,
                8,
                |i: Seq<u8>| coord_from(i),
            ),
            Err(e) => !has_list(buf@, at as int, 8) && e == DecodeError::Truncated,
        },
{
    if buf.len() < at + 2 {
        return Err(DecodeError::Truncated);
    }
    let n = read_u16(buf, at) as usize;
    if buf.len() < at + 2 + n * 8 {
        return Err(DecodeError::Truncated);
    }
    let mut v: Vec<(i32, i32)> = Vec::with_capacity(n);
    let mut k: usize = 0;
    while k < n
        invariant
            k <= n <= 0xffff,
            at <= 1,
            n == list_len(buf@, at as int),
            at + 2 + n * 8 <= buf@.len(),
            v@.len() == k,
            forall|j: int|
                0 <= j < k ==> #[trigger] v@[j] == coord_from(list_item(buf@, at as int, j, 8)),
        decreases n - k,
    {
        let p = at + 2 + k * 8;
        let x = read_i32(buf, p);
        let y = read_i32(buf, p + 4);
        proof {
            lemma_list_item(buf@, at as int, k as int, 8, 0, 4);
            lemma_list_item(buf@, at as int, k as int, 8, 4, 4);
        }
        v.push((x, y));
        k = k + 1;
    }
    assert(v@ =~= list_from(buf@, at as int, 8, |i: Seq<u8>| coord_from(i)));
    Ok(v)
}

/// The list of edited cells at `at`, each with its chunk.
fn read_cell_list(buf: &[u8]) -> (r: Result<Vec<EditCell>, DecodeError>)
    ensures
        match r {
            Ok(v) => cells_from(buf@, 1, 11, |i: Seq<u8>| cell_from(i)) == Ok::<
                Seq<EditCell>,
                DecodeError,
            >(v@),
            Err(e) => cells_from(buf@, 1, 11, |i: Seq<u8>| cell_from(i)) == Err::<
                Seq<EditCell>,
                DecodeError,
            >(e),
        },
{
    let ghost f = |i: Seq<u8>| cell_from(i);
    if buf.len() < 3 {
        return Err(DecodeError::Truncated);
    }
    let n = read_u16(buf, 1) as usize;
    let mut v: Vec<EditCell> = Vec::new();
    let mut k: usize = 0;
    while k < n
        invariant
            k <= n <= 0xffff,
            f == (|i: Seq<u8>| cell_from(i)),
            n == list_len(buf@, 1),
            3 + k * 11 <= buf@.len(),
            v@.len() == k,
            forall|j: int| 0 <= j < k ==> #[trigger] v@[j] == f(list_item(buf@, 1, j, 11)),
            forall|j: int| 0 <= j < k ==> !#[trigger] stray(buf@, 1, 11, f, j),
        decreases n - k,
    {
        let p = 3 + k * 11;
        if buf.len() < p + 11 {
            proof {
                assert forall|j: int| !#[trigger] stray(buf@, 1, 11, f, j) by {
                    if j >= k {
                        assert(j * 11 >= k * 11);
                    }
                }
            }
            return Err(DecodeError::Truncated);
        }
        let cx = read_i32(buf, p);
        let cy = read_i32(buf, p + 4);
        let lx = buf[p + 8];
        let ly = buf[p + 9];
        let alive = buf[p + 10] != 0;
        let c = EditCell { cx, cy, lx, ly, alive };
        proof {
            lemma_list_item(buf@, 1, k as int, 11, 0, 4);
            lemma_list_item(buf@, 1, k as int, 11, 4, 4);
            assert(c == f(list_item(buf@, 1, k as int, 11)));
        }
        if (lx as usize) >= CHUNK_SIZE || (ly as usize) >= CHUNK_SIZE {
            assert(stray(buf@, 1, 11, f, k as int));
            return Err(DecodeError::BadLocalCoord);
        }
        assert(!stray(buf@, 1, 11, f, k as int));
        v.push(c);
        k = k + 1;
    }
    proof {
        assert forall|j: int| !#[trigger] stray(buf@, 1, 11, f, j) by {}
        assert(v@ =~= list_from(buf@, 1, 11, f));
    }
    Ok(v)
}

pub fn decode_client(buf: &[u8]) -> (r: Result<ClientMsg, DecodeError>)
    ensures
        match r {
            Ok(m) => parse_client(buf@) == Ok::<ClientModel, DecodeError>(m@),
            Err(e) => parse_client(buf@) == Err::<ClientModel, DecodeError>(e),
        },
{
    if buf.len() == 0 {
        return Err(DecodeError::Empty);
    }
    let tag = buf[0];
    if tag == TAG_SUBSCRIBE {
        match read_coord_list(buf, 1) {
            Ok(coords) => Ok(ClientMsg::Subscribe(coords)),
            Err(e) => Err(e),
        }
    } else if tag == TAG_UNSUBSCRIBE {
        match read_coord_list(buf, 1) {
            Ok(coords) => Ok(ClientMsg::Unsubscribe(coords)),
            Err(e) => Err(e),
        }
    } else if tag == TAG_EDIT {
        match read_cell_list(buf) {
            Ok(cells) => Ok(ClientMsg::Edit(cells)),
            Err(e) => Err(e),
        }
    } else if tag == TAG_CLAIM_CREATE {
        if buf.len() < 9 {
            return Err(DecodeError::Truncated);
        }
        Ok(ClientMsg::ClaimCreate((read_i32(buf, 1), read_i32(buf, 5))))
    } else if tag == TAG_CLAIM_DELETE {
        Ok(ClientMsg::ClaimDelete)
    } else {
        Err(DecodeError::UnknownTag(tag))
    }
}

/// A text: its length in bytes, then its bytes.
pub open spec fn text_bytes(s: Seq<char>) -> Seq<u8> {
    let b = vstd::utf8::encode_utf8(s);
    codec::le_bytes(b.len(), 2) + b
}

/// The bytes of a chunk message behind its tag.
pub open spec fn payload_bytes(cx: i32, cy: i32, tick: u64, bits: Seq<u8>) -> Seq<u8> {
    i32_bytes(cx) + i32_bytes(cy) + codec::le_bytes(tick as nat, 8) + bits
}

/// What [`encode_server`] appends.
pub open spec fn server_bytes(m: ServerModel) -> Seq<u8> {
    match m {
        ServerModel::Hello { tick, chunk_size } => seq![TAG_HELLO] + codec::le_bytes(
            tick as nat,
            8,
        ) + seq![chunk_size],
        ServerModel::Regions { regions } => seq![TAG_REGIONS] + list_bytes(
            regions,
            |r: Region| region_bytes(r),
        ),
        ServerModel::ChunkState { cx, cy, tick, bits } => seq![TAG_CHUNK_STATE] + payload_bytes(
            cx,
            cy,
            tick,
            bits,
        ),
        ServerModel::ChunkDelta { cx, cy, tick, bits } => seq![TAG_CHUNK_DELTA] + payload_bytes(
            cx,
            cy,
            tick,
            bits,
        ),
        ServerModel::Reaped { cx, cy } => seq![TAG_REAPED] + i32_bytes(cx) + i32_bytes(cy),
        ServerModel::Stats { tick, live_chunks, tick_rate_hz, tick_utilization } => seq![TAG_STATS]
            + codec::le_bytes(tick as nat, 8) + codec::le_bytes(live_chunks as nat, 4)
            + codec::le_bytes(tick_rate_hz as nat, 4) + codec::le_bytes(tick_utilization as nat, 4),
        ServerModel::Sync { tick } => seq![TAG_SYNC] + codec::le_bytes(tick as nat, 8),
        ServerModel::EditApplied { cx, cy, cells } => seq![TAG_EDIT_APPLIED] + i32_bytes(cx)
            + i32_bytes(cy) + list_bytes(cells, |c: EditCell| local_bytes(c)),
        ServerModel::AuthState { uid, claim, name, email } => {
            let c: ChunkCoord = match claim {
                Some(c) => c,
                None => (0, 0),
            };
            seq![TAG_AUTH_STATE] + codec::le_bytes(uid as nat, 4) + seq![
                chunk::count(claim is Some) as u8,
            ] + coord_bytes(c) + text_bytes(name) + text_bytes(email)
        },
        ServerModel::ClaimResult { ok } => seq![TAG_CLAIM_RESULT, chunk::count(ok) as u8],
    }
}

/// Whether a message fits the wire format: its lists and texts are shorter than 65536.
pub open spec fn server_fits(m: ServerModel) -> bool {
    match m {
        ServerModel::Regions { regions } => regions.len() <= 0xffff,
        ServerModel::EditApplied { cells, .. } => cells.len() <= 0xffff,
        ServerModel::AuthState { name, email, .. } => vstd::utf8::encode_utf8(name).len() <= 0xffff
            && vstd::utf8::encode_utf8(email).len() <= 0xffff,
        _ => true,
    }
}

/// Whether the texts of an auth state message are there in full and are texts.
pub open spec fn has_texts(s: Seq<u8>) -> bool {
    let name = num_at(s, 14, 2) as int;
    let email = num_at(s, 16 + name, 2) as int;
    &&& s.len() >= 16
    &&& s.len() >= 18 + name
    &&& s.len() >= 18 + name + email
    &&& vstd::utf8::valid_utf8(s.subrange(16, 16 + name))
    &&& vstd::utf8::valid_utf8(s.subrange(18 + name, 18 + name + email))
}

/// What [`decode_server`] reads.
pub open spec fn parse_server(s: Seq<u8>) -> Result<ServerModel, DecodeError> {
    if s.len() == 0 {
        Err(DecodeError::Empty)
    } else if s[0] == TAG_HELLO {
        if s.len() < 10 {
            Err(DecodeError::Truncated)
        } else {
            Ok(ServerModel::Hello { tick: num_at(s, 1, 8) as u64, chunk_size: s[9] })
        }
    } else if s[0] == TAG_CHUNK_STATE || s[0] == TAG_CHUNK_DELTA {
        if s.len() < 17 + BITS_BYTES {
            Err(DecodeError::Truncated)
        } else {
            let cx = i32_at(s, 1);
            let cy = i32_at(s, 5);
            let tick = num_at(s, 9, 8) as u64;
            let bits = s.subrange(17, 17 + BITS_BYTES);
            if s[0] == TAG_CHUNK_STATE {
                Ok(ServerModel::ChunkState { cx, cy, tick, bits })
            } else {
                Ok(ServerModel::ChunkDelta { cx, cy, tick, bits })
            }
        }
    } else if s[0] == TAG_REGIONS {
        if !has_list(s, 1, 29) {
            Err(DecodeError::Truncated)
        } else {
            Ok(ServerModel::Regions { regions: list_from(s, 1, 29, |i: Seq<u8>| region_from(i)) })
        }
    } else if s[0] == TAG_REAPED {
        if s.len() < 9 {
            Err(DecodeError::Truncated)
        } else {
            Ok(ServerModel::Reaped { cx: i32_at(s, 1), cy: i32_at(s, 5) })
        }
    } else if s[0] == TAG_STATS {
        if s.len() < 21 {
            Err(DecodeError::Truncated)
        } else {
            Ok(
                ServerModel::Stats {
                    tick: num_at(s, 1, 8) as u64,
                    live_chunks: num_at(s, 9, 4) as u32,
                    tick_rate_hz: num_at(s, 13, 4) as u32,
                    tick_utilization: num_at(s, 17, 4) as u32,
                },
            )
        }
    } else if s[0] == TAG_SYNC {
        if s.len() < 9 {
            Err(DecodeError::Truncated)
        } else {
            Ok(ServerModel::Sync { tick: num_at(s, 1, 8) as u64 })
        }
    } else if s[0] == TAG_EDIT_APPLIED {
        let cx = i32_at(s, 1);
        let cy = i32_at(s, 5);
        match cells_from(s, 9, 3, |i: Seq<u8>| local_from(cx, cy, i)) {
            Ok(cells) => Ok(ServerModel::EditApplied { cx, cy, cells }),
            Err(e) => Err(e),
        }
    } else if s[0] == TAG_AUTH_STATE {
        if !has_texts(s) {
            Err(DecodeError::Truncated)
        } else {
            let name = num_at(s, 14, 2) as int;
            let email = num_at(s, 16 + name, 2) as int;
            Ok(
                ServerModel::AuthState {
                    uid: num_at(s, 1, 4) as u32,
                    claim: if s[5] != 0 {
                        Some((i32_at(s, 6), i32_at(s, 10)))
                    } else {
                        None
                    },
                    name: vstd::utf8::decode_utf8(s.subrange(16, 16 + name)),
                    email: vstd::utf8::decode_utf8(s.subrange(18 + name, 18 + name + email)),
                },
            )
        }
    } else if s[0] == TAG_CLAIM_RESULT {
        if s.len() < 2 {
            Err(DecodeError::Truncated)
        } else {
            Ok(ServerModel::ClaimResult { ok: s[1] != 0 })
        }
    } else {
        Err(DecodeError::UnknownTag(s[0]))
    }
}

/// [`String::from_utf8`] succeeds exactly on valid UTF-8, and gives the characters that the
/// bytes encode.
#[verifier::external_body]
fn string_from_utf8(bytes: Vec<u8>) -> (r: Option<String>)
    ensures
        match r {
            Some(s) => vstd::utf8::valid_utf8(bytes@) && s@ == vstd::utf8::decode_utf8(bytes@),
            None => !vstd::utf8::valid_utf8(bytes@),
        },
{
    String::from_utf8(bytes).ok()
}

/// [`Arc::from`] on a `Vec` makes a shared slice of the same items.
#[verifier::external_body]
pub(crate) fn share_regions(v: Vec<Region>) -> (r: Arc<[Region]>)
    ensures
        r@ == v@,
{
    Arc::from(v)
}

/// Append all bytes of `s`.
pub fn push_all(out: &mut Vec<u8>, s: &[u8])
    ensures
        final(out)@ == old(out)@ + s@,
{
    let ghost start = out@;
    let mut i: usize = 0;
    assert(start + s@.take(0) =~= start);
    while i < s.len()
        invariant
            i <= s@.len(),
            out@ == start + s@.take(i as int),
        decreases s@.len() - i,
    {
        out.push(s[i]);
        assert(start + s@.take(i + 1) =~= (start + s@.take(i as int)).push(s@[i as int]));
        i = i + 1;
    }
    assert(s@.take(i as int) =~= s@);
}

/// The bytes from `at` on, `n` of them.
fn copy_range(buf: &[u8], at: usize, n: usize) -> (v: Vec<u8>)
    requires
        at + n <= buf@.len(),
    ensures
        v@ == buf@.subrange(at as int, at + n),
{
    let total = buf.len();
    let mut v: Vec<u8> = Vec::with_capacity(n);
    let mut i: usize = 0;
    while i < n
        invariant
            i <= n,
            at + n <= buf@.len(),
            total == buf@.len(),
            v@ =~= buf@.subrange(at as int, at + i),
        decreases n - i,
    {
        v.push(buf[at + i]);
        i = i + 1;
    }
    v
}

/// The chunk bitset from `at` on.
pub fn copy_bits(buf: &[u8], at: usize) -> (bits: [u8; BITS_BYTES])
    requires
        at + BITS_BYTES <= buf@.len(),
    ensures
        bits@ == buf@.subrange(at as int, at + BITS_BYTES),
{
    let total = buf.len();
    let mut bits = [0u8;BITS_BYTES];
    let mut i: usize = 0;
    while i < BITS_BYTES
        invariant
            i <= BITS_BYTES,
            at + BITS_BYTES <= buf@.len(),
            total == buf@.len(),
            forall|j: int| 0 <= j < i ==> #[trigger] bits[j] == buf@[at + j],
        decreases BITS_BYTES - i,
    {
        bits[i] = buf[at + i];
        i = i + 1;
    }
    assert(bits@ =~= buf@.subrange(at as int, at + BITS_BYTES));
    bits
}

fn push_text(out: &mut Vec<u8>, s: &String)
    requires
        vstd::utf8::encode_utf8(s@).len() <= 0xffff,
    ensures
        final(out)@ == old(out)@ + text_bytes(s@),
{
    let ghost start = out@;
    let b = s.as_str().as_bytes();
    codec::push_le(out, b.len() as u64, 2);
    push_all(out, b);
    assert(out@ =~= start + text_bytes(s@));
}

fn push_payload(out: &mut Vec<u8>, cx: i32, cy: i32, tick: u64, bits: &[u8; BITS_BYTES])
    ensures
        final(out)@ == old(out)@ + payload_bytes(cx, cy, tick, bits@),
{
    let ghost start = out@;
    push_i32(out, cx);
    push_i32(out, cy);
    codec::push_le(out, tick, 8);
    push_all(out, bits.as_slice());
    assert(out@ =~= start + payload_bytes(cx, cy, tick, bits@));
}

fn push_region(out: &mut Vec<u8>, r: &Region)
    ensures
        final(out)@ == old(out)@ + region_bytes(*r),
{
    let ghost start = out@;
    push_i64(out, r.x);
    push_i64(out, r.y);
    codec::push_le(out, r.w as u64, 4);
    codec::push_le(out, r.h as u64, 4);
    out.push(r.flags);
    codec::push_le(out, r.owner as u64, 4);
    assert(out@ =~= start + region_bytes(*r));
}

pub fn encode_server(msg: &ServerMsg, out: &mut Vec<u8>)
    requires
        server_fits(msg@),
    ensures
        final(out)@ == old(out)@ + server_bytes(msg@),
{
    let ghost start = out@;
    match msg {
        ServerMsg::Hello { tick, chunk_size } => {
            out.push(TAG_HELLO);
            codec::push_le(out, *tick, 8);
            out.push(*chunk_size);
        },
        ServerMsg::ChunkState { cx, cy, tick, bits } => {
            out.push(TAG_CHUNK_STATE);
            push_payload(out, *cx, *cy, *tick, bits);
        },
        ServerMsg::ChunkDelta { cx, cy, tick, bits } => {
            out.push(TAG_CHUNK_DELTA);
            push_payload(out, *cx, *cy, *tick, bits);
        },
        ServerMsg::Regions { regions } => {
            out.push(TAG_REGIONS);
            let rs: &[Region] = &**regions;
            codec::push_le(out, rs.len() as u64, 2);
            let ghost f = |k: int| (|r: Region| region_bytes(r))(rs@[k]);
            let ghost head = out@;
            let mut i: usize = 0;
            assert(head + codec::joined(0, f) =~= head);
            while i < rs.len()
                invariant
                    i <= rs@.len(),
                    f == (|k: int| (|r: Region| region_bytes(r))(rs@[k])),
                    out@ == head + codec::joined(i as nat, f),
                decreases rs@.len() - i,
            {
                push_region(out, &rs[i]);
                assert(out@ =~= head + codec::joined((i + 1) as nat, f));
                i = i + 1;
            }
        },
        ServerMsg::Reaped { cx, cy } => {
            out.push(TAG_REAPED);
            push_i32(out, *cx);
            push_i32(out, *cy);
        },
        ServerMsg::Stats { tick, live_chunks, tick_rate_hz, tick_utilization } => {
            out.push(TAG_STATS);
            codec::push_le(out, *tick, 8);
            codec::push_le(out, *live_chunks as u64, 4);
            codec::push_le(out, *tick_rate_hz as u64, 4);
            codec::push_le(out, *tick_utilization as u64, 4);
        },
        ServerMsg::Sync { tick } => {
            out.push(TAG_SYNC);
            codec::push_le(out, *tick, 8);
        },
        ServerMsg::EditApplied { cx, cy, cells } => {
            out.push(TAG_EDIT_APPLIED);
            push_i32(out, *cx);
            push_i32(out, *cy);
            codec::push_le(out, cells.len() as u64, 2);
            let ghost f = |k: int| (|c: EditCell| local_bytes(c))(cells@[k]);
            let ghost head = out@;
            let mut i: usize = 0;
            assert(head + codec::joined(0, f) =~= head);
            while i < cells.len()
                invariant
                    i <= cells.len(),
                    f == (|k: int| (|c: EditCell| local_bytes(c))(cells@[k])),
                    out@ == head + codec::joined(i as nat, f),
                decreases cells.len() - i,
            {
                push_local(out, &cells[i]);
                assert(out@ =~= head + codec::joined((i + 1) as nat, f));
                i = i + 1;
            }
        },
        ServerMsg::AuthState { uid, claim, name, email } => {
            out.push(TAG_AUTH_STATE);
            codec::push_le(out, *uid as u64, 4);
            match claim {
                Some(c) => {
                    out.push(1u8);
                    push_coord(out, *c);
                },
                None => {
                    out.push(0u8);
                    push_coord(out, (0, 0));
                },
            }
            push_text(out, name);
            push_text(out, email);
        },
        ServerMsg::ClaimResult { ok } => {
            out.push(TAG_CLAIM_RESULT);
            out.push(chunk::flag(*ok));
        },
    }
    assert(out@ =~= start + server_bytes(msg@));
}

/// The list of edited cells of chunk `(cx, cy)` behind an edit message's coordinates.
fn read_local_list(buf: &[u8], cx: i32, cy: i32) -> (r: Result<Vec<EditCell>, DecodeError>)
    ensures
        match r {
            Ok(v) => cells_from(buf@, 9, 3, |i: Seq<u8>| local_from(cx, cy, i)) == Ok::<
                Seq<EditCell>,
                DecodeError,
            >(v@),
            Err(e) => cells_from(buf@, 9, 3, |i: Seq<u8>| local_from(cx, cy, i)) == Err::<
                Seq<EditCell>,
                DecodeError,
            >(e),
        },
{
    let ghost f = |i: Seq<u8>| local_from(cx, cy, i);
    if buf.len() < 11 {
        return Err(DecodeError::Truncated);
    }
    let n = read_u16(buf, 9) as usize;
    let mut v: Vec<EditCell> = Vec::new();
    let mut k: usize = 0;
    while k < n
        invariant
            k <= n <= 0xffff,
            f == (|i: Seq<u8>| local_from(cx, cy, i)),
            n == list_len(buf@, 9),
            11 + k * 3 <= buf@.len(),
            v@.len() == k,
            forall|j: int| 0 <= j < k ==> #[trigger] v@[j] == f(list_item(buf@, 9, j, 3)),
            forall|j: int| 0 <= j < k ==> !#[trigger] stray(buf@, 9, 3, f, j),
        decreases n - k,
    {
        let p = 11 + k * 3;
        if buf.len() < p + 3 {
            proof {
                assert forall|j: int| !#[trigger] stray(buf@, 9, 3, f, j) by {
                    if j >= k {
                        assert(j * 3 >= k * 3);
                    }
                }
            }
            return Err(DecodeError::Truncated);
        }
        let lx = buf[p];
        let ly = buf[p + 1];
        let alive = buf[p + 2] != 0;
        let c = EditCell { cx, cy, lx, ly, alive };
        assert(c == f(list_item(buf@, 9, k as int, 3)));
        if (lx as usize) >= CHUNK_SIZE || (ly as usize) >= CHUNK_SIZE {
            assert(stray(buf@, 9, 3, f, k as int));
            return Err(DecodeError::BadLocalCoord);
        }
        assert(!stray(buf@, 9, 3, f, k as int));
        v.push(c);
        k = k + 1;
    }
    proof {
        assert forall|j: int| !#[trigger] stray(buf@, 9, 3, f, j) by {}
        assert(v@ =~= list_from(buf@, 9, 3, f));
    }
    Ok(v)
}

/// The region table behind the tag.
fn read_regions(buf: &[u8]) -> (r: Result<Vec<Region>, DecodeError>)
    ensures
        match r {
            Ok(v) => has_list(buf@, 1, 29) && v@ == list_from(
                buf@,
                1,
                29,
                |i: Seq<u8>| region_from(i),
            ),
            Err(e) => !has_list(buf@, 1, 29) && e == DecodeError::Truncated,
        },
{
    if buf.len() < 3 {
        return Err(DecodeError::Truncated);
    }
    let n = read_u16(buf, 1) as usize;
    if buf.len() < 3 + n * 29 {
        return Err(DecodeError::Truncated);
    }
    let mut v: Vec<Region> = Vec::with_capacity(n);
    let mut k: usize = 0;
    while k < n
        invariant
            k <= n <= 0xffff,
            n == list_len(buf@, 1),
            3 + n * 29 <= buf@.len(),
            v@.len() == k,
            forall|j: int| 0 <= j < k ==> #[trigger] v@[j] == region_from(list_item(buf@, 1, j, 29)),
        decreases n - k,
    {
        let p = 3 + k * 29;
        let r = Region {
            x: read_i64(buf, p),
            y: read_i64(buf, p + 8),
            w: read_u32(buf, p + 16),
            h: read_u32(buf, p + 20),
            flags: buf[p + 24],
            owner: read_u32(buf, p + 25),
        };
        proof {
            lemma_list_item(buf@, 1, k as int, 29, 0, 8);
            lemma_list_item(buf@, 1, k as int, 29, 8, 8);
            lemma_list_item(buf@, 1, k as int, 29, 16, 4);
            lemma_list_item(buf@, 1, k as int, 29, 20, 4);
            lemma_list_item(buf@, 1, k as int, 29, 25, 4);
            assert(r == region_from(list_item(buf@, 1, k as int, 29)));
        }
        v.push(r);
        k = k + 1;
    }
    assert(v@ =~= list_from(buf@, 1, 29, |i: Seq<u8>| region_from(i)));
    Ok(v)
}

/// The auth state behind the tag.
fn read_auth_state(buf: &[u8]) -> (r: Result<ServerMsg, DecodeError>)
    requires
        buf@.len() > 0,
        buf@[0] == TAG_AUTH_STATE,
    ensures
        match r {
            Ok(m) => parse_server(buf@) == Ok::<ServerModel, DecodeError>(m@),
            Err(e) => parse_server(buf@) == Err::<ServerModel, DecodeError>(e),
        },
{
    if buf.len() < 16 {
        return Err(DecodeError::Truncated);
    }
    let uid = read_u32(buf, 1);
    let has_claim = buf[5] != 0;
    let cx = read_i32(buf, 6);
    let cy = read_i32(buf, 10);
    let claim: Option<ChunkCoord> = if has_claim {
        Some((cx, cy))
    } else {
        None
    };
    let nb = read_u16(buf, 14) as usize;
    if buf.len() < 18 + nb {
        return Err(DecodeError::Truncated);
    }
    let name = match string_from_utf8(copy_range(buf, 16, nb)) {
        Some(s) => s,
        None => {
            return Err(DecodeError::Truncated);
        },
    };
    let eb = read_u16(buf, 16 + nb) as usize;
    if buf.len() < 18 + nb + eb {
        return Err(DecodeError::Truncated);
    }
    let email = match string_from_utf8(copy_range(buf, 18 + nb, eb)) {
        Some(s) => s,
        None => {
            return Err(DecodeError::Truncated);
        },
    };
    Ok(ServerMsg::AuthState { uid, claim, name, email })
}

pub fn decode_server(buf: &[u8]) -> (r: Result<ServerMsg, DecodeError>)
    ensures
        match r {
            Ok(m) => parse_server(buf@) == Ok::<ServerModel, DecodeError>(m@),
            Err(e) => parse_server(buf@) == Err::<ServerModel, DecodeError>(e),
        },
{
    let n = buf.len();
    if n == 0 {
        return Err(DecodeError::Empty);
    }
    let tag = buf[0];
    if tag == TAG_HELLO {
        if n < 10 {
            return Err(DecodeError::Truncated);
        }
        Ok(ServerMsg::Hello { tick: codec::read_le(buf, 1, 8), chunk_size: buf[9] })
    } else if tag == TAG_CHUNK_STATE || tag == TAG_CHUNK_DELTA {
        if n < 17 + BITS_BYTES {
            return Err(DecodeError::Truncated);
        }
        let cx = read_i32(buf, 1);
        let cy = read_i32(buf, 5);
        let tick = codec::read_le(buf, 9, 8);
        let bits = copy_bits(buf, 17);
        if tag == TAG_CHUNK_STATE {
            Ok(ServerMsg::ChunkState { cx, cy, tick, bits })
        } else {
            Ok(ServerMsg::ChunkDelta { cx, cy, tick, bits })
        }
    } else if tag == TAG_REGIONS {
        match read_regions(buf) {
            Ok(v) => Ok(ServerMsg::Regions { regions: share_regions(v) }),
            Err(e) => Err(e),
        }
    } else if tag == TAG_REAPED {
        if n < 9 {
            return Err(DecodeError::Truncated);
        }
        Ok(ServerMsg::Reaped { cx: read_i32(buf, 1), cy: read_i32(buf, 5) })
    } else if tag == TAG_STATS {
        if n < 21 {
            return Err(DecodeError::Truncated);
        }
        Ok(
            ServerMsg::Stats {
                tick: codec::read_le(buf, 1, 8),
                live_chunks: read_u32(buf, 9),
                tick_rate_hz: read_u32(buf, 13),
                tick_utilization: read_u32(buf, 17),
            },
        )
    } else if tag == TAG_SYNC {
        if n < 9 {
            return Err(DecodeError::Truncated);
        }
        Ok(ServerMsg::Sync { tick: codec::read_le(buf, 1, 8) })
    } else if tag == TAG_EDIT_APPLIED {
        if n < 11 {
            return Err(DecodeError::Truncated);
        }
        let cx = read_i32(buf, 1);
        let cy = read_i32(buf, 5);
        match read_local_list(buf, cx, cy) {
            Ok(cells) => Ok(ServerMsg::EditApplied { cx, cy, cells }),
            Err(e) => Err(e),
        }
    } else if tag == TAG_AUTH_STATE {
        read_auth_state(buf)
    } else if tag == TAG_CLAIM_RESULT {
        if n < 2 {
            return Err(DecodeError::Truncated);
        }
        Ok(ServerMsg::ClaimResult { ok: buf[1] != 0 })
    } else {
        Err(DecodeError::UnknownTag(tag))
    }
}

/// A number is read back from where it was written.
pub proof fn lemma_num_at(a: Seq<u8>, v: nat, n: nat, b: Seq<u8>)
    requires
        v < codec::pow256(n),
    ensures
        num_at(a + codec::le_bytes(v, n) + b, a.len() as int, n as int) == v,
        codec::le_bytes(v, n).len() == n,
{
    codec::lemma_le_roundtrip(v, n);
    let s = a + codec::le_bytes(v, n) + b;
    assert(s.subrange(a.len() as int, a.len() as int + n as int) =~= codec::le_bytes(v, n));
}

pub proof fn lemma_i32_at(a: Seq<u8>, x: i32, b: Seq<u8>)
    ensures
        i32_at(a + i32_bytes(x) + b, a.len() as int) == x,
        i32_bytes(x).len() == 4,
{
    codec::lemma_pow256_values();
    codec::lemma_signed(x, 0);
    lemma_num_at(a, x as u32 as nat, 4, b);
}

proof fn lemma_i64_at(a: Seq<u8>, x: i64, b: Seq<u8>)
    ensures
        i64_at(a + i64_bytes(x) + b, a.len() as int) == x,
        i64_bytes(x).len() == 8,
{
    codec::lemma_pow256_values();
    codec::lemma_signed(0, x);
    lemma_num_at(a, x as u64 as nat, 8, b);
}

proof fn lemma_coord_roundtrip(c: ChunkCoord)
    ensures
        coord_bytes(c).len() == 8,
        coord_from(coord_bytes(c)) == c,
{
    let e = Seq::<u8>::empty();
    lemma_i32_at(e, c.0, i32_bytes(c.1));
    lemma_i32_at(i32_bytes(c.0), c.1, e);
    assert(e + i32_bytes(c.0) + i32_bytes(c.1) =~= coord_bytes(c));
    assert(i32_bytes(c.0) + i32_bytes(c.1) + e =~= coord_bytes(c));
}

pub proof fn lemma_cell_roundtrip(c: EditCell)
    ensures
        cell_bytes(c).len() == 11,
        cell_from(cell_bytes(c)) == c,
{
    let e = Seq::<u8>::empty();
    let l = local_bytes(c);
    lemma_i32_at(e, c.cx, i32_bytes(c.cy) + l);
    lemma_i32_at(i32_bytes(c.cx), c.cy, l);
    assert(e + i32_bytes(c.cx) + (i32_bytes(c.cy) + l) =~= cell_bytes(c));
    assert(i32_bytes(c.cx) + i32_bytes(c.cy) + l =~= cell_bytes(c));
}

proof fn lemma_region_roundtrip(r: Region)
    ensures
        region_bytes(r).len() == 29,
        region_from(region_bytes(r)) == r,
{
    let e = Seq::<u8>::empty();
    let x = i64_bytes(r.x);
    let y = i64_bytes(r.y);
    let w = codec::le_bytes(r.w as nat, 4);
    let h = codec::le_bytes(r.h as nat, 4);
    let f = seq![r.flags];
    let o = codec::le_bytes(r.owner as nat, 4);
    let s = region_bytes(r);
    codec::lemma_pow256_values();
    lemma_i64_at(e, r.x, y + w + h + f + o);
    lemma_i64_at(x, r.y, w + h + f + o);
    lemma_num_at(x + y, r.w as nat, 4, h + f + o);
    lemma_num_at(x + y + w, r.h as nat, 4, f + o);
    lemma_num_at(x + y + w + h + f, r.owner as nat, 4, e);
    assert(e + x + (y + w + h + f + o) =~= s);
    assert(x + y + (w + h + f + o) =~= s);
    assert(x + y + w + (h + f + o) =~= s);
    assert(x + y + w + h + (f + o) =~= s);
    assert(x + y + w + h + f + o + e =~= s);
    assert(s[24] == r.flags);
}

/// A list is read back from where it was written.
proof fn lemma_list_roundtrip<T>(
    a: Seq<u8>,
    items: Seq<T>,
    f: spec_fn(T) -> Seq<u8>,
    g: spec_fn(Seq<u8>) -> T,
    size: nat,
)
    requires
        items.len() <= 0xffff,
        forall|k: int|
            0 <= k < items.len() ==> (#[trigger] f(items[k])).len() == size && g(f(items[k]))
                == items[k],
    ensures
        ({
            let s = a + list_bytes(items, f);
            &&& list_len(s, a.len() as int) == items.len()
            &&& has_list(s, a.len() as int, size)
            &&& list_from(s, a.len() as int, size, g) == items
            &&& forall|k: int|
                0 <= k < items.len() ==> g(
                    #[trigger] list_item(s, a.len() as int, k, size),
                ) == items[k]
        }),
{
    let n = items.len();
    let h = |k: int| f(items[k]);
    let body = codec::joined(n, h);
    let at = a.len() as int;
    let s = a + list_bytes(items, f);
    codec::lemma_pow256_values();
    lemma_num_at(a, n, 2, body);
    assert(a + codec::le_bytes(n, 2) + body =~= s);
    assert forall|k: int| 0 <= k < n implies (#[trigger] h(k)).len() == size by {
        assert(f(items[k]).len() == size);
    }
    codec::lemma_joined(n, h, size);
    assert forall|k: int| 0 <= k < n implies g(#[trigger] list_item(s, at, k, size)) == items[k] by {
        codec::lemma_item_bounds(n, k, size);
        assert(codec::item(body, k, size) == h(k));
        assert(list_item(s, at, k, size) =~= codec::item(body, k, size));
        assert(f(items[k]).len() == size);
    }
    assert(list_from(s, at, size, g) =~= items);
}

/// What the server reads of a client message is what the client said.
pub proof fn law_client_roundtrip(m: ClientModel)
    requires
        client_fits(m),
        m matches ClientModel::Edit(cells) ==> forall|k: int|
            0 <= k < cells.len() ==> in_chunk(#[trigger] cells[k]),
    ensures
        parse_client(client_bytes(m)) == Ok::<ClientModel, DecodeError>(m),
{
    let s = client_bytes(m);
    match m {
        ClientModel::Subscribe(coords) => {
            let f = |c: ChunkCoord| coord_bytes(c);
            let g = |i: Seq<u8>| coord_from(i);
            assert forall|k: int| 0 <= k < coords.len() implies (#[trigger] f(coords[k])).len() == 8
                && g(f(coords[k])) == coords[k] by {
                lemma_coord_roundtrip(coords[k]);
            }
            lemma_list_roundtrip(seq![TAG_SUBSCRIBE], coords, f, g, 8);
        },
        ClientModel::Unsubscribe(coords) => {
            let f = |c: ChunkCoord| coord_bytes(c);
            let g = |i: Seq<u8>| coord_from(i);
            assert forall|k: int| 0 <= k < coords.len() implies (#[trigger] f(coords[k])).len() == 8
                && g(f(coords[k])) == coords[k] by {
                lemma_coord_roundtrip(coords[k]);
            }
            lemma_list_roundtrip(seq![TAG_UNSUBSCRIBE], coords, f, g, 8);
        },
        ClientModel::Edit(cells) => {
            let f = |c: EditCell| cell_bytes(c);
            let g = |i: Seq<u8>| cell_from(i);
            assert forall|k: int| 0 <= k < cells.len() implies (#[trigger] f(cells[k])).len() == 11
                && g(f(cells[k])) == cells[k] by {
                lemma_cell_roundtrip(cells[k]);
            }
            lemma_list_roundtrip(seq![TAG_EDIT], cells, f, g, 11);
            assert forall|k: int| !#[trigger] stray(s, 1, 11, g, k) by {
                if 0 <= k < cells.len() {
                    assert(g(list_item(s, 1, k, 11)) == cells[k]);
                }
            }
        },
        ClientModel::ClaimCreate(c) => {
            let t = seq![TAG_CLAIM_CREATE];
            lemma_i32_at(t, c.0, i32_bytes(c.1));
            lemma_i32_at(t + i32_bytes(c.0), c.1, Seq::empty());
            assert(t + i32_bytes(c.0) + i32_bytes(c.1) =~= s);
            assert(t + i32_bytes(c.0) + i32_bytes(c.1) + Seq::<u8>::empty() =~= s);
        },
        ClientModel::ClaimDelete => {},
    }
}

proof fn lemma_payload_roundtrip(t: Seq<u8>, cx: i32, cy: i32, tick: u64, bits: Seq<u8>)
    requires
        t.len() == 1,
        bits.len() == BITS_BYTES,
    ensures
        ({
            let s = t + payload_bytes(cx, cy, tick, bits);
            &&& s.len() == 17 + BITS_BYTES
            &&& i32_at(s, 1) == cx
            &&& i32_at(s, 5) == cy
            &&& num_at(s, 9, 8) == tick
            &&& s.subrange(17, 17 + BITS_BYTES) == bits
        }),
{
    let x = i32_bytes(cx);
    let y = i32_bytes(cy);
    let k = codec::le_bytes(tick as nat, 8);
    let s = t + payload_bytes(cx, cy, tick, bits);
    codec::lemma_pow256_values();
    lemma_i32_at(t, cx, y + k + bits);
    lemma_i32_at(t + x, cy, k + bits);
    lemma_num_at(t + x + y, tick as nat, 8, bits);
    assert(t + x + (y + k + bits) =~= s);
    assert(t + x + y + (k + bits) =~= s);
    assert(t + x + y + k + bits =~= s);
    assert(s.subrange(17, 17 + BITS_BYTES) =~= bits);
}

proof fn lemma_auth_roundtrip(uid: u32, claim: Option<ChunkCoord>, name: Seq<char>, email: Seq<char>)
    requires
        server_fits(ServerModel::AuthState { uid, claim, name, email }),
    ensures
        ({
            let m = ServerModel::AuthState { uid, claim, name, email };
            parse_server(server_bytes(m)) == Ok::<ServerModel, DecodeError>(m)
        }),
{
    let m = ServerModel::AuthState { uid, claim, name, email };
    let s = server_bytes(m);
    let c: ChunkCoord = match claim {
        Some(c) => c,
        None => (0, 0),
    };
    let t = seq![TAG_AUTH_STATE];
    let u = codec::le_bytes(uid as nat, 4);
    let q = seq![chunk::count(claim is Some) as u8];
    let x = i32_bytes(c.0);
    let y = i32_bytes(c.1);
    let nb = vstd::utf8::encode_utf8(name);
    let eb = vstd::utf8::encode_utf8(email);
    let nl = codec::le_bytes(nb.len(), 2);
    let el = codec::le_bytes(eb.len(), 2);
    let e = Seq::<u8>::empty();
    vstd::utf8::encode_utf8_valid_utf8(name);
    vstd::utf8::encode_utf8_valid_utf8(email);
    vstd::utf8::encode_utf8_decode_utf8(name);
    vstd::utf8::encode_utf8_decode_utf8(email);
    codec::lemma_pow256_values();
    codec::lemma_le_len(uid as nat, 4);
    codec::lemma_le_len(c.0 as u32 as nat, 4);
    codec::lemma_le_len(c.1 as u32 as nat, 4);
    codec::lemma_le_len(nb.len(), 2);
    codec::lemma_le_len(eb.len(), 2);
    let n = nb.len() as int;
    let rest = nl + nb + el + eb;
    let head = t + u + q + x + y;
    assert(s =~= head + rest);
    assert(num_at(s, 1, 4) == uid) by {
        lemma_num_at(t, uid as nat, 4, q + x + y + rest);
        assert(t + u + (q + x + y + rest) =~= s);
    }
    assert(i32_at(s, 6) == c.0) by {
        lemma_i32_at(t + u + q, c.0, y + rest);
        assert(t + u + q + x + (y + rest) =~= s);
    }
    assert(i32_at(s, 10) == c.1) by {
        lemma_i32_at(t + u + q + x, c.1, rest);
    }
    assert(num_at(s, 14, 2) == n) by {
        lemma_num_at(head, nb.len(), 2, nb + el + eb);
        assert(head + nl + (nb + el + eb) =~= s);
    }
    assert(num_at(s, 16 + n, 2) == eb.len()) by {
        lemma_num_at(head + nl + nb, eb.len(), 2, eb);
        assert(head + nl + nb + el + eb =~= s);
    }
    assert(s[5] == q[0]);
    assert(s.subrange(16, 16 + n) =~= nb);
    assert(s.subrange(18 + n, 18 + n + eb.len() as int) =~= eb);
}

/// What a client reads of a server message is what the server said.
pub proof fn law_server_roundtrip(m: ServerModel)
    requires
        server_fits(m),
        match m {
            ServerModel::ChunkState { bits, .. } => bits.len() == BITS_BYTES,
            ServerModel::ChunkDelta { bits, .. } => bits.len() == BITS_BYTES,
            ServerModel::EditApplied { cx, cy, cells } => forall|k: int|
                0 <= k < cells.len() ==> in_chunk(#[trigger] cells[k]) && cells[k].cx == cx
                    && cells[k].cy == cy,
            _ => true,
        },
    ensures
        parse_server(server_bytes(m)) == Ok::<ServerModel, DecodeError>(m),
{
    let s = server_bytes(m);
    let e = Seq::<u8>::empty();
    codec::lemma_pow256_values();
    match m {
        ServerModel::Hello { tick, chunk_size } => {
            lemma_num_at(seq![TAG_HELLO], tick as nat, 8, seq![chunk_size]);
        },
        ServerModel::Regions { regions } => {
            let f = |r: Region| region_bytes(r);
            let g = |i: Seq<u8>| region_from(i);
            assert forall|k: int| 0 <= k < regions.len() implies (#[trigger] f(regions[k])).len()
                == 29 && g(f(regions[k])) == regions[k] by {
                lemma_region_roundtrip(regions[k]);
            }
            lemma_list_roundtrip(seq![TAG_REGIONS], regions, f, g, 29);
        },
        ServerModel::ChunkState { cx, cy, tick, bits } => {
            lemma_payload_roundtrip(seq![TAG_CHUNK_STATE], cx, cy, tick, bits);
        },
        ServerModel::ChunkDelta { cx, cy, tick, bits } => {
            lemma_payload_roundtrip(seq![TAG_CHUNK_DELTA], cx, cy, tick, bits);
        },
        ServerModel::Reaped { cx, cy } => {
            let t = seq![TAG_REAPED];
            lemma_i32_at(t, cx, i32_bytes(cy));
            lemma_i32_at(t + i32_bytes(cx), cy, e);
            assert(t + i32_bytes(cx) + i32_bytes(cy) + e =~= s);
        },
        ServerModel::Stats { tick, live_chunks, tick_rate_hz, tick_utilization } => {
            let t = seq![TAG_STATS];
            let a = codec::le_bytes(tick as nat, 8);
            let b = codec::le_bytes(live_chunks as nat, 4);
            let c = codec::le_bytes(tick_rate_hz as nat, 4);
            let d = codec::le_bytes(tick_utilization as nat, 4);
            lemma_num_at(t, tick as nat, 8, b + c + d);
            lemma_num_at(t + a, live_chunks as nat, 4, c + d);
            lemma_num_at(t + a + b, tick_rate_hz as nat, 4, d);
            lemma_num_at(t + a + b + c, tick_utilization as nat, 4, e);
            assert(t + a + (b + c + d) =~= s);
            assert(t + a + b + (c + d) =~= s);
            assert(t + a + b + c + d + e =~= s);
        },
        ServerModel::Sync { tick } => {
            lemma_num_at(seq![TAG_SYNC], tick as nat, 8, e);
            assert(seq![TAG_SYNC] + codec::le_bytes(tick as nat, 8) + e =~= s);
        },
        ServerModel::EditApplied { cx, cy, cells } => {
            let t = seq![TAG_EDIT_APPLIED];
            let f = |c: EditCell| local_bytes(c);
            let g = |i: Seq<u8>| local_from(cx, cy, i);
            let l = list_bytes(cells, f);
            let x = i32_bytes(cx);
            let y = i32_bytes(cy);
            lemma_i32_at(t, cx, y + l);
            lemma_i32_at(t + x, cy, l);
            assert(t + x + (y + l) =~= s);
            assert(t + x + y + l =~= s);
            assert forall|k: int| 0 <= k < cells.len() implies (#[trigger] f(cells[k])).len() == 3
                && g(f(cells[k])) == cells[k] by {}
            lemma_list_roundtrip(t + x + y, cells, f, g, 3);
            assert forall|k: int| !#[trigger] stray(s, 9, 3, g, k) by {
                if 0 <= k < cells.len() {
                    assert(g(list_item(s, 9, k, 3)) == cells[k]);
                }
            }
        },
        ServerModel::AuthState { uid, claim, name, email } => {
            lemma_auth_roundtrip(uid, claim, name, email);
        },
        ServerModel::ClaimResult { ok } => {},
    }
}

// Tails and prefixes.

/// A number that lies within `s` is read the same where more follows.
proof fn lemma_num_prefix(s: Seq<u8>, t: Seq<u8>, at: int, n: int)
    requires
        0 <= at,
        0 <= n,
        at + n <= s.len(),
    ensures
        num_at(s + t, at, n) == num_at(s, at, n),
{
    assert((s + t).subrange(at, at + n) =~= s.subrange(at, at + n));
}

/// An item that lies within `s` is read the same where more follows.
proof fn lemma_item_prefix(s: Seq<u8>, t: Seq<u8>, at: int, k: int, size: nat)
    requires
        0 <= at,
        0 <= k,
        at + 2 + k * size + size <= s.len(),
    ensures
        list_item(s + t, at, k, size) == list_item(s, at, k, size),
{
    assert(0 <= k * size) by (nonlinear_arith)
        requires
            0 <= k,
            0 <= size,
    ;
    assert(list_item(s + t, at, k, size) =~= list_item(s, at, k, size));
}

/// A list that lies within `s` is read the same where more follows.
proof fn lemma_list_prefix<T>(
    s: Seq<u8>,
    t: Seq<u8>,
    at: int,
    size: nat,
    f: spec_fn(Seq<u8>) -> T,
)
    requires
        0 <= at,
        has_list(s, at, size),
    ensures
        list_len(s + t, at) == list_len(s, at),
        has_list(s + t, at, size),
        list_from(s + t, at, size, f) == list_from(s, at, size, f),
{
    lemma_num_prefix(s, t, at, 2);
    let n = list_len(s, at);
    assert forall|k: int| 0 <= k < n implies #[trigger] list_from(s + t, at, size, f)[k]
        == list_from(s, at, size, f)[k] by {
        codec::lemma_item_bounds(n, k, size);
        lemma_item_prefix(s, t, at, k, size);
    }
    assert(list_from(s + t, at, size, f) =~= list_from(s, at, size, f));
}

/// Edited cells that are read or rejected are so where more follows.
proof fn lemma_cells_prefix(
    s: Seq<u8>,
    t: Seq<u8>,
    at: int,
    size: nat,
    f: spec_fn(Seq<u8>) -> EditCell,
)
    requires
        0 <= at,
        cells_from(s, at, size, f) != Err::<Seq<EditCell>, DecodeError>(DecodeError::Truncated),
    ensures
        cells_from(s + t, at, size, f) == cells_from(s, at, size, f),
{
    lemma_num_prefix(s, t, at, 2);
    if exists|k: int| #[trigger] stray(s, at, size, f, k) {
        let k = choose|k: int| #[trigger] stray(s, at, size, f, k);
        lemma_item_prefix(s, t, at, k, size);
        assert(stray(s + t, at, size, f, k));
    } else {
        lemma_list_prefix(s, t, at, size, f);
        assert forall|k: int| !#[trigger] stray(s + t, at, size, f, k) by {
            if 0 <= k < list_len(s, at) {
                codec::lemma_item_bounds(list_len(s, at), k, size);
                lemma_item_prefix(s, t, at, k, size);
                assert(!stray(s, at, size, f, k));
            }
        }
    }
}

/// Bytes that follow a client message have no part in what is read of it, or why it is rejected;
/// only one that is cut off may be completed by them.
pub proof fn law_client_tail_is_ignored(s: Seq<u8>, t: Seq<u8>)
    requires
        s.len() > 0,
        parse_client(s) != Err::<ClientModel, DecodeError>(DecodeError::Truncated),
    ensures
        parse_client(s + t) == parse_client(s),
{
    assert((s + t)[0] == s[0]);
    if s[0] == TAG_SUBSCRIBE || s[0] == TAG_UNSUBSCRIBE {
        lemma_list_prefix(s, t, 1, 8, |i: Seq<u8>| coord_from(i));
    } else if s[0] == TAG_EDIT {
        lemma_cells_prefix(s, t, 1, 11, |i: Seq<u8>| cell_from(i));
    } else if s[0] == TAG_CLAIM_CREATE {
        lemma_num_prefix(s, t, 1, 4);
        lemma_num_prefix(s, t, 5, 4);
    }
}

/// Bytes that follow a server message have no part in what is read of it, or why it is rejected;
/// only one that is cut off, or whose texts are none, may be completed by them.
pub proof fn law_server_tail_is_ignored(s: Seq<u8>, t: Seq<u8>)
    requires
        s.len() > 0,
        parse_server(s) != Err::<ServerModel, DecodeError>(DecodeError::Truncated),
    ensures
        parse_server(s + t) == parse_server(s),
{
    let u = s + t;
    assert(u[0] == s[0]);
    if s[0] == TAG_HELLO {
        lemma_num_prefix(s, t, 1, 8);
    } else if s[0] == TAG_CHUNK_STATE || s[0] == TAG_CHUNK_DELTA {
        lemma_num_prefix(s, t, 1, 4);
        lemma_num_prefix(s, t, 5, 4);
        lemma_num_prefix(s, t, 9, 8);
        assert(u.subrange(17, 17 + BITS_BYTES) =~= s.subrange(17, 17 + BITS_BYTES));
    } else if s[0] == TAG_REGIONS {
        lemma_list_prefix(s, t, 1, 29, |i: Seq<u8>| region_from(i));
    } else if s[0] == TAG_REAPED {
        lemma_num_prefix(s, t, 1, 4);
        lemma_num_prefix(s, t, 5, 4);
    } else if s[0] == TAG_STATS {
        lemma_num_prefix(s, t, 1, 8);
        lemma_num_prefix(s, t, 9, 4);
        lemma_num_prefix(s, t, 13, 4);
        lemma_num_prefix(s, t, 17, 4);
    } else if s[0] == TAG_SYNC {
        lemma_num_prefix(s, t, 1, 8);
    } else if s[0] == TAG_EDIT_APPLIED {
        lemma_num_prefix(s, t, 1, 4);
        lemma_num_prefix(s, t, 5, 4);
        let cx = i32_at(s, 1);
        let cy = i32_at(s, 5);
        lemma_cells_prefix(s, t, 9, 3, |i: Seq<u8>| local_from(cx, cy, i));
    } else if s[0] == TAG_AUTH_STATE {
        let name = num_at(s, 14, 2) as int;
        let email = num_at(s, 16 + name, 2) as int;
        lemma_num_prefix(s, t, 1, 4);
        lemma_num_prefix(s, t, 6, 4);
        lemma_num_prefix(s, t, 10, 4);
        lemma_num_prefix(s, t, 14, 2);
        lemma_num_prefix(s, t, 16 + name, 2);
        assert(u.subrange(16, 16 + name) =~= s.subrange(16, 16 + name));
        assert(u.subrange(18 + name, 18 + name + email) =~= s.subrange(
            18 + name,
            18 + name + email,
        ));
    }
}

/// Bytes of a list.
pub proof fn lemma_list_bytes_len<T>(items: Seq<T>, f: spec_fn(T) -> Seq<u8>, size: nat)
    requires
        forall|k: int| 0 <= k < items.len() ==> (#[trigger] f(items[k])).len() == size,
    ensures
        list_bytes(items, f).len() == 2 + items.len() * size,
{
    let h = |k: int| f(items[k]);
    assert forall|k: int| 0 <= k < items.len() implies (#[trigger] h(k)).len() == size by {
        assert(f(items[k]).len() == size);
    }
    codec::lemma_le_len(items.len(), 2);
    codec::lemma_joined(items.len(), h, size);
}

/// Bytes of a coordinate.
pub proof fn lemma_coord_len(c: ChunkCoord)
    ensures
        coord_bytes(c).len() == 8,
        i32_bytes(c.0).len() == 4,
        i32_bytes(c.1).len() == 4,
{
    codec::lemma_le_len(c.0 as u32 as nat, 4);
    codec::lemma_le_len(c.1 as u32 as nat, 4);
}

/// A client message that is read takes no more bytes than there are.
proof fn lemma_client_len(s: Seq<u8>)
    requires
        parse_client(s) is Ok,
    ensures
        client_bytes(parse_client(s)->Ok_0).len() <= s.len(),
{
    match parse_client(s)->Ok_0 {
        ClientModel::Subscribe(coords) => {
            let f = |c: ChunkCoord| coord_bytes(c);
            assert forall|k: int| 0 <= k < coords.len() implies (#[trigger] f(coords[k])).len()
                == 8 by {
                lemma_coord_len(coords[k]);
            }
            lemma_list_bytes_len(coords, f, 8);
        },
        ClientModel::Unsubscribe(coords) => {
            let f = |c: ChunkCoord| coord_bytes(c);
            assert forall|k: int| 0 <= k < coords.len() implies (#[trigger] f(coords[k])).len()
                == 8 by {
                lemma_coord_len(coords[k]);
            }
            lemma_list_bytes_len(coords, f, 8);
        },
        ClientModel::Edit(cells) => {
            let f = |c: EditCell| cell_bytes(c);
            assert forall|k: int| 0 <= k < cells.len() implies (#[trigger] f(cells[k])).len()
                == 11 by {
                lemma_coord_len((cells[k].cx, cells[k].cy));
            }
            lemma_list_bytes_len(cells, f, 11);
        },
        ClientModel::ClaimCreate(c) => {
            lemma_coord_len(c);
        },
        ClientModel::ClaimDelete => {},
    }
}

/// A server message that is read takes no more bytes than there are.
proof fn lemma_server_len(s: Seq<u8>)
    requires
        parse_server(s) is Ok,
    ensures
        server_bytes(parse_server(s)->Ok_0).len() <= s.len(),
{
    match parse_server(s)->Ok_0 {
        ServerModel::Hello { tick, chunk_size } => {
            codec::lemma_le_len(tick as nat, 8);
        },
        ServerModel::Regions { regions } => {
            let f = |r: Region| region_bytes(r);
            assert forall|k: int| 0 <= k < regions.len() implies (#[trigger] f(regions[k])).len()
                == 29 by {
                lemma_region_roundtrip(regions[k]);
            }
            lemma_list_bytes_len(regions, f, 29);
        },
        ServerModel::ChunkState { cx, cy, tick, bits } => {
            lemma_coord_len((cx, cy));
            codec::lemma_le_len(tick as nat, 8);
        },
        ServerModel::ChunkDelta { cx, cy, tick, bits } => {
            lemma_coord_len((cx, cy));
            codec::lemma_le_len(tick as nat, 8);
        },
        ServerModel::Reaped { cx, cy } => {
            lemma_coord_len((cx, cy));
        },
        ServerModel::Stats { tick, live_chunks, tick_rate_hz, tick_utilization } => {
            codec::lemma_le_len(tick as nat, 8);
            codec::lemma_le_len(live_chunks as nat, 4);
            codec::lemma_le_len(tick_rate_hz as nat, 4);
            codec::lemma_le_len(tick_utilization as nat, 4);
        },
        ServerModel::Sync { tick } => {
            codec::lemma_le_len(tick as nat, 8);
        },
        ServerModel::EditApplied { cx, cy, cells } => {
            let f = |c: EditCell| local_bytes(c);
            lemma_coord_len((cx, cy));
            lemma_list_bytes_len(cells, f, 3);
        },
        ServerModel::AuthState { uid, claim, name, email } => {
            let n = num_at(s, 14, 2) as int;
            let m = num_at(s, 16 + n, 2) as int;
            let a = s.subrange(16, 16 + n);
            let b = s.subrange(18 + n, 18 + n + m);
            let c: ChunkCoord = match claim {
                Some(c) => c,
                None => (0, 0),
            };
            lemma_coord_len(c);
            codec::lemma_le_len(uid as nat, 4);
            codec::lemma_le_len(vstd::utf8::encode_utf8(name).len(), 2);
            codec::lemma_le_len(vstd::utf8::encode_utf8(email).len(), 2);
            vstd::utf8::decode_utf8_encode_utf8(a);
            vstd::utf8::decode_utf8_encode_utf8(b);
        },
        ServerModel::ClaimResult { ok } => {},
    }
}

/// A client message that is cut off is rejected as cut off, however much of it is left; one of
/// which nothing is left, as empty.
pub proof fn law_client_prefix_is_truncated(m: ClientModel, k: int)
    requires
        client_fits(m),
        m matches ClientModel::Edit(cells) ==> forall|k: int|
            0 <= k < cells.len() ==> in_chunk(#[trigger] cells[k]),
        0 <= k < client_bytes(m).len(),
    ensures
        parse_client(client_bytes(m).take(k)) == Err::<ClientModel, DecodeError>(
            if k == 0 {
                DecodeError::Empty
            } else {
                DecodeError::Truncated
            },
        ),
{
    let s = client_bytes(m);
    let t = s.take(k);
    law_client_roundtrip(m);
    assert(t + s.skip(k) =~= s);
    if k > 0 && parse_client(t) != Err::<ClientModel, DecodeError>(DecodeError::Truncated) {
        law_client_tail_is_ignored(t, s.skip(k));
        lemma_client_len(t);
    }
}

/// A server message that is cut off is rejected as cut off, however much of it is left; one of
/// which nothing is left, as empty.
pub proof fn law_server_prefix_is_truncated(m: ServerModel, k: int)
    requires
        server_fits(m),
        match m {
            ServerModel::ChunkState { bits, .. } => bits.len() == BITS_BYTES,
            ServerModel::ChunkDelta { bits, .. } => bits.len() == BITS_BYTES,
            ServerModel::EditApplied { cx, cy, cells } => forall|k: int|
                0 <= k < cells.len() ==> in_chunk(#[trigger] cells[k]) && cells[k].cx == cx
                    && cells[k].cy == cy,
            _ => true,
        },
        0 <= k < server_bytes(m).len(),
    ensures
        parse_server(server_bytes(m).take(k)) == Err::<ServerModel, DecodeError>(
            if k == 0 {
                DecodeError::Empty
            } else {
                DecodeError::Truncated
            },
        ),
{
    let s = server_bytes(m);
    let t = s.take(k);
    law_server_roundtrip(m);
    assert(t + s.skip(k) =~= s);
    if k > 0 && parse_server(t) != Err::<ServerModel, DecodeError>(DecodeError::Truncated) {
        law_server_tail_is_ignored(t, s.skip(k));
        lemma_server_len(t);
    }
}

/// Row `y` of a chunk bitset.
pub open spec fn row_from(bits: Seq<u8>, y: int) -> nat {
    num_at(bits, 8 * y, 8)
}

/// The bytes of the rows, one after the other.
pub open spec fn rows_bytes(rows: Seq<u64>) -> Seq<u8> {
    codec::joined(rows.len(), |y: int| codec::le_bytes(rows[y] as nat, 8))
}

/// Pack `[u64; CHUNK_SIZE]` rows into the wire byte layout.
pub fn rows_to_bits(rows: &[u64; CHUNK_SIZE]) -> (bits: [u8; BITS_BYTES])
    ensures
        bits@ == rows_bytes(rows@),
{
    let ghost f = |y: int| codec::le_bytes(rows@[y] as nat, 8);
    let mut out: Vec<u8> = Vec::with_capacity(BITS_BYTES);
    let mut y: usize = 0;
    while y < CHUNK_SIZE
        invariant
            y <= CHUNK_SIZE,
            f == (|y: int| codec::le_bytes(rows@[y] as nat, 8)),
            out@ == codec::joined(y as nat, f),
        decreases CHUNK_SIZE - y,
    {
        codec::push_le(&mut out, rows[y], 8);
        y = y + 1;
    }
    proof {
        assert forall|k: int| 0 <= k < CHUNK_SIZE implies (#[trigger] f(k)).len() == 8 by {
            codec::lemma_le_len(rows@[k] as nat, 8);
        }
        codec::lemma_joined(CHUNK_SIZE as nat, f, 8);
        assert(out@.subrange(0, BITS_BYTES as int) =~= out@);
    }
    copy_bits(out.as_slice(), 0)
}

/// The rows that a bitset holds.
pub open spec fn rows_from(bits: Seq<u8>) -> [u64; CHUNK_SIZE] {
    chunk::rows_of(|y: int| row_from(bits, y) as u64, CHUNK_SIZE as nat)
}

/// Rows are those of a bitset if they agree with it one by one.
pub proof fn lemma_rows_from(bits: Seq<u8>, rows: [u64; CHUNK_SIZE])
    requires
        forall|y: int| 0 <= y < CHUNK_SIZE ==> #[trigger] rows[y] == row_from(bits, y),
    ensures
        rows == rows_from(bits),
{
    let f = |y: int| row_from(bits, y) as u64;
    assert forall|y: int| 0 <= y < CHUNK_SIZE implies rows[y] == rows_from(bits)[y] by {
        chunk::lemma_rows_of(f, CHUNK_SIZE as nat, y);
    }
    assert(rows =~= rows_from(bits));
}

/// Inverse of [`rows_to_bits`].
pub fn bits_to_rows(bits: &[u8; BITS_BYTES]) -> (rows: [u64; CHUNK_SIZE])
    ensures
        rows == rows_from(bits@),
        forall|y: int| 0 <= y < CHUNK_SIZE ==> #[trigger] rows[y] == row_from(bits@, y),
{
    let s = bits.as_slice();
    let mut rows = [0u64;CHUNK_SIZE];
    let mut y: usize = 0;
    while y < CHUNK_SIZE
        invariant
            y <= CHUNK_SIZE,
            s@ == bits@,
            forall|j: int| 0 <= j < y ==> #[trigger] rows[j] == row_from(bits@, j),
        decreases CHUNK_SIZE - y,
    {
        rows[y] = codec::read_le(s, 8 * y, 8);
        y = y + 1;
    }
    proof {
        lemma_rows_from(bits@, rows);
    }
    rows
}

/// Rows are read back from the bitset that they were packed into, and bitsets are packed back
/// from the rows that they were read into.
pub proof fn law_rows_roundtrip(rows: Seq<u64>, bits: Seq<u8>)
    requires
        bits.len() == BITS_BYTES,
    ensures
        rows_bytes(rows).len() == 8 * rows.len(),
        forall|y: int| 0 <= y < rows.len() ==> #[trigger] row_from(rows_bytes(rows), y) == rows[y],
        rows_bytes(Seq::new(CHUNK_SIZE as nat, |y: int| row_from(bits, y) as u64)) == bits,
{
    codec::lemma_pow256_values();
    let f = |y: int| codec::le_bytes(rows[y] as nat, 8);
    assert forall|k: int| 0 <= k < rows.len() implies (#[trigger] f(k)).len() == 8 by {
        codec::lemma_le_len(rows[k] as nat, 8);
    }
    codec::lemma_joined(rows.len(), f, 8);
    assert forall|y: int| 0 <= y < rows.len() implies #[trigger] row_from(rows_bytes(rows), y)
        == rows[y] by {
        assert(codec::item(rows_bytes(rows), y, 8) == f(y));
        codec::lemma_le_roundtrip(rows[y] as nat, 8);
    }
    let back = Seq::new(CHUNK_SIZE as nat, |y: int| row_from(bits, y) as u64);
    let g = |y: int| codec::le_bytes(back[y] as nat, 8);
    assert forall|k: int| 0 <= k < CHUNK_SIZE implies (#[trigger] g(k)).len() == 8 && g(k)
        == bits.subrange(8 * k, 8 * k + 8) by {
        let part = bits.subrange(8 * k, 8 * k + 8);
        codec::lemma_value_roundtrip(part);
    }
    codec::lemma_joined(CHUNK_SIZE as nat, g, 8);
    let all = rows_bytes(back);
    assert forall|i: int| 0 <= i < BITS_BYTES implies all[i] == bits[i] by {
        let k = i / 8;
        assert(codec::item(all, k, 8) == g(k));
        assert(all[i] == codec::item(all, k, 8)[i - k * 8]);
        assert(bits[i] == bits.subrange(8 * k, 8 * k + 8)[i - 8 * k]);
    }
    assert(all =~= bits);
}

} // verus!
