//! Frames on their way to peers, and frames that came from them.

use crate::codec;
use crate::coord::ChunkCoord;
use crate::hub::{PeerId, PeerUser};
use crate::protocol;
use crate::protocol::{ClientModel, ClientMsg, DecodeError, EditCell, Region, ServerModel, ServerMsg, BITS_BYTES};
use bytes::Bytes;
use vstd::prelude::*;

verus! {

/// A cheaply cloned buffer of bytes, as the channels to the peers carry it.
#[verifier::external_type_specification]
#[verifier::external_body]
pub struct ExBytes(Bytes);

/// The bytes that a [`Bytes`] holds.
pub uninterp spec fn contents(b: Bytes) -> Seq<u8>;

/// `Bytes::from(Vec<u8>)`: the buffer takes over the vector, and holds the same bytes in the same
/// order.
#[verifier::external_body]
fn share_bytes(v: Vec<u8>) -> (b: Bytes)
    ensures
        contents(b) == v@,
{
    Bytes::from(v)
}

/// Whether a message fits the wire format.
pub fn server_msg_fits(msg: &ServerMsg) -> (b: bool)
    ensures
        b == protocol::server_fits(msg@),
{
    match msg {
        ServerMsg::Regions { regions } => regions.len() <= 0xffff,
        ServerMsg::EditApplied { cells, .. } => cells.len() <= 0xffff,
        ServerMsg::AuthState { name, email, .. } => name.as_str().as_bytes().len() <= 0xffff
            && email.as_str().as_bytes().len() <= 0xffff,
        _ => true,
    }
}

/// Bytes that a message takes on the wire.
pub fn encode_capacity(msg: &ServerMsg) -> (n: usize)
    requires
        protocol::server_fits(msg@),
    ensures
        n == protocol::server_bytes(msg@).len(),
{
    proof {
        lemma_capacity(msg@);
    }
    match msg {
        ServerMsg::ChunkState { bits, .. } => {
            assert(bits@.len() == BITS_BYTES);
            BITS_BYTES + 1 + 4 + 4 + 8
        },
        ServerMsg::ChunkDelta { bits, .. } => {
            assert(bits@.len() == BITS_BYTES);
            BITS_BYTES + 1 + 4 + 4 + 8
        },
        ServerMsg::Hello { .. } => 1 + 8 + 1,
        ServerMsg::Reaped { .. } => 1 + 4 + 4,
        ServerMsg::Stats { .. } => 1 + 8 + 4 + 4 + 4,
        ServerMsg::Regions { regions } => 1 + 2 + regions.len() * 29,
        ServerMsg::Sync { .. } => 1 + 8,
        ServerMsg::EditApplied { cells, .. } => 1 + 4 + 4 + 2 + cells.len() * 3,
        ServerMsg::AuthState { name, email, .. } => 1 + 4 + 1 + 4 + 4 + 2
            + name.as_str().as_bytes().len() + 2 + email.as_str().as_bytes().len(),
        ServerMsg::ClaimResult { .. } => 1 + 1,
    }
}

/// What the parts of a message take.
proof fn lemma_capacity(m: ServerModel)
    ensures
        protocol::server_bytes(m).len() == (match m {
            ServerModel::ChunkState { bits, .. } => 17 + bits.len(),
            ServerModel::ChunkDelta { bits, .. } => 17 + bits.len(),
            ServerModel::Hello { .. } => 10,
            ServerModel::Reaped { .. } => 9,
            ServerModel::Stats { .. } => 21,
            ServerModel::Regions { regions } => 3 + regions.len() * 29,
            ServerModel::Sync { .. } => 9,
            ServerModel::EditApplied { cells, .. } => 11 + cells.len() * 3,
            ServerModel::AuthState { name, email, .. } => 18 + vstd::utf8::encode_utf8(name).len()
                + vstd::utf8::encode_utf8(email).len(),
            ServerModel::ClaimResult { .. } => 2,
        }),
{
    assert forall|v: nat, n: nat| (#[trigger] codec::le_bytes(v, n)).len() == n by {
        codec::lemma_le_len(v, n);
    }
    match m {
        ServerModel::Regions { regions } => {
            let f = |r: Region| protocol::region_bytes(r);
            let g = |k: int| f(regions[k]);
            codec::lemma_joined(regions.len(), g, 29);
        },
        ServerModel::EditApplied { cells, .. } => {
            let f = |c: EditCell| protocol::local_bytes(c);
            let g = |k: int| f(cells[k]);
            codec::lemma_joined(cells.len(), g, 3);
        },
        _ => {},
    }
}

/// Encode a message for any number of peers.
pub fn encode_once(msg: &ServerMsg) -> (b: Bytes)
    requires
        protocol::server_fits(msg@),
    ensures
        contents(b) == protocol::server_bytes(msg@),
{
    let mut buf: Vec<u8> = Vec::with_capacity(encode_capacity(msg));
    protocol::encode_server(msg, &mut buf);
    assert(buf@ =~= protocol::server_bytes(msg@));
    share_bytes(buf)
}

/// What the hub is asked to do.
#[derive(Debug)]
pub enum HubCmd {
    Leave { peer_id: PeerId },
    Client { peer_id: PeerId, msg: ClientMsg },
    AuthPeer { peer_id: PeerId, user: PeerUser },
    ClaimCreate { peer_id: PeerId, coord: ChunkCoord },
    ClaimDelete { peer_id: PeerId },
}

/// What a frame of a peer asks of the hub: claims have commands of their own, so that they do not
/// go the way of other messages.
pub fn route(peer_id: PeerId, frame: &[u8]) -> (r: Result<HubCmd, DecodeError>)
    ensures
        match (protocol::parse_client(frame@), r) {
            (Err(e), Err(f)) => e == f,
            (Ok(ClientModel::ClaimCreate(c)), Ok(HubCmd::ClaimCreate { peer_id: p, coord })) => p
                == peer_id && coord == c,
            (Ok(ClientModel::ClaimDelete), Ok(HubCmd::ClaimDelete { peer_id: p })) => p == peer_id,
            (Ok(m), Ok(HubCmd::Client { peer_id: p, msg })) => p == peer_id && msg@ == m
                && m !is ClaimCreate && m !is ClaimDelete,
            _ => false,
        },
{
    match protocol::decode_client(frame) {
        Ok(ClientMsg::ClaimCreate(coord)) => Ok(HubCmd::ClaimCreate { peer_id, coord }),
        Ok(ClientMsg::ClaimDelete) => Ok(HubCmd::ClaimDelete { peer_id }),
        Ok(msg) => Ok(HubCmd::Client { peer_id, msg }),
        Err(e) => Err(e),
    }
}

} // verus!
