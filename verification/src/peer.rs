//! Peers.
use crate::disk::slice::InfoHash;
use vstd::prelude::*;

verus! {

/// The ID of a peer.
pub type PeerId = [u8; 20];

/// What the client knows of a peer.
#[derive(Debug)]
pub struct PeerCtx {
    /// The ID of the peer.
    pub id: PeerId,
    /// The info hash of the torrent the peer shares.
    pub info_hash: InfoHash,
    /// For every piece, whether the peer has it.
    pub pieces: Vec<bool>,
}

} // verus!
