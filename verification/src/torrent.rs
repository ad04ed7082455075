//! Torrents.
use crate::disk::slice::InfoHash;
use crate::metainfo::Info;
use vstd::prelude::*;

verus! {

/// What the client knows of a torrent whose [`Info`] is downloaded.
#[derive(Debug)]
pub struct TorrentCtx {
    /// The info hash of the torrent.
    pub info_hash: InfoHash,
    /// The description of the content of the torrent.
    pub info: Info,
    /// For every piece, whether it is downloaded.
    pub bitfield: Vec<bool>,
}

} // verus!
