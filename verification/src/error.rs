//! Errors of the client.
use vstd::prelude::*;

verus! {

/// What can go wrong in the client.
#[derive(Debug, PartialEq, Eq)]
pub enum Error {
    /// The link is not a magnet URI that can be read.
    MagnetLinkInvalid,
    /// The torrent was added before.
    NoDuplicateTorrent,
    /// There is no torrent with this info hash.
    TorrentDoesNotExist,
    /// There is no torrent with this info hash to look a file up in.
    InfoHashInvalid,
    /// There is no peer with this ID.
    PeerIdInvalid,
    /// No peer shares this torrent.
    NoPeers,
    /// The torrent has no piece with this index.
    PieceIndexInvalid,
    /// The data of the piece does not have the promised hash.
    PieceInvalid,
    /// A file could not be found or opened.
    FileOpenError(String),
    /// A file could not be read or written.
    Io(String),
}

} // verus!
