//! The downloads of all torrents, and the slices that are being read.
pub mod block_laws;
pub mod laws;
pub mod layout;
pub mod layout_laws;
pub mod plan_laws;
pub mod range;
pub mod request_laws;
pub mod run;
pub mod run_laws;
pub mod slice;
pub mod slice_laws;
pub mod tables;
pub mod torrent;
pub mod torrent_laws;
pub mod wanted_laws;
pub mod write_plan;

use crate::disk::layout::{
    block_place, disk_files, disk_files_data, find_block_place, find_piece_file, has_files,
    info_fits, offset_exceeds, piece_size, place_of, test_has_files, torrent_info, torrent_offset,
    DiskFile, DiskFileData, Place, PlaceData,
};
use crate::disk::range::{calc_slice_prefix, range_remove_prefix, slice_prefix};
use crate::disk::slice::{
    is_reqs, reqs_removed, torrent_payloads, Attr, InfoHash, ReadSliceReq, SliceAttr, SliceDb,
    SliceDbError, SliceId,
};
use crate::disk::tables::{PeerMap, TorrentMap};
use crate::disk::torrent::{
    blocks_in_order, can_request, can_write_block, has_piece_size, is_cached,
    is_complete, is_downloaded, is_piece_order, is_valid, piece_done, piece_given, piece_writes, refusal,
    reordered, requested, returned, reverted, started, with_block, PieceStrategy, TorrentData,
    TorrentState,
};
use crate::disk::write_plan::{first_with_path, paths_differ, writes_data, FileWrite};
use crate::error::Error;
use crate::hash::same_hash;
use crate::metainfo::{file_start_monotonic, file_start_succ, File, InfoData};
use crate::peer::{PeerCtx, PeerId};
use crate::tcp_wire::{Block, BlockData, BlockInfo};
use crate::text::{append_texts, clone_texts, same_texts, texts};
use crate::torrent::TorrentCtx;
use crate::uri_path::{render_uri_path_unchecked, uri_path};
use rand::seq::SliceRandom;
use std::collections::VecDeque;
use std::ops::Range;
use vstd::prelude::*;

verus! {

/// What a [`PeerCtx`] holds.
pub ghost struct PeerData {
    pub info_hash: Seq<u8>,
    pub pieces: Seq<bool>,
}

/// What `peer` holds.
pub open spec fn peer_data(peer: PeerCtx) -> PeerData {
    PeerData { info_hash: peer.info_hash@, pieces: peer.pieces@ }
}

/// What a [`Disk`] holds.
pub ghost struct DiskData {
    pub download_dir: Seq<char>,
    /// The downloads by info hash.
    pub torrents: Map<Seq<u8>, TorrentData>,
    /// The peers by ID.
    pub peers: Map<Seq<u8>, PeerData>,
    /// The slices by ID.
    pub slices: Map<SliceId, Attr>,
    /// The ID of the next slice.
    pub next_slice_id: SliceId,
}

/// The state of all downloads and slices:
/// - which blocks of all torrents are cached, and which are to be downloaded
/// - which files blocks are read from and written to
/// - which parts of torrents are being read.
pub struct Disk {
    /// The directory that all torrents are downloaded to.
    pub download_dir: String,
    torrents: TorrentMap,
    peer_ctxs: PeerMap,
    /// Slices of HTTP connections.
    slice_db: SliceDb,
}

/// Whether the slice `attr` is a part of a torrent that has files.
pub open spec fn is_inside(d: DiskData, attr: Attr) -> bool {
    &&& d.torrents.contains_key(attr.info_hash@)
    &&& has_files(d.torrents[attr.info_hash@].info)
    &&& attr.payload.start <= attr.payload.end <= d.torrents[attr.info_hash@].info.size()
}

/// Whether every slice is a part of a torrent that has files.
pub open spec fn slices_inside(d: DiskData) -> bool {
    forall|id: SliceId| #[trigger] d.slices.contains_key(id) ==> is_inside(d, d.slices[id])
}

impl View for Disk {
    type V = DiskData;

    closed spec fn view(&self) -> DiskData {
        DiskData {
            download_dir: self.download_dir@,
            torrents: self.torrents@.map_values(|t: TorrentState| t@),
            peers: self.peer_ctxs@.map_values(|p: PeerCtx| peer_data(p)),
            slices: self.slice_db.attrs(),
            next_slice_id: self.slice_db.next_id(),
        }
    }
}

impl Disk {
    /// Whether all downloads and the slices are consistent.
    pub closed spec fn wf(self) -> bool {
        &&& forall|h: Seq<u8>| #[trigger]
            self.torrents@.contains_key(h) ==> self.torrents@[h].wf()
        &&& self.slice_db.wf()
        &&& slices_inside(self@)
    }

    /// Every slice is a part of a torrent that has files.
    pub proof fn slice_is_inside(self, id: SliceId)
        requires
            self.wf(),
            self@.slices.contains_key(id),
        ensures
            is_inside(self@, self@.slices[id]),
    {
    }

    /// A disk without torrents, peers and slices.
    pub fn new(download_dir: String) -> (res: Self)
        ensures
            res.wf(),
            res@.download_dir == download_dir@,
            res@.torrents == Map::<Seq<u8>, TorrentData>::empty(),
            res@.peers == Map::<Seq<u8>, PeerData>::empty(),
            res@.slices == Map::<SliceId, Attr>::empty(),
            res@.next_slice_id == 0,
    {
        Disk {
            download_dir,
            torrents: TorrentMap::new(),
            peer_ctxs: PeerMap::new(),
            slice_db: SliceDb::default(),
        }
    }

    /// The download of a torrent.
    pub fn torrent(&self, info_hash: &InfoHash) -> (res: Option<&TorrentState>)
        requires
            self.wf(),
        ensures
            match res {
                Some(torrent) => self@.torrents.contains_key(info_hash@) && torrent@
                    == self@.torrents[info_hash@] && torrent.wf(),
                None => !self@.torrents.contains_key(info_hash@),
            },
    {
        self.torrents.get(info_hash)
    }

    /// Changes how the next piece of a torrent is chosen. Tells whether the torrent exists.
    pub fn set_piece_strategy(&mut self, info_hash: &InfoHash, strategy: PieceStrategy) -> (res:
        bool)
        requires
            old(self).wf(),
        ensures
            final(self).wf(),
            res == old(self)@.torrents.contains_key(info_hash@),
            final(self)@ == if res {
                with_torrent(
                    old(self)@,
                    info_hash@,
                    TorrentData {
                        piece_strategy: strategy,
                        ..old(self)@.torrents[info_hash@]
                    },
                )
            } else {
                old(self)@
            },
    {
        let ghost d = self@;
        match self.torrents.get_mut(info_hash) {
            Some(torrent) => {
                torrent.piece_strategy = strategy;
                proof {
                    let next = TorrentData {
                        piece_strategy: strategy,
                        ..d.torrents[info_hash@]
                    };
                    assert(self.torrents@[info_hash@]@ == next);
                    assert(next.pieces == d.torrents[info_hash@].pieces);
                    assert(self.torrents@[info_hash@].wf());
                    assert(self@.torrents =~= d.torrents.insert(info_hash@, next));
                    assert(slices_inside(self@)) by {
                        assert forall|id: SliceId| #[trigger]
                            self@.slices.contains_key(id) implies is_inside(
                            self@,
                            self@.slices[id],
                        ) by {
                            assert(is_inside(d, d.slices[id]));
                        }
                    }
                }
                true
            },
            None => {
                assert(self@.torrents =~= d.torrents);
                false
            },
        }
    }

    /// Adds a new peer, or replaces the peer with the same ID.
    pub fn new_peer(&mut self, peer_ctx: PeerCtx)
        requires
            old(self).wf(),
        ensures
            final(self).wf(),
            final(self)@ == (DiskData {
                peers: old(self)@.peers.insert(peer_ctx.id@, peer_data(peer_ctx)),
                ..old(self)@
            }),
    {
        self.peer_ctxs.insert(peer_ctx.id, peer_ctx);
        assert(self@.peers =~= old(self)@.peers.insert(peer_ctx.id@, peer_data(peer_ctx)));
    }
}

/// Bytes to read from a file.
#[derive(Debug, PartialEq, Eq)]
pub struct BlockRead {
    /// The components of the directory of the torrent.
    pub base: Vec<String>,
    /// The file in this directory and the offset in the file.
    pub place: Place,
    /// The number of bytes.
    pub len: u32,
}

/// Whether `read` reads the block `block_info` of the torrent `info_hash`.
pub open spec fn is_block_read(
    d: DiskData,
    info_hash: Seq<u8>,
    block_info: BlockInfo,
    read: BlockRead,
) -> bool {
    &&& texts(read.base@) == base_components(d, info_hash)
    &&& Some(read.place@) == block_place(d.torrents[info_hash].info, block_info)
    &&& read.len == block_info.len
}

/// The components of the directory of a torrent: "download_dir/name_of_torrent".
pub open spec fn base_components(d: DiskData, info_hash: Seq<u8>) -> Seq<Seq<char>> {
    seq![d.download_dir, d.torrents[info_hash].info.name]
}

impl Disk {
    /// Gets the base path of a torrent directory, as the list of its components.
    /// Which is always "download_dir/name_of_torrent".
    pub fn base_path(&self, info_hash: &InfoHash) -> (res: Vec<String>)
        requires
            self.wf(),
            self@.torrents.contains_key(info_hash@),
        ensures
            texts(res@) == base_components(self@, info_hash@),
    {
        let torrent = self.torrents.get(info_hash).unwrap();
        let mut base: Vec<String> = Vec::new();
        base.push(self.download_dir.clone());
        base.push(torrent.summary.name.clone());
        assert(texts(base@) =~= base_components(self@, info_hash@));
        base
    }

    /// Gets the correct piece size, the last piece of a torrent
    /// might be smaller than the other pieces.
    pub fn piece_size(&self, info_hash: &InfoHash, piece_index: usize) -> (res: u32)
        requires
            self.wf(),
            self@.torrents.contains_key(info_hash@),
            has_piece_size(self@.torrents[info_hash@].info, piece_index as int),
        ensures
            res == piece_size(
                torrent_info(self@.torrents[info_hash@].info),
                piece_index as int,
            ),
    {
        self.torrents.get(info_hash).unwrap().summary.piece_size(piece_index)
    }

    /// Finds the file that a block starts in and the offset of the block in this file.
    /// The file is in the directory of the torrent, see [`Disk::base_path`].
    ///
    /// # Use cases:
    /// - After we receive a Piece msg, we need to
    /// map the block to a file to be able to write to disk.
    ///
    /// - When a leecher sends a Request msg, we need
    /// to get the corresponding file and the right offset
    /// of the block info.
    pub fn get_file_from_block_info(&self, block_info: &BlockInfo, info_hash: &InfoHash) -> (res:
        Result<Place, Error>)
        requires
            self.wf(),
            self@.torrents.contains_key(info_hash@) ==> has_files(
                self@.torrents[info_hash@].info,
            ),
        ensures
            res is Ok <==> self@.torrents.contains_key(info_hash@) && block_place(
                self@.torrents[info_hash@].info,
                *block_info,
            ) is Some,
            match res {
                Ok(place) => Some(place@) == block_place(
                    self@.torrents[info_hash@].info,
                    *block_info,
                ),
                Err(e) => if self@.torrents.contains_key(info_hash@) {
                    e matches Error::FileOpenError(text) && text@ == offset_exceeds()
                } else {
                    e == Error::InfoHashInvalid
                },
            },
    {
        match self.torrents.get(info_hash) {
            Some(torrent) => find_block_place(&torrent.info, block_info),
            None => Err(Error::InfoHashInvalid),
        }
    }

    /// Given a piece, finds its corresponding file: the one that the piece starts in.
    pub fn get_file_from_piece(&self, piece: u32, info_hash: &InfoHash) -> (res: Result<
        File,
        Error,
    >)
        requires
            self.wf(),
            self@.torrents.contains_key(info_hash@) ==> has_files(
                self@.torrents[info_hash@].info,
            ),
        ensures
            res is Ok <==> self@.torrents.contains_key(info_hash@) && piece_place(
                self@,
                info_hash@,
                piece,
            ) is Some,
            match res {
                Ok(file) => file@ == piece_place(self@, info_hash@, piece)->0.file,
                Err(e) => if self@.torrents.contains_key(info_hash@) {
                    e matches Error::FileOpenError(text) && text@ == ""@
                } else {
                    e == Error::InfoHashInvalid
                },
            },
    {
        match self.torrents.get(info_hash) {
            Some(torrent) => find_piece_file(&torrent.info, piece),
            None => Err(Error::InfoHashInvalid),
        }
    }

    /// Tells where the data of a block are read from.
    pub fn read_block(&self, info_hash: &InfoHash, block_info: &BlockInfo) -> (res: Result<
        BlockRead,
        Error,
    >)
        requires
            self.wf(),
            self@.torrents.contains_key(info_hash@) ==> has_files(
                self@.torrents[info_hash@].info,
            ),
        ensures
            res is Ok <==> self@.torrents.contains_key(info_hash@) && block_place(
                self@.torrents[info_hash@].info,
                *block_info,
            ) is Some,
            match res {
                Ok(read) => is_block_read(self@, info_hash@, *block_info, read),
                Err(e) => if self@.torrents.contains_key(info_hash@) {
                    e matches Error::FileOpenError(text) && text@ == offset_exceeds()
                } else {
                    e == Error::InfoHashInvalid
                },
            },
    {
        match self.get_file_from_block_info(block_info, info_hash) {
            Ok(place) => {
                let base = self.base_path(info_hash);
                Ok(BlockRead { base, place, len: block_info.len })
            },
            Err(e) => Err(e),
        }
    }

    /// Makes a block of the data that were read from its place.
    pub fn get_block_from_block_info(block_info: &BlockInfo, data: Vec<u8>) -> (res: Block)
        ensures
            res.index == block_info.index,
            res.begin == block_info.begin,
            res.block == data,
    {
        Block { index: block_info.index as usize, begin: block_info.begin, block: data }
    }

    /// Validates if the hash of a piece is valid.
    ///
    /// # Important
    /// The function gets the blocks in cache,
    /// if the cache was cleared, the function does not work.
    pub fn validate_piece(&self, info_hash: &InfoHash, index: usize) -> (res: Result<(), Error>)
        requires
            self.wf(),
            self@.torrents.contains_key(info_hash@),
            index < self@.torrents[info_hash@].info.piece_count(),
        ensures
            res is Ok <==> is_valid(self@.torrents[info_hash@], index as int),
            res matches Err(e) ==> e == Error::PieceInvalid,
    {
        self.torrents.get(info_hash).unwrap().validate_piece(index)
    }
}

/// The place where a piece starts.
pub open spec fn piece_place(d: DiskData, info_hash: Seq<u8>, piece: u32) -> Option<PlaceData> {
    let info = d.torrents[info_hash].info;
    place_of(info, torrent_offset(info, piece as int, 0))
}

/// What came of a downloaded block.
#[derive(Debug, PartialEq, Eq)]
pub enum WriteBlock {
    /// The block is in the cache, now or already before. Its piece is not complete.
    Cached,
    /// The piece of the block was complete, but its hash is not the promised one.
    /// The blocks of the piece are to be downloaded again.
    Corrupted,
    /// The piece of the block is complete. The writes store it in the files of the torrent.
    Complete(Vec<FileWrite>),
}

/// The download `t` after the block `block` was downloaded.
pub open spec fn block_written(t: TorrentData, block: BlockData) -> TorrentData {
    let i = block.index as int;
    let next = with_block(t, block);
    if refusal(t, i) is Some || is_cached(t.cache[i], block) {
        t
    } else if !is_complete(next, i) {
        next
    } else if is_valid(next, i) {
        piece_given(next, i)
    } else {
        reverted(next, i)
    }
}

/// Whether `res` is what comes of the downloaded block `block`.
pub open spec fn is_block_outcome(
    t: TorrentData,
    block: BlockData,
    res: Result<WriteBlock, Error>,
) -> bool {
    let i = block.index as int;
    let next = with_block(t, block);
    if refusal(t, i) is Some {
        res matches Err(e) && Some(e) == refusal(t, i)
    } else if is_cached(t.cache[i], block) || !is_complete(next, i) {
        res matches Ok(WriteBlock::Cached)
    } else if !is_valid(next, i) {
        res matches Ok(WriteBlock::Corrupted)
    } else if piece_writes(next, i) is Some {
        res matches Ok(WriteBlock::Complete(writes)) && Some(writes_data(writes@)) == piece_writes(
            next,
            i,
        ) && paths_differ(writes_data(writes@))
    } else {
        res matches Err(Error::FileOpenError(text)) && text@ == offset_exceeds()
    }
}

impl Disk {
    /// The essence of the entire Disk struct is in this function.
    /// It first tries to write the block to the cache.
    ///
    /// # When a full piece is downloaded
    ///
    /// It is only after all blocks of the piece have been downloaded to the cache
    /// that the function tells what to write into the files.
    ///
    /// A block that is in the cache already changes nothing.
    ///
    /// Whenever a full piece is downloaded, this function
    /// validates the hash of the full piece.
    /// When the writes of a valid piece are done, [`Disk::piece_written`] is to be called.
    pub fn write_block(&mut self, info_hash: &InfoHash, block: Block) -> (res: Result<
        WriteBlock,
        Error,
    >)
        requires
            old(self).wf(),
            old(self)@.torrents.contains_key(info_hash@),
            can_write_block(old(self)@.torrents[info_hash@], block@),
        ensures
            final(self).wf(),
            final(self)@ == (DiskData {
                torrents: old(self)@.torrents.insert(
                    info_hash@,
                    block_written(old(self)@.torrents[info_hash@], block@),
                ),
                ..old(self)@
            }),
            is_block_outcome(old(self)@.torrents[info_hash@], block@, res),
    {
        let index: usize = block.index;
        let ghost h = info_hash@;
        let ghost data = block@;
        let ghost t = self@.torrents[h];
        let torrent = self.torrents.get_mut(info_hash).unwrap();
        let res = match torrent.add_block(block) {
            Err(e) => Err(e),
            Ok(complete) => if !complete {
                Ok(WriteBlock::Cached)
            } else {
                match torrent.validate_piece(index) {
                    Ok(_) => match torrent.write_pieces(index) {
                        Ok(writes) => Ok(WriteBlock::Complete(writes)),
                        Err(e) => Err(e),
                    },
                    Err(_) => {
                        torrent.revert_piece(index);
                        Ok(WriteBlock::Corrupted)
                    },
                }
            },
        };
        assert(self.torrents@[h]@ == block_written(t, data));
        assert(self@.torrents =~= old(self)@.torrents.insert(h, block_written(t, data)));
        res
    }
}

/// Whether the peer `peer` shares the torrent `info_hash` and has the piece `piece`.
pub open spec fn shares_piece(peer: PeerData, info_hash: Seq<u8>, piece: int) -> bool {
    peer.info_hash == info_hash && 0 <= piece < peer.pieces.len() && peer.pieces[piece]
}

/// How many peers of the torrent `info_hash` have the piece `piece`.
pub open spec fn score(peers: Map<Seq<u8>, PeerData>, info_hash: Seq<u8>, piece: int) -> nat {
    peers.dom().filter(|id: Seq<u8>| shares_piece(peers[id], info_hash, piece)).len()
}

/// The score of every piece in `pieces`.
pub open spec fn scores(
    peers: Map<Seq<u8>, PeerData>,
    info_hash: Seq<u8>,
    pieces: Seq<u32>,
) -> Seq<u64> {
    pieces.map_values(|p: u32| score(peers, info_hash, p as int) as u64)
}

/// Whether a peer shares the torrent `info_hash`.
pub open spec fn has_peers(peers: Map<Seq<u8>, PeerData>, info_hash: Seq<u8>) -> bool {
    exists|id: Seq<u8>| #[trigger] peers.contains_key(id) && peers[id].info_hash == info_hash
}

/// The download `t` with the pieces ordered by their scores, the rarest piece to the right.
pub open spec fn rarest(
    t: TorrentData,
    peers: Map<Seq<u8>, PeerData>,
    info_hash: Seq<u8>,
) -> TorrentData {
    TorrentData {
        pieces: reordered(t.pieces, scores(peers, info_hash, t.pieces)),
        piece_strategy: if t.piece_strategy == PieceStrategy::Random {
            PieceStrategy::Rarest
        } else {
            t.piece_strategy
        },
        ..t
    }
}

/// How many of the first `n` peers in `peers` share the torrent and have the piece.
spec fn count_peers(
    peers: Seq<(&PeerId, &PeerCtx)>,
    info_hash: Seq<u8>,
    piece: int,
    n: int,
) -> int
    decreases n,
{
    if n <= 0 {
        0
    } else {
        count_peers(peers, info_hash, piece, n - 1) + if shares_piece(
            peer_data(*peers[n - 1].1),
            info_hash,
            piece,
        ) {
            1int
        } else {
            0int
        }
    }
}

/// Counting the peers in a list of all peers gives the score.
proof fn count_is_score(
    map: Map<Seq<u8>, PeerData>,
    peers: Seq<(&PeerId, &PeerCtx)>,
    info_hash: Seq<u8>,
    piece: int,
    n: int,
    seen: Set<Seq<u8>>,
)
    requires
        0 <= n <= peers.len(),
        forall|i: int|
            0 <= i < peers.len() ==> map.contains_key((#[trigger] peers[i]).0@)
                && map[peers[i].0@] == peer_data(*peers[i].1),
        forall|i: int, j: int|
            0 <= i < j < peers.len() ==> (#[trigger] peers[i]).0@ != (#[trigger] peers[j]).0@,
        forall|id: Seq<u8>| #[trigger]
            seen.contains(id) <==> map.contains_key(id) && shares_piece(map[id], info_hash, piece)
                && exists|i: int| 0 <= i < n && (#[trigger] peers[i]).0@ == id,
    ensures
        seen.finite(),
        seen.len() == count_peers(peers, info_hash, piece, n),
    decreases n,
{
    if n == 0 {
        assert(seen =~= Set::empty());
    } else {
        let id = peers[n - 1].0@;
        let rest = seen.remove(id);
        assert forall|k: Seq<u8>| #[trigger] rest.contains(k) <==> map.contains_key(k)
            && shares_piece(map[k], info_hash, piece) && exists|i: int|
            0 <= i < n - 1 && (#[trigger] peers[i]).0@ == k by {
            if seen.contains(k) && k != id {
                let i = choose|i: int| 0 <= i < n && (#[trigger] peers[i]).0@ == k;
                assert(i < n - 1);
                assert(peers[i].0@ == k);
            }
            if map.contains_key(k) && shares_piece(map[k], info_hash, piece) && exists|i: int|
                0 <= i < n - 1 && (#[trigger] peers[i]).0@ == k {
                let i = choose|i: int| 0 <= i < n - 1 && (#[trigger] peers[i]).0@ == k;
                assert(peers[i].0@ != id);
                assert(seen.contains(k));
            }
        }
        count_is_score(map, peers, info_hash, piece, n - 1, rest);
        if shares_piece(map[id], info_hash, piece) {
            assert(peers[n - 1].0@ == id);
            assert(seen.contains(id));
            assert(seen =~= rest.insert(id));
        } else {
            assert(seen =~= rest);
        }
    }
}

impl Disk {
    /// Changes the piece download algorithm to rarest-first.
    ///
    /// The rarest-first strategy actually begins in random-first,
    /// until the first piece is downloaded, after that, it finally
    /// switches to rarest-first.
    ///
    /// The function gets the pieces of all peers, and sees
    /// which pieces are the most rare, and reorders the pieces
    /// to download, where the most rare are the ones to the right.
    pub fn rarest_first(&mut self, info_hash: &InfoHash) -> (res: Result<(), Error>)
        requires
            old(self).wf(),
        ensures
            final(self).wf(),
            match res {
                Ok(_) => {
                    &&& has_peers(old(self)@.peers, info_hash@)
                    &&& old(self)@.torrents.contains_key(info_hash@)
                    &&& final(self)@ == (DiskData {
                        torrents: old(self)@.torrents.insert(
                            info_hash@,
                            rarest(
                                old(self)@.torrents[info_hash@],
                                old(self)@.peers,
                                info_hash@,
                            ),
                        ),
                        ..old(self)@
                    })
                },
                Err(e) => final(self)@ == old(self)@ && if has_peers(
                    old(self)@.peers,
                    info_hash@,
                ) {
                    e == Error::TorrentDoesNotExist && !old(self)@.torrents.contains_key(info_hash@)
                } else {
                    e == Error::NoPeers
                },
            },
            res matches Err(Error::NoPeers) <==> forall|id: Seq<u8>| #[trigger]
                old(self)@.peers.contains_key(id) ==> old(self)@.peers[id].info_hash != info_hash@,
    {
        let ghost h = info_hash@;
        let ghost map = self@.peers;
        let peers = self.peer_ctxs.to_vec();
        let ghost list = peers@;
        let mut is_shared: bool = false;
        let mut i: usize = 0;
        while i < peers.len()
            invariant
                i <= peers.len(),
                h == info_hash@,
                is_shared <==> exists|j: int|
                    0 <= j < i && (#[trigger] peers@[j]).1.info_hash@ == h,
            decreases peers.len() - i,
        {
            if same_hash(&peers[i].1.info_hash, info_hash) {
                is_shared = true;
                assert(peers@[i as int].1.info_hash@ == h);
            }
            i += 1;
        }
        proof {
            assert forall|j: int| 0 <= j < list.len() implies map.contains_key(
                (#[trigger] list[j]).0@,
            ) && map[list[j].0@] == peer_data(*list[j].1) by {}
            if is_shared {
                let j = choose|j: int| 0 <= j < list.len() && (#[trigger] list[j]).1.info_hash@ == h;
                assert(map.contains_key(list[j].0@));
            } else if has_peers(map, h) {
                let id = choose|id: Seq<u8>| #[trigger]
                    map.contains_key(id) && map[id].info_hash == h;
                assert(self.peer_ctxs@.contains_key(id));
                let j = choose|j: int| 0 <= j < list.len() && (#[trigger] list[j]).0@ == id;
                assert(list[j].1.info_hash@ == h);
            }
        }
        if !is_shared {
            return Err(Error::NoPeers);
        }
        let torrent = match self.torrents.get(info_hash) {
            Some(torrent) => torrent,
            None => {
                return Err(Error::TorrentDoesNotExist);
            },
        };
        let ghost t = torrent@;
        let ghost goal = scores(map, h, t.pieces);
        let mut ranks: Vec<u64> = Vec::new();
        let mut k: usize = 0;
        while k < torrent.pieces.len()
            invariant
                k <= torrent.pieces.len(),
                h == info_hash@,
                list == peers@,
                torrent.pieces@ == t.pieces,
                goal == scores(map, h, t.pieces),
                ranks@ =~= goal.take(k as int),
                forall|j: int|
                    0 <= j < list.len() ==> map.contains_key((#[trigger] list[j]).0@)
                        && map[list[j].0@] == peer_data(*list[j].1),
                forall|i: int, j: int|
                    0 <= i < j < list.len() ==> (#[trigger] list[i]).0@ != (#[trigger] list[j]).0@,
                forall|id: Seq<u8>| #[trigger]
                    map.contains_key(id) ==> exists|i: int|
                        0 <= i < list.len() && (#[trigger] list[i]).0@ == id,
            decreases torrent.pieces.len() - k,
        {
            let piece: usize = torrent.pieces[k] as usize;
            let mut count: u64 = 0;
            let mut j: usize = 0;
            while j < peers.len()
                invariant
                    j <= peers.len(),
                    h == info_hash@,
                    list == peers@,
                    count == count_peers(list, h, piece as int, j as int),
                    count <= j,
                decreases peers.len() - j,
            {
                let peer = peers[j].1;
                if same_hash(&peer.info_hash, info_hash) && piece < peer.pieces.len()
                    && peer.pieces[piece] {
                    count += 1;
                }
                j += 1;
            }
            proof {
                let seen = map.dom().filter(|id: Seq<u8>| shares_piece(map[id], h, piece as int));
                count_is_score(map, list, h, piece as int, list.len() as int, seen);
            }
            ranks.push(count);
            k += 1;
        }
        assert(goal.take(k as int) =~= goal);
        let torrent = self.torrents.get_mut(info_hash).unwrap();
        torrent.order_pieces(&ranks);
        if torrent.piece_strategy == PieceStrategy::Random {
            torrent.piece_strategy = PieceStrategy::Rarest;
        }
        assert(self.torrents@[h]@ == rarest(t, map, h));
        assert(self@.torrents =~= old(self)@.torrents.insert(h, rarest(t, map, h)));
        Ok(())
    }
}

/// What is to be done after a piece was written to the files.
#[derive(Debug)]
pub struct PieceWritten {
    /// The slice read requests that waited for the piece, to be answered now.
    pub read_reqs: Vec<(SliceId, u32, ReadSliceReq)>,
    /// The size of the piece in bytes.
    pub piece_size: u32,
}

/// Whether the piece `index` is the first one that is downloaded, in random order.
pub open spec fn is_switching(t: TorrentData, index: int) -> bool {
    &&& !is_downloaded(t.bitfield, index)
    &&& t.downloaded_pieces_len == 0
    &&& t.piece_strategy == PieceStrategy::Random
}

/// Whether the piece `index` can be recorded as written to the files:
/// it is a piece of the torrent whose size can be told, and it was given to be written.
pub open spec fn can_record_piece(t: TorrentData, index: int) -> bool {
    &&& 0 <= index < t.info.piece_count()
    &&& has_piece_size(t.info, index)
    &&& t.given[index]
}

impl Disk {
    /// Records that a valid piece was written to the files,
    /// and takes the slice read requests that waited for it.
    /// A piece that is downloaded already stays so.
    ///
    /// If the download algorithm of the pieces is set to "Random", and this
    /// is the first full piece, the algorithm changes to rarest-first.
    pub fn piece_written(&mut self, info_hash: &InfoHash, index: usize) -> (res: Result<
        PieceWritten,
        Error,
    >)
        requires
            old(self).wf(),
            old(self)@.torrents.contains_key(info_hash@),
            can_record_piece(old(self)@.torrents[info_hash@], index as int),
        ensures
            final(self).wf(),
            ({
                let d = old(self)@;
                let h = info_hash@;
                let next = piece_done(d.torrents[h], index as int);
                if is_switching(d.torrents[h], index as int) && !has_peers(d.peers, h) {
                    &&& res matches Err(e) && e == Error::NoPeers
                    &&& final(self)@ == (DiskData { torrents: d.torrents.insert(h, next), ..d })
                } else {
                    &&& res matches Ok(done) && is_reqs(d.slices, h, index as u32, done.read_reqs@)
                        && done.piece_size == piece_size(
                        torrent_info(d.torrents[h].info),
                        index as int,
                    )
                    &&& final(self)@ == (DiskData {
                        torrents: d.torrents.insert(
                            h,
                            if is_switching(d.torrents[h], index as int) {
                                rarest(next, d.peers, h)
                            } else {
                                next
                            },
                        ),
                        slices: reqs_removed(d.slices, h, index as u32),
                        ..d
                    })
                }
            }),
            ({
                let t = old(self)@.torrents[info_hash@];
                let next = final(self)@.torrents[info_hash@];
                let is_first = (index >= t.bitfield.len() || !t.bitfield[index as int])
                    && t.downloaded_pieces_len == 0 && t.piece_strategy == PieceStrategy::Random;
                let is_alone = forall|id: Seq<u8>| #[trigger]
                    old(self)@.peers.contains_key(id) ==> old(self)@.peers[id].info_hash
                        != info_hash@;
                &&& res is Err <==> is_first && is_alone
                &&& next.piece_strategy == if is_first && !is_alone {
                    PieceStrategy::Rarest
                } else {
                    t.piece_strategy
                }
                &&& index < next.bitfield.len() && next.bitfield[index as int]
            }),
    {
        let ghost h = info_hash@;
        let ghost d = self@;
        let ghost next = piece_done(d.torrents[h], index as int);
        let torrent = self.torrents.get_mut(info_hash).unwrap();
        let is_new: bool = index >= torrent.bitfield.len() || !torrent.bitfield[index];
        torrent.set_downloaded(index);
        let size: u32 = torrent.summary.piece_size(index);
        let switches: bool = is_new && torrent.downloaded_pieces_len == 1
            && torrent.piece_strategy == PieceStrategy::Random;
        assert(self.torrents@[h]@ == next);
        assert(self@.torrents =~= d.torrents.insert(h, next));
        if switches {
            // The first piece is downloaded, and the piece order is random.
            match self.rarest_first(info_hash) {
                Ok(_) => {
                    assert(self@.torrents =~= d.torrents.insert(h, rarest(next, d.peers, h)));
                },
                Err(e) => {
                    return Err(e);
                },
            }
        }
        match self.slice_db.remove_read_reqs(&(*info_hash, index as u32)) {
            Ok(read_reqs) => Ok(PieceWritten { read_reqs, piece_size: size }),
            Err(_) => Ok(PieceWritten { read_reqs: Vec::new(), piece_size: size }),
        }
    }

    /// Whether the piece `index` of the torrent `info_hash` can be recorded as written,
    /// see [`Disk::piece_written`].
    pub fn can_record_piece(&self, info_hash: &InfoHash, index: usize) -> (res: bool)
        requires
            self.wf(),
        ensures
            res == (self@.torrents.contains_key(info_hash@) && can_record_piece(
                self@.torrents[info_hash@],
                index as int,
            )),
    {
        match self.torrents.get(info_hash) {
            Some(torrent) => index < torrent.summary.pieces as usize && (index
                != torrent.summary.pieces as usize - 1 || torrent.info.piece_length > 0)
                && torrent.given[index],
            None => false,
        }
    }

    /// Like [`Disk::write_block`], but first tests whether the block can be written.
    /// Returns `None` and changes nothing if it cannot.
    pub fn try_write_block(&mut self, info_hash: &InfoHash, block: Block) -> (res: Option<
        Result<WriteBlock, Error>,
    >)
        requires
            old(self).wf(),
        ensures
            final(self).wf(),
            res is Some <==> old(self)@.torrents.contains_key(info_hash@) && can_write_block(
                old(self)@.torrents[info_hash@],
                block@,
            ),
            match res {
                Some(outcome) => {
                    &&& final(self)@ == (DiskData {
                        torrents: old(self)@.torrents.insert(
                            info_hash@,
                            block_written(old(self)@.torrents[info_hash@], block@),
                        ),
                        ..old(self)@
                    })
                    &&& is_block_outcome(old(self)@.torrents[info_hash@], block@, outcome)
                },
                None => final(self)@ == old(self)@,
            },
    {
        let can_write: bool = match self.torrents.get(info_hash) {
            Some(torrent) => torrent.can_write_block(&block),
            None => false,
        };
        if can_write {
            Some(self.write_block(info_hash, block))
        } else {
            None
        }
    }

    /// Requests blocks of the given `peer_id` that have not been requested
    /// nor downloaded yet, given a `qnt` quantity.
    ///
    /// The blocks are those of the pieces that slice readers are interested in,
    /// then those of the other pieces in their order. Thus slice readers have priority.
    pub fn request_blocks(&mut self, info_hash: &InfoHash, peer_id: &PeerId, qnt: usize) -> (res:
        Result<VecDeque<BlockInfo>, Error>)
        requires
            old(self).wf(),
            old(self)@.torrents.contains_key(info_hash@),
            can_request_blocks(old(self)@, info_hash@, peer_id@, qnt as int),
        ensures
            final(self).wf(),
            res is Ok <==> old(self)@.peers.contains_key(peer_id@),
            match res {
                Ok(blocks) => exists|ranges: Seq<Range<u64>>| #[trigger]
                    torrent_payloads(old(self)@.slices, info_hash@, ranges) && is_request(
                        old(self)@,
                        info_hash@,
                        peer_id@,
                        ranges,
                        qnt as int,
                        blocks@,
                        final(self)@,
                    ),
                Err(e) => e == Error::PeerIdInvalid && final(self)@ == old(self)@,
            },
    {
        self.try_request_blocks(info_hash, peer_id, qnt).unwrap()
    }

    /// Like [`Disk::request_blocks`], but first tests whether blocks can be requested.
    /// Returns `None` and changes nothing if they cannot.
    pub fn try_request_blocks(
        &mut self,
        info_hash: &InfoHash,
        peer_id: &PeerId,
        qnt: usize,
    ) -> (res: Option<Result<VecDeque<BlockInfo>, Error>>)
        requires
            old(self).wf(),
        ensures
            final(self).wf(),
            is_request_outcome(
                old(self)@,
                info_hash@,
                peer_id@,
                qnt as int,
                res,
                final(self)@,
            ),
    {
        let ghost h = info_hash@;
        let ghost d = self@;
        let torrent = match self.torrents.get(info_hash) {
            Some(torrent) => torrent,
            None => {
                return None;
            },
        };
        let peer = match self.peer_ctxs.get(peer_id) {
            Some(peer) => peer,
            None => {
                return Some(Err(Error::PeerIdInvalid));
            },
        };
        let ranges = self.slice_db.payloads(info_hash);
        assert(torrent_payloads(d.slices, h, ranges@));
        if !torrent.can_request(&peer.pieces, &ranges, qnt) {
            return None;
        }
        let torrent = self.torrents.get_mut(info_hash).unwrap();
        let res = torrent.request_blocks(&peer.pieces, &ranges, qnt);
        proof {
            let taken = requested(d.torrents[h], d.peers[peer_id@].pieces, ranges@, qnt as int);
            let next = TorrentData { pieces_blocks: taken.queues, ..d.torrents[h] };
            assert(self.torrents@[h]@ == next);
            assert(self@.torrents =~= d.torrents.insert(h, next));
            assert(is_request(d, h, peer_id@, ranges@, qnt as int, res@, self@));
        }
        Some(Ok(res))
    }

    /// When a peer is choked, or receives an error and must close the
    /// connection, the outgoing/pending blocks of this peer must be
    /// appended back to the list of available blocks.
    pub fn return_block_infos(&mut self, info_hash: &InfoHash, block_infos: &Vec<BlockInfo>) -> (res:
        Result<(), Error>)
        requires
            old(self).wf(),
            old(self)@.torrents.contains_key(info_hash@) || block_infos@.len() > 0,
        ensures
            final(self).wf(),
            res is Ok <==> old(self)@.torrents.contains_key(info_hash@),
            match res {
                Ok(_) => final(self)@ == (DiskData {
                    torrents: old(self)@.torrents.insert(
                        info_hash@,
                        TorrentData {
                            pieces_blocks: returned(
                                old(self)@.torrents[info_hash@].pieces_blocks,
                                block_infos@,
                            ),
                            ..old(self)@.torrents[info_hash@]
                        },
                    ),
                    ..old(self)@
                }),
                Err(e) => e == Error::TorrentDoesNotExist && final(self)@ == old(self)@,
            },
    {
        let ghost h = info_hash@;
        let ghost d = self@;
        let torrent = match self.torrents.get_mut(info_hash) {
            Some(torrent) => torrent,
            None => {
                assert(self@.torrents =~= d.torrents);
                return Err(Error::TorrentDoesNotExist);
            },
        };
        torrent.return_block_infos(block_infos);
        proof {
            let next = TorrentData {
                pieces_blocks: returned(d.torrents[h].pieces_blocks, block_infos@),
                ..d.torrents[h]
            };
            assert(self.torrents@[h]@ == next);
            assert(self@.torrents =~= d.torrents.insert(h, next));
        }
        Ok(())
    }

    /// Whether the torrent `info_hash`, if it exists, lists its files
    /// or tells the length of its only file.
    pub fn has_torrent_files(&self, info_hash: &InfoHash) -> (res: bool)
        requires
            self.wf(),
        ensures
            res == (self@.torrents.contains_key(info_hash@) ==> has_files(
                self@.torrents[info_hash@].info,
            )),
    {
        match self.torrents.get(info_hash) {
            Some(torrent) => test_has_files(&torrent.info),
            None => true,
        }
    }

    /// Whether the torrent `info_hash` exists and has the piece `index`.
    pub fn has_piece(&self, info_hash: &InfoHash, index: usize) -> (res: bool)
        requires
            self.wf(),
        ensures
            res == (self@.torrents.contains_key(info_hash@) && index
                < self@.torrents[info_hash@].info.piece_count()),
    {
        match self.torrents.get(info_hash) {
            Some(torrent) => index < torrent.summary.pieces as usize,
            None => false,
        }
    }

    /// Whether the length of the file at `path` in the torrent `info_hash` is known
    /// if the path is the name of the torrent.
    pub fn has_path_length(&self, info_hash: &InfoHash, path: &Vec<String>) -> (res: bool)
        requires
            self.wf(),
        ensures
            res == (self@.torrents.contains_key(info_hash@) && texts(path@) == seq![
                self@.torrents[info_hash@].info.name,
            ] ==> has_files(self@.torrents[info_hash@].info)),
    {
        match self.torrents.get(info_hash) {
            Some(torrent) => {
                let mut name: Vec<String> = Vec::new();
                name.push(torrent.info.name.clone());
                assert(texts(name@) =~= seq![torrent@.info.name]);
                !same_texts(path, &name) || test_has_files(&torrent.info)
            },
            None => true,
        }
    }

    /// Whether the torrent `info_hash` exists.
    pub fn has_torrent(&self, info_hash: &InfoHash) -> (res: bool)
        ensures
            res == self@.torrents.contains_key(info_hash@),
    {
        self.torrents.get(info_hash).is_some()
    }
}

/// Whether blocks of the torrent `info_hash` can be requested of the peer `peer_id`, if it exists,
/// whatever order its slices are listed in.
pub open spec fn can_request_blocks(
    d: DiskData,
    info_hash: Seq<u8>,
    peer_id: Seq<u8>,
    qnt: int,
) -> bool {
    d.peers.contains_key(peer_id) ==> forall|ranges: Seq<Range<u64>>| #[trigger]
        torrent_payloads(d.slices, info_hash, ranges) ==> can_request(
            d.torrents[info_hash],
            d.peers[peer_id].pieces,
            ranges,
            qnt,
        )
}

/// Whether the blocks `blocks` were requested of the peer `peer_id`,
/// where the slices of the torrent have the ranges `ranges`, and left the disk `after` behind.
pub open spec fn is_request(
    d: DiskData,
    info_hash: Seq<u8>,
    peer_id: Seq<u8>,
    ranges: Seq<Range<u64>>,
    qnt: int,
    blocks: Seq<BlockInfo>,
    after: DiskData,
) -> bool {
    let t = d.torrents[info_hash];
    let taken = requested(t, d.peers[peer_id].pieces, ranges, qnt);
    &&& blocks == taken.blocks
    &&& after == DiskData {
        torrents: d.torrents.insert(
            info_hash,
            TorrentData { pieces_blocks: taken.queues, ..t },
        ),
        ..d
    }
}

/// Whether `res` is what comes of requesting blocks of the peer `peer_id`,
/// and `after` is the disk that it leaves behind.
/// The order in which the slices of the torrent are listed is not told.
pub open spec fn is_request_outcome(
    d: DiskData,
    info_hash: Seq<u8>,
    peer_id: Seq<u8>,
    qnt: int,
    res: Option<Result<VecDeque<BlockInfo>, Error>>,
    after: DiskData,
) -> bool {
    if !d.torrents.contains_key(info_hash) {
        res is None && after == d
    } else if !d.peers.contains_key(peer_id) {
        res matches Some(Err(e)) && e == Error::PeerIdInvalid && after == d
    } else {
        exists|ranges: Seq<Range<u64>>| #[trigger]
            torrent_payloads(d.slices, info_hash, ranges) && if can_request(
                d.torrents[info_hash],
                d.peers[peer_id].pieces,
                ranges,
                qnt,
            ) {
                res matches Some(Ok(blocks)) && is_request(
                    d,
                    info_hash,
                    peer_id,
                    ranges,
                    qnt,
                    blocks@,
                    after,
                )
            } else {
                res is None && after == d
            }
    }
}

/// Global ID of a file in a torrent.
#[derive(Clone, Copy, Debug)]
pub struct FileId {
    /// The info hash of the torrent.
    pub info_hash: InfoHash,
    /// In a multi-file torrent, the index of this file
    /// in the `files` entry of the `info` entry of the torrent file.
    /// In a single-file torrent, `0`.
    pub i: usize,
}

/// The metadata of a file in a torrent.
#[derive(Clone, Copy, Debug, PartialEq, Eq, Structural)]
pub struct FileByPathR {
    /// [`FileId::i`]
    pub i: usize,
    /// File size in bytes.
    pub len: u64,
}

/// What can go wrong with a slice.
#[derive(Debug, PartialEq, Eq)]
pub enum SliceError {
    /// A torrent with this info hash is not found.
    NoTorrent,
    /// No such file path in the torrent.
    NoFilePath,
    /// No such file index in the torrent.
    NoFileIndex,
    /// The range in a torrent file is out of bounds.
    FileRangeOutOfBounds,
    /// Slice DB error.
    Db(SliceDbError),
    /// Reading of a slice block failed (internal).
    ReadBlock(Error),
    /// Removing a prefix of the slice failed (internal).
    RemovePrefix,
}

/// The length of the file `i` of a torrent.
pub open spec fn file_len(info: InfoData, i: int) -> u32 {
    match info.files {
        Some(files) => files[i].length,
        None => info.file_length->0,
    }
}

/// `range` with its end moved to its start if it lies before.
pub open spec fn ascending(range: Range<u64>) -> (u64, u64) {
    (
        range.start,
        if range.end < range.start {
            range.start
        } else {
            range.end
        },
    )
}

/// Why there cannot be a slice of the range `range` in the file `i` of the torrent `info_hash`.
pub open spec fn slice_refusal(
    d: DiskData,
    info_hash: Seq<u8>,
    i: int,
    range: Range<u64>,
) -> Option<SliceError> {
    let info = d.torrents[info_hash].info;
    if !d.torrents.contains_key(info_hash) {
        Some(SliceError::NoTorrent)
    } else if i >= disk_files(info).len() {
        Some(SliceError::NoFileIndex)
    } else if ascending(range).1 > file_len(info, i) {
        Some(SliceError::FileRangeOutOfBounds)
    } else if d.next_slice_id == usize::MAX {
        Some(SliceError::Db(SliceDbError::GenIdFailed))
    } else {
        None
    }
}

/// The range in the torrent representing the same set as `range` in the file `i`.
pub open spec fn range_in_torrent(info: InfoData, i: int, range: Range<u64>) -> Range<u64> {
    let start = disk_files(info)[i].length;
    Range {
        start: (start + ascending(range).0) as u64,
        end: (start + ascending(range).1) as u64,
    }
}

/// Whether `res` is the metadata of the file at `path` in the torrent `info_hash`.
pub open spec fn is_file_by_path(
    d: DiskData,
    info_hash: Seq<u8>,
    path: Seq<Seq<char>>,
    res: Result<FileByPathR, SliceError>,
) -> bool {
    let info = d.torrents[info_hash].info;
    match res {
        Ok(file) => {
            &&& d.torrents.contains_key(info_hash)
            &&& first_with_path(disk_files(info), path, file.i as int)
            &&& file.len == file_len(info, file.i as int)
        },
        Err(e) => if d.torrents.contains_key(info_hash) {
            &&& e == SliceError::NoFilePath
            &&& forall|i: int| !first_with_path(disk_files(info), path, i)
        } else {
            e == SliceError::NoTorrent
        },
    }
}

/// Whether making a slice of the range `range` in the file `file_id`
/// gives `res` and leads to the disk `after`.
pub open spec fn is_new_slice(
    d: DiskData,
    file_id: FileId,
    range: Range<u64>,
    res: Result<SliceId, SliceError>,
    after: DiskData,
) -> bool {
    let h = file_id.info_hash@;
    let i = file_id.i as int;
    match slice_refusal(d, h, i, range) {
        Some(refusal) => res matches Err(e) && e == refusal && after == d,
        None => res matches Ok(id) && id == d.next_slice_id && after == DiskData {
            slices: d.slices.insert(
                id,
                SliceAttr {
                    info_hash: file_id.info_hash,
                    payload: range_in_torrent(d.torrents[h].info, i, range),
                    read_req: None,
                },
            ),
            next_slice_id: (id + 1) as usize,
            ..d
        },
    }
}

/// A file ends inside the torrent.
proof fn file_is_inside(info: InfoData, i: int)
    requires
        has_files(info),
        0 <= i < disk_files(info).len(),
    ensures
        disk_files(info)[i].length + file_len(info, i) <= info.size(),
{
    match info.files {
        Some(files) => {
            file_start_succ(files, i);
            file_start_monotonic(files, i + 1, i + 1);
        },
        None => {},
    }
}

/// What came of reading a slice.
#[derive(Debug, PartialEq, Eq)]
pub enum ReadSlice {
    /// The slice cannot be read.
    Fail(SliceError),
    /// The slice is empty. The answer is empty.
    Empty,
    /// The answer is this region of the torrent, which is downloaded.
    Read(BlockInfo),
    /// The request is answered when a piece is downloaded.
    Wait,
}

/// Whether the piece that the slice `slice_id` starts in has an index
/// and a bit that tells whether it is downloaded.
pub open spec fn can_read_slice(d: DiskData, slice_id: SliceId) -> bool {
    let attr = d.slices[slice_id];
    let t = d.torrents[attr.info_hash@];
    let piece_len = t.info.piece_length as int;
    d.slices.contains_key(slice_id) && attr.payload.start < attr.payload.end ==> {
        &&& attr.payload.start < piece_len * (u32::MAX + 1)
        &&& attr.payload.start as int / piece_len < t.bitfield.len()
    }
}

/// The region of the torrent that a read of the slice `slice_id` gives,
/// and whether it is downloaded.
pub open spec fn next_read(d: DiskData, slice_id: SliceId) -> Option<(bool, BlockInfo)> {
    let attr = d.slices[slice_id];
    let t = d.torrents[attr.info_hash@];
    if attr.payload.start < attr.payload.end {
        let block_info = slice_prefix(attr.payload, t.info.piece_length as int);
        Some((t.bitfield[block_info.index as int], block_info))
    } else {
        None
    }
}

/// What comes of reading the slice `slice_id`.
pub open spec fn slice_reading(d: DiskData, slice_id: SliceId) -> ReadSlice {
    if !d.slices.contains_key(slice_id) {
        ReadSlice::Fail(SliceError::Db(SliceDbError::NoSlice))
    } else {
        match next_read(d, slice_id) {
            None => ReadSlice::Empty,
            Some((is_downloaded, block_info)) => if is_downloaded {
                ReadSlice::Read(block_info)
            } else if d.slices[slice_id].read_req is None {
                ReadSlice::Wait
            } else {
                ReadSlice::Fail(SliceError::Db(SliceDbError::MultipleRead))
            },
        }
    }
}

/// The disk after the slice `slice_id` was read on behalf of `recipient`.
pub open spec fn slice_read(d: DiskData, slice_id: SliceId, recipient: u64) -> DiskData {
    if slice_reading(d, slice_id) == ReadSlice::Wait {
        let block_info = (next_read(d, slice_id)->0).1;
        DiskData {
            slices: d.slices.insert(
                slice_id,
                SliceAttr {
                    read_req: Some((block_info.index, ReadSliceReq { block_info, recipient })),
                    ..d.slices[slice_id]
                },
            ),
            ..d
        }
    } else {
        d
    }
}

impl Disk {
    /// Returns the metadata of the file at `path` in the torrent `info_hash`.
    pub fn file_by_path_msg(&self, info_hash: &InfoHash, path: &Vec<String>) -> (res: Result<
        FileByPathR,
        SliceError,
    >)
        requires
            self.wf(),
            self@.torrents.contains_key(info_hash@) && texts(path@) == seq![
                self@.torrents[info_hash@].info.name,
            ] ==> has_files(self@.torrents[info_hash@].info),
        ensures
            is_file_by_path(self@, info_hash@, texts(path@), res),
    {
        let torrent = match self.torrents.get(info_hash) {
            Some(torrent) => torrent,
            None => {
                return Err(SliceError::NoTorrent);
            },
        };
        let ghost all = disk_files(torrent@.info);
        let files = &torrent.summary.files;
        assert(disk_files_data(files@) == all);
        let mut i: usize = 0;
        while i < files.len()
            invariant
                i <= files.len(),
                files == torrent.summary.files,
                torrent.wf(),
                self@.torrents.contains_key(info_hash@),
                torrent@ == self@.torrents[info_hash@],
                all == disk_files(torrent@.info),
                disk_files_data(files@) == all,
                texts(path@) == seq![torrent@.info.name] ==> has_files(torrent@.info),
                forall|j: int| 0 <= j < i ==> (#[trigger] all[j]).path != texts(path@),
            decreases files.len() - i,
        {
            assert(all[i as int] == files@[i as int]@);
            if same_texts(&files[i].path, path) {
                assert(first_with_path(all, texts(path@), i as int));
                return Ok(FileByPathR { i, len: torrent.file_len(i) as u64 });
            }
            i += 1;
        }
        Err(SliceError::NoFilePath)
    }

    /// Makes a slice of a range in a torrent file.
    pub fn new_slice_msg(&mut self, file_id: &FileId, range_in_file: Range<u64>) -> (res: Result<
        SliceId,
        SliceError,
    >)
        requires
            old(self).wf(),
            old(self)@.torrents.contains_key(file_id.info_hash@) && file_id.i == 0 ==> has_files(
                old(self)@.torrents[file_id.info_hash@].info,
            ),
        ensures
            final(self).wf(),
            is_new_slice(old(self)@, *file_id, range_in_file, res, final(self)@),
    {
        let start: u64 = range_in_file.start;
        let end: u64 = if range_in_file.end < start {
            start
        } else {
            range_in_file.end
        };
        let torrent = match self.torrents.get(&file_id.info_hash) {
            Some(torrent) => torrent,
            None => {
                return Err(SliceError::NoTorrent);
            },
        };
        let ghost d = self@;
        let ghost h = file_id.info_hash@;
        let ghost info = torrent@.info;
        let i: usize = file_id.i;
        assert(disk_files_data(torrent.summary.files@) == disk_files(info));
        if i >= torrent.summary.files.len() {
            return Err(SliceError::NoFileIndex);
        }
        let file_start: u64 = torrent.summary.files[i].length;
        let file_length: u64 = torrent.file_len(i) as u64;
        if end > file_length {
            return Err(SliceError::FileRangeOutOfBounds);
        }
        proof {
            assert(disk_files(info)[i as int] == torrent.summary.files@[i as int]@);
            file_is_inside(info, i as int);
        }
        let range = file_start + start..file_start + end;
        let ghost attr = SliceAttr {
            info_hash: file_id.info_hash,
            payload: range,
            read_req: None::<(u32, ReadSliceReq)>,
        };
        match self.slice_db.insert(file_id.info_hash, range) {
            Ok(id) => {
                assert(self@.slices =~= d.slices.insert(id, attr));
                Ok(id)
            },
            Err(e) => Err(SliceError::Db(e)),
        }
    }

    /// Calculates a response to a read slice request.
    /// Suppose it returns `Ok(a)`.
    /// If `a` is `None`, the response content chunk is empty.
    /// If `a` is `Some((is_downloaded, block_info))`,
    /// `block_info` describes the response content chunk,
    /// `is_downloaded` is whether the piece
    /// which the response content chunk belongs to is downloaded,
    /// and `block_info` is not empty.
    pub fn read_slice_msg(&self, slice_id: SliceId) -> (res: Result<
        Option<(bool, BlockInfo)>,
        SliceError,
    >)
        requires
            self.wf(),
            can_read_slice(self@, slice_id),
        ensures
            res is Ok <==> self@.slices.contains_key(slice_id),
            match res {
                Ok(a) => a == next_read(self@, slice_id) && (a is Some <==> self@.slices[
                    slice_id
                ].payload.start < self@.slices[slice_id].payload.end) && (a is Some ==> (
                a->0).1.len > 0),
                Err(e) => e == SliceError::Db(SliceDbError::NoSlice),
            },
    {
        let attr = match self.slice_db.get(slice_id) {
            Some(attr) => attr,
            None => {
                return Err(SliceError::Db(SliceDbError::NoSlice));
            },
        };
        assert(self@.slices.contains_key(slice_id));
        let torrent = match self.torrents.get(attr.get_info_hash()) {
            Some(torrent) => torrent,
            None => {
                return Err(SliceError::NoTorrent);
            },
        };
        let range = attr.get_payload();
        if range.start >= range.end {
            return Ok(None);
        }
        let block_info = calc_slice_prefix(
            range.start..range.end,
            torrent.summary.piece_length,
        );
        let is_downloaded: bool = torrent.bitfield[block_info.index as usize];
        Ok(Some((is_downloaded, block_info)))
    }

    /// Tests [`can_read_slice`].
    pub fn can_read_slice(&self, slice_id: SliceId) -> (res: bool)
        requires
            self.wf(),
        ensures
            res == can_read_slice(self@, slice_id),
    {
        let attr = match self.slice_db.get(slice_id) {
            Some(attr) => attr,
            None => {
                return true;
            },
        };
        assert(self@.slices.contains_key(slice_id));
        let torrent = match self.torrents.get(attr.get_info_hash()) {
            Some(torrent) => torrent,
            None => {
                return true;
            },
        };
        let range = attr.get_payload();
        if range.start >= range.end {
            return true;
        }
        let piece_len: u64 = torrent.summary.piece_length as u64;
        if piece_len == 0 {
            return false;
        }
        let index: u64 = range.start / piece_len;
        proof {
            let x = range.start as int;
            let d = piece_len as int;
            let q = x / d;
            vstd::arithmetic::div_mod::lemma_fundamental_div_mod(x, d);
            assert(q <= u32::MAX <==> x < d * (u32::MAX + 1)) by (nonlinear_arith)
                requires
                    x == d * q + x % d,
                    0 <= x % d < d,
                    0 <= q,
            ;
        }
        index <= u32::MAX as u64 && index < torrent.bitfield.len() as u64
    }

    /// Reads a slice on behalf of `recipient`.
    /// For every slice, at most one non-answered read request is allowed.
    pub fn read_slice(&mut self, slice_id: SliceId, recipient: u64) -> (res: ReadSlice)
        requires
            old(self).wf(),
            can_read_slice(old(self)@, slice_id),
        ensures
            final(self).wf(),
            res == slice_reading(old(self)@, slice_id),
            final(self)@ == slice_read(old(self)@, slice_id, recipient),
    {
        let ghost d = self@;
        match self.read_slice_msg(slice_id) {
            Err(e) => ReadSlice::Fail(e),
            Ok(None) => ReadSlice::Empty,
            Ok(Some((is_downloaded, block_info))) => if is_downloaded {
                // Answers with the prefix of the slice immediately.
                ReadSlice::Read(block_info)
            } else {
                // Inserts the read request into the queue.
                let req = ReadSliceReq { block_info, recipient };
                let inserted = self.slice_db.insert_read_req(slice_id, block_info.index, req);
                proof {
                    assert(self@.slices =~= slice_read(d, slice_id, recipient).slices);
                    assert forall|id: SliceId| #[trigger]
                        self@.slices.contains_key(id) implies is_inside(
                        self@,
                        self@.slices[id],
                    ) by {
                        assert(d.slices.contains_key(id));
                    }
                }
                match inserted {
                    Ok(_) => ReadSlice::Wait,
                    Err((_, e)) => ReadSlice::Fail(SliceError::Db(e)),
                }
            },
        }
    }

    /// Tells where the region `block_info` of the slice `slice_id` is read from.
    /// When it is read, [`Disk::remove_slice_prefix`] is to be called.
    pub fn read_slice_block(&self, slice_id: SliceId, block_info: &BlockInfo) -> (res: Result<
        BlockRead,
        SliceError,
    >)
        requires
            self.wf(),
        ensures
            match res {
                Ok(read) => self@.slices.contains_key(slice_id) && is_block_read(
                    self@,
                    self@.slices[slice_id].info_hash@,
                    *block_info,
                    read,
                ),
                Err(e) => if self@.slices.contains_key(slice_id) {
                    &&& block_place(
                        self@.torrents[self@.slices[slice_id].info_hash@].info,
                        *block_info,
                    ) is None
                    &&& e matches SliceError::ReadBlock(Error::FileOpenError(text)) && text@
                        == offset_exceeds()
                } else {
                    e == SliceError::Db(SliceDbError::NoSlice)
                },
            },
    {
        let attr = match self.slice_db.get(slice_id) {
            Some(attr) => attr,
            None => {
                return Err(SliceError::Db(SliceDbError::NoSlice));
            },
        };
        assert(self@.slices.contains_key(slice_id));
        match self.read_block(attr.get_info_hash(), block_info) {
            Ok(read) => Ok(read),
            Err(e) => Err(SliceError::ReadBlock(e)),
        }
    }

    /// Removes the prefix of length `block_len`, which was read, from the slice.
    pub fn remove_slice_prefix(&mut self, slice_id: SliceId, block_len: u32) -> (res: Result<
        (),
        SliceError,
    >)
        requires
            old(self).wf(),
        ensures
            final(self).wf(),
            match res {
                Ok(_) => {
                    let attr = old(self)@.slices[slice_id];
                    &&& old(self)@.slices.contains_key(slice_id)
                    &&& attr.payload.start + block_len <= attr.payload.end
                    &&& final(self)@ == (DiskData {
                        slices: old(self)@.slices.insert(
                            slice_id,
                            SliceAttr {
                                payload: Range {
                                    start: (attr.payload.start + block_len) as u64,
                                    end: attr.payload.end,
                                },
                                ..attr
                            },
                        ),
                        ..old(self)@
                    })
                },
                Err(e) => {
                    &&& final(self)@ == old(self)@
                    &&& if old(self)@.slices.contains_key(slice_id) {
                        e == SliceError::RemovePrefix && old(
                            self,
                        )@.slices[slice_id].payload.start + block_len
                            > old(self)@.slices[slice_id].payload.end
                    } else {
                        e == SliceError::Db(SliceDbError::NoSlice)
                    }
                },
            },
    {
        let ghost d = self@;
        let attr = match self.slice_db.get(slice_id) {
            Some(attr) => attr,
            None => {
                return Err(SliceError::Db(SliceDbError::NoSlice));
            },
        };
        assert(d.slices.contains_key(slice_id));
        let range = attr.get_payload();
        let rest = match range_remove_prefix(range.start..range.end, block_len as u64) {
            Some(rest) => rest,
            None => {
                return Err(SliceError::RemovePrefix);
            },
        };
        match self.slice_db.get_mut(slice_id) {
            Some(attr) => {
                *attr.get_payload_mut() = rest;
            },
            None => {
                return Err(SliceError::Db(SliceDbError::NoSlice));
            },
        }
        proof {
            let next = SliceAttr { payload: rest, ..d.slices[slice_id] };
            assert(self@.slices =~= d.slices.insert(slice_id, next));
            assert forall|id: SliceId| #[trigger] self@.slices.contains_key(id) implies is_inside(
                self@,
                self@.slices[id],
            ) by {
                assert(d.slices.contains_key(id));
            }
        }
        Ok(())
    }

    /// Drops a slice.
    pub fn drop_slice(&mut self, slice_id: SliceId) -> (res: Result<(), SliceError>)
        requires
            old(self).wf(),
        ensures
            final(self).wf(),
            final(self)@ == (DiskData {
                slices: old(self)@.slices.remove(slice_id),
                ..old(self)@
            }),
            res is Ok <==> old(self)@.slices.contains_key(slice_id),
            res matches Err(e) ==> e == SliceError::Db(SliceDbError::NoSlice),
    {
        let res = self.slice_db.remove(slice_id);
        assert forall|id: SliceId| #[trigger] self@.slices.contains_key(id) implies is_inside(
            self@,
            self@.slices[id],
        ) by {
            assert(old(self)@.slices.contains_key(id));
        }
        match res {
            Ok(_) => Ok(()),
            Err(e) => Err(SliceError::Db(e)),
        }
    }
}

/// A file of the skeleton of a torrent: an empty file and the directory it is in.
#[derive(Debug, PartialEq, Eq)]
pub struct SkeletonFile {
    /// The components of the path of the directory.
    pub dir: Vec<String>,
    /// The name of the file in the directory.
    pub name: Option<String>,
}

/// What a [`SkeletonFile`] holds.
pub ghost struct SkeletonData {
    pub dir: Seq<Seq<char>>,
    pub name: Option<Seq<char>>,
}

impl View for SkeletonFile {
    type V = SkeletonData;

    open spec fn view(&self) -> SkeletonData {
        SkeletonData {
            dir: texts(self.dir@),
            name: match self.name {
                Some(name) => Some(name@),
                None => None,
            },
        }
    }
}

/// The file at `path` in the directory `base` as a part of the skeleton.
pub open spec fn skeleton_file(base: Seq<Seq<char>>, path: Seq<Seq<char>>) -> SkeletonData {
    if path.len() == 0 {
        SkeletonData { dir: base, name: None }
    } else {
        SkeletonData { dir: base + path.drop_last(), name: Some(path.last()) }
    }
}

/// What is to be done after a torrent was added.
#[derive(Debug)]
pub struct NewTorrent {
    /// The URI paths of the files of the torrent, to be told to the user.
    pub uri_paths: Vec<String>,
    /// The "skeleton" of the torrent to be created: directories and empty files.
    pub skeleton: Vec<SkeletonFile>,
    /// The peers to be told that the Info is downloaded,
    /// and everything is ready to start the download.
    pub peers: Vec<PeerId>,
}

/// Whether `peers` lists every peer of `map` once.
pub open spec fn lists_peers(map: Map<Seq<u8>, PeerData>, peers: Seq<PeerId>) -> bool {
    &&& forall|i: int| 0 <= i < peers.len() ==> map.contains_key((#[trigger] peers[i])@)
    &&& forall|i: int, j: int|
        0 <= i < j < peers.len() ==> (#[trigger] peers[i])@ != (#[trigger] peers[j])@
    &&& forall|id: Seq<u8>| #[trigger]
        map.contains_key(id) ==> exists|i: int| 0 <= i < peers.len() && (#[trigger] peers[i])@ == id
}

/// Whether `todo` is what is to be done after the torrent `info_hash` was added to the disk `d`.
pub open spec fn is_new_torrent(
    d: DiskData,
    info_hash: Seq<u8>,
    info: InfoData,
    todo: NewTorrent,
) -> bool {
    let files = disk_files(info);
    let base = seq![d.download_dir, info.name];
    &&& texts(todo.uri_paths@) == files.map_values(
        |f: DiskFileData| uri_path(info_hash, f.path),
    )
    &&& todo.skeleton@.map_values(|f: SkeletonFile| f@) == files.map_values(
        |f: DiskFileData| skeleton_file(base, f.path),
    )
    &&& lists_peers(d.peers, todo.peers@)
}

/// The disk `d` with the download `t` of the torrent `info_hash`.
pub open spec fn with_torrent(d: DiskData, info_hash: Seq<u8>, t: TorrentData) -> DiskData {
    DiskData { torrents: d.torrents.insert(info_hash, t), ..d }
}

/// `rand::seq::SliceRandom::shuffle` with `rand::thread_rng`:
/// the same elements, in an order that is up to chance.
#[verifier::external_body]
fn shuffle(pieces: &mut Vec<u32>)
    ensures
        final(pieces)@.to_multiset() == old(pieces)@.to_multiset(),
{
    pieces.shuffle(&mut rand::thread_rng())
}

/// Elements that are the pieces of a torrent in any order.
proof fn shuffled_is_piece_order(before: Seq<u32>, after: Seq<u32>, n: nat)
    requires
        is_piece_order(before, n),
        after.to_multiset() == before.to_multiset(),
    ensures
        is_piece_order(after, n),
{
    broadcast use vstd::seq_lib::group_to_multiset_ensures;

    before.lemma_multiset_has_no_duplicates();
    after.lemma_multiset_has_no_duplicates_conv();
    assert(after.len() == after.to_multiset().len());
    assert(before.len() == before.to_multiset().len());
    assert forall|i: int| 0 <= i < after.len() implies (#[trigger] after[i]) < n by {
        assert(after.to_multiset().count(after[i]) > 0);
        assert(before.contains(after[i]));
        let k = before.index_of(after[i]);
        assert(before[k] < n);
    }
    assert forall|p: u32| p < n implies #[trigger] after.contains(p) by {
        assert(before.contains(p));
        assert(before.to_multiset().count(p) > 0);
    }
}

impl Disk {
    /// Adds a torrent, with its pieces to be downloaded in the order `order`.
    /// `blocks` are the blocks of the torrent, from the first piece to the last.
    pub fn add_torrent(
        &mut self,
        torrent_ctx: TorrentCtx,
        order: Vec<u32>,
        blocks: &Vec<BlockInfo>,
    ) -> (res: Result<NewTorrent, Error>)
        requires
            old(self).wf(),
            info_fits(torrent_ctx.info@),
            is_piece_order(order@, torrent_ctx.info@.piece_count()),
            blocks_in_order(blocks@),
        ensures
            final(self).wf(),
            res is Ok <==> !old(self)@.torrents.contains_key(torrent_ctx.info_hash@),
            match res {
                Ok(todo) => {
                    &&& is_new_torrent(
                        old(self)@,
                        torrent_ctx.info_hash@,
                        torrent_ctx.info@,
                        todo,
                    )
                    &&& final(self)@ == with_torrent(
                        old(self)@,
                        torrent_ctx.info_hash@,
                        started(
                            torrent_ctx.info@,
                            torrent_ctx.bitfield@,
                            order@,
                            blocks@,
                        ),
                    )
                },
                Err(e) => e == Error::NoDuplicateTorrent && final(self)@ == old(self)@,
            },
    {
        let ghost d = self@;
        let TorrentCtx { info_hash, info, bitfield } = torrent_ctx;
        let ghost h = info_hash@;
        if self.torrents.get(&info_hash).is_some() {
            return Err(Error::NoDuplicateTorrent);
        }
        let peers = self.peer_ids();
        let ghost start = started(info@, bitfield@, order@, blocks@);
        let torrent = TorrentState::new(info, bitfield, order, blocks);
        let uri_paths = list_uri_paths(&info_hash, &torrent.summary.files);
        self.torrents.insert(info_hash, torrent);
        assert(self.torrents@[h]@ == start);
        assert(self@.torrents =~= d.torrents.insert(h, start));
        assert forall|id: SliceId| #[trigger] self@.slices.contains_key(id) implies is_inside(
            self@,
            self@.slices[id],
        ) by {
            assert(is_inside(d, d.slices[id]));
        }
        let base = self.base_path(&info_hash);
        let skeleton = list_skeleton(
            &base,
            &self.torrents.get(&info_hash).unwrap().summary.files,
        );
        Ok(NewTorrent { uri_paths, skeleton, peers })
    }

    /// Initializes necessary data. The pieces are to be downloaded in a random order.
    /// `blocks` are the blocks of the torrent, from the first piece to the last.
    ///
    /// # Important
    /// Must only be called after torrent has Info downloaded
    pub fn new_torrent(&mut self, torrent_ctx: TorrentCtx, blocks: &Vec<BlockInfo>) -> (res: Result<
        NewTorrent,
        Error,
    >)
        requires
            old(self).wf(),
            info_fits(torrent_ctx.info@),
            blocks_in_order(blocks@),
        ensures
            final(self).wf(),
            res is Ok <==> !old(self)@.torrents.contains_key(torrent_ctx.info_hash@),
            match res {
                Ok(todo) => {
                    &&& is_new_torrent(
                        old(self)@,
                        torrent_ctx.info_hash@,
                        torrent_ctx.info@,
                        todo,
                    )
                    &&& exists|order: Seq<u32>| #[trigger]
                        is_piece_order(order, torrent_ctx.info@.piece_count()) && final(self)@
                            == with_torrent(
                            old(self)@,
                            torrent_ctx.info_hash@,
                            started(torrent_ctx.info@, torrent_ctx.bitfield@, order, blocks@),
                        )
                },
                Err(e) => e == Error::NoDuplicateTorrent && final(self)@ == old(self)@,
            },
    {
        let n: u32 = torrent_ctx.info.pieces();
        let mut order: Vec<u32> = Vec::new();
        let mut i: u32 = 0;
        while i < n
            invariant
                i <= n,
                order@.len() == i,
                forall|j: int| 0 <= j < i ==> #[trigger] order@[j] == j,
            decreases n - i,
        {
            order.push(i);
            i += 1;
        }
        let ghost ascending_order = order@;
        proof {
            assert forall|p: u32| p < n implies #[trigger] order@.contains(p) by {
                assert(order@[p as int] == p);
            }
        }
        shuffle(&mut order);
        proof {
            shuffled_is_piece_order(ascending_order, order@, n as nat);
        }
        self.add_torrent(torrent_ctx, order, blocks)
    }

    /// The IDs of all peers, in an order that is not told.
    fn peer_ids(&self) -> (res: Vec<PeerId>)
        ensures
            lists_peers(self@.peers, res@),
    {
        let peers = self.peer_ctxs.to_vec();
        let mut res: Vec<PeerId> = Vec::new();
        let mut i: usize = 0;
        while i < peers.len()
            invariant
                i <= peers.len(),
                res@.len() == i,
                forall|j: int| 0 <= j < i ==> (#[trigger] res@[j])@ == peers@[j].0@,
            decreases peers.len() - i,
        {
            res.push(*peers[i].0);
            i += 1;
        }
        proof {
            let map = self@.peers;
            assert forall|j: int| 0 <= j < res@.len() implies map.contains_key(
                (#[trigger] res@[j])@,
            ) by {
                assert(self.peer_ctxs@.contains_key(peers@[j].0@));
            }
            assert forall|i: int, j: int| 0 <= i < j < res@.len() implies (#[trigger] res@[i])@ != (
            #[trigger] res@[j])@ by {
                assert(peers@[i].0@ != peers@[j].0@);
            }
            assert forall|id: Seq<u8>| #[trigger] map.contains_key(id) implies exists|i: int|
                0 <= i < res@.len() && (#[trigger] res@[i])@ == id by {
                assert(self.peer_ctxs@.contains_key(id));
                let i = choose|i: int| 0 <= i < peers@.len() && (#[trigger] peers@[i]).0@ == id;
                assert(res@[i]@ == id);
            }
        }
        res
    }
}

/// Renders the URI paths of files.
fn list_uri_paths(info_hash: &InfoHash, files: &Vec<DiskFile>) -> (res: Vec<String>)
    ensures
        texts(res@) == disk_files_data(files@).map_values(
            |f: DiskFileData| uri_path(info_hash@, f.path),
        ),
{
    let ghost goal = disk_files_data(files@).map_values(
        |f: DiskFileData| uri_path(info_hash@, f.path),
    );
    let mut res: Vec<String> = Vec::new();
    let mut i: usize = 0;
    while i < files.len()
        invariant
            i <= files.len(),
            goal == disk_files_data(files@).map_values(
                |f: DiskFileData| uri_path(info_hash@, f.path),
            ),
            texts(res@) =~= goal.take(i as int),
        decreases files.len() - i,
    {
        let ghost before = res@;
        let path = render_uri_path_unchecked(info_hash, &files[i].path);
        res.push(path);
        assert(texts(res@) =~= texts(before).push(path@));
        i += 1;
    }
    assert(goal.take(i as int) =~= goal);
    res
}

/// Lists the files of the skeleton of a torrent.
fn list_skeleton(base: &Vec<String>, files: &Vec<DiskFile>) -> (res: Vec<SkeletonFile>)
    ensures
        res@.map_values(|f: SkeletonFile| f@) == disk_files_data(files@).map_values(
            |f: DiskFileData| skeleton_file(texts(base@), f.path),
        ),
{
    let ghost goal = disk_files_data(files@).map_values(
        |f: DiskFileData| skeleton_file(texts(base@), f.path),
    );
    let mut res: Vec<SkeletonFile> = Vec::new();
    let mut i: usize = 0;
    while i < files.len()
        invariant
            i <= files.len(),
            goal == disk_files_data(files@).map_values(
                |f: DiskFileData| skeleton_file(texts(base@), f.path),
            ),
            res@.map_values(|f: SkeletonFile| f@) =~= goal.take(i as int),
        decreases files.len() - i,
    {
        let ghost before = res@.map_values(|f: SkeletonFile| f@);
        // The file is the last item of its path, the others are directories.
        let mut dir = clone_texts(base);
        let mut path = clone_texts(&files[i].path);
        let name = path.pop();
        append_texts(&mut dir, &path);
        let file = SkeletonFile { dir, name };
        proof {
            let whole = texts(files@[i as int].path@);
            if whole.len() > 0 {
                assert(texts(path@) =~= whole.drop_last());
            } else {
                assert(texts(path@) =~= whole);
                assert(texts(base@) + texts(path@) =~= texts(base@));
            }
            assert(file@ == skeleton_file(texts(base@), whole));
        }
        res.push(file);
        assert(res@.map_values(|f: SkeletonFile| f@) =~= before.push(file@));
        i += 1;
    }
    assert(goal.take(i as int) =~= goal);
    res
}

} // verus!
