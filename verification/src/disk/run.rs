//! How messages to the disk are handled.
use crate::disk::layout::{block_place, has_files, info_fits, offset_exceeds, test_info_fits};
use crate::disk::slice::{InfoHash, SliceDbError, SliceId};
use crate::disk::torrent::{
    blocks_in_order, can_write_block, is_piece_order, is_valid, returned, started,
    test_blocks_in_order, TorrentData,
};
use crate::disk::write_plan::FileWrite;
use crate::disk::{
    base_components, block_written, can_read_slice, is_block_outcome, is_block_read,
    is_file_by_path, is_new_slice, is_new_torrent, is_request_outcome, peer_data, slice_read,
    slice_reading, with_torrent, BlockRead, Disk, DiskData, FileByPathR, FileId, NewTorrent,
    ReadSlice, SliceError, WriteBlock,
};
use crate::error::Error;
use crate::peer::{PeerCtx, PeerId};
use crate::tcp_wire::{Block, BlockInfo};
use crate::text::texts;
use crate::torrent::TorrentCtx;
use std::collections::VecDeque;
use std::ops::Range;
use vstd::prelude::*;

verus! {

/// A message to the disk.
#[derive(Debug)]
pub enum DiskMsg {
    /// After the client downloaded the Info from peers, this message will be
    /// sent, to create the skeleton of the torrent on disk (empty files
    /// and folders), and to add the torrent.
    NewTorrent {
        /// The torrent.
        torrent_ctx: TorrentCtx,
        /// The blocks of the torrent, from the first piece to the last.
        blocks: Vec<BlockInfo>,
    },
    /// The Peer does not have an ID until the handshake,
    /// when that happens, this message will be sent immediately
    /// to add the peer. It is also sent when the peer has got more pieces.
    NewPeer(PeerCtx),
    /// Read a block of a torrent.
    ReadBlock {
        /// The torrent.
        info_hash: InfoHash,
        /// The place of the block.
        block_info: BlockInfo,
    },
    /// Validate that the hash of all the blocks of a piece
    /// matches the hash in the Info.
    ValidatePiece {
        /// The torrent.
        info_hash: InfoHash,
        /// The index of the piece.
        piece: usize,
    },
    /// Open a file.
    OpenFile(String),
    /// Write the given block to disk.
    WriteBlock {
        /// The torrent.
        info_hash: InfoHash,
        /// The block.
        block: Block,
    },
    /// Request block infos that the peer has, that we do not have nor
    /// requested it.
    RequestBlocks {
        /// The torrent.
        info_hash: InfoHash,
        /// The peer.
        peer_id: PeerId,
        /// How many blocks to request.
        qnt: usize,
    },
    /// When a peer is Choked, or receives an error and must close the
    /// connection, the outgoing/pending blocks of this peer must be
    /// appended back to the list of available block_infos.
    ReturnBlockInfos(InfoHash, Vec<BlockInfo>),
    /// Stop.
    Quit,
    /// For the HTTP server.
    /// Returns the metadata of the file at `path` in the torrent `info_hash`.
    FileByPath {
        /// The torrent.
        info_hash: InfoHash,
        /// The path of the file in the torrent.
        path: Vec<String>,
    },
    /// For the HTTP server.
    NewSlice {
        /// The file.
        file_id: FileId,
        /// The range in the file.
        range_in_file: Range<u64>,
    },
    /// For the HTTP server.
    /// Removes and returns a prefix of the slice.
    /// For every slice, at most one non-answered read request is allowed.
    /// If the slice is not empty, the result will be not empty.
    ReadSlice {
        /// The slice.
        slice_id: SliceId,
        /// The number by which the recipient of the answer is found.
        recipient: u64,
    },
    /// For the HTTP server.
    DropSlice {
        /// The slice.
        slice_id: SliceId,
    },
}

/// What is to be done after a message was handled.
#[derive(Debug)]
pub enum DiskAction {
    /// The message cannot be handled. Nothing was changed.
    Refuse,
    /// Stop handling messages.
    Stop(Result<(), Error>),
    /// Nothing.
    Continue,
    /// Create the skeleton of a torrent.
    CreateTorrent(NewTorrent),
    /// Read these bytes, answer with them, and count them as uploaded.
    Read(BlockRead),
    /// Open a file and answer with it.
    Open(String),
    /// Write the piece `index` to files in the directory `base`,
    /// then go on with [`Disk::piece_written`].
    Write {
        /// The torrent.
        info_hash: InfoHash,
        /// The index of the piece.
        index: usize,
        /// The directory of the torrent.
        base: Vec<String>,
        /// What to write.
        writes: Vec<FileWrite>,
    },
    /// Answer with these blocks.
    AnswerBlocks(VecDeque<BlockInfo>),
    /// Answer with the result of the validation.
    AnswerValidation(Result<(), Error>),
    /// Tell the torrent that blocks are available.
    BlockAvailable(InfoHash),
    /// Answer with the metadata of a file.
    AnswerFile(Result<FileByPathR, SliceError>),
    /// Answer with the ID of a slice.
    AnswerSlice(Result<SliceId, SliceError>),
    /// Go on reading a slice.
    ReadSlice(ReadSlice),
    /// Answer that a slice was dropped.
    AnswerDrop(Result<(), SliceError>),
}

/// Whether the message `msg` can be handled.
pub open spec fn is_accepted(d: DiskData, msg: DiskMsg) -> bool {
    match msg {
        DiskMsg::NewTorrent { torrent_ctx, blocks } => info_fits(torrent_ctx.info@)
            && blocks_in_order(blocks@),
        DiskMsg::ReadBlock { info_hash, .. } => d.torrents.contains_key(info_hash@) ==> has_files(
            d.torrents[info_hash@].info,
        ),
        DiskMsg::ValidatePiece { info_hash, piece } => d.torrents.contains_key(info_hash@) && piece
            < d.torrents[info_hash@].info.piece_count(),
        DiskMsg::WriteBlock { info_hash, block } => d.torrents.contains_key(info_hash@)
            && can_write_block(d.torrents[info_hash@], block@),
        DiskMsg::RequestBlocks { info_hash, .. } => d.torrents.contains_key(info_hash@),
        DiskMsg::ReturnBlockInfos(info_hash, blocks) => d.torrents.contains_key(info_hash@)
            || blocks@.len() > 0,
        DiskMsg::FileByPath { info_hash, path } => d.torrents.contains_key(info_hash@) && texts(
            path@,
        ) == seq![d.torrents[info_hash@].info.name] ==> has_files(d.torrents[info_hash@].info),
        DiskMsg::NewSlice { file_id, .. } => d.torrents.contains_key(file_id.info_hash@)
            && file_id.i == 0 ==> has_files(d.torrents[file_id.info_hash@].info),
        DiskMsg::ReadSlice { slice_id, .. } => can_read_slice(d, slice_id),
        _ => true,
    }
}

/// Whether handling the message `msg`, which can be handled,
/// leads to `action` and to the disk `after`.
pub open spec fn is_handled(d: DiskData, msg: DiskMsg, action: DiskAction, after: DiskData) -> bool {
    match msg {
        DiskMsg::NewTorrent { torrent_ctx, blocks } => {
            let h = torrent_ctx.info_hash@;
            let info = torrent_ctx.info@;
            if d.torrents.contains_key(h) {
                action matches DiskAction::Stop(Err(e)) && e == Error::NoDuplicateTorrent && after
                    == d
            } else {
                &&& action matches DiskAction::CreateTorrent(todo) && is_new_torrent(
                    d,
                    h,
                    info,
                    todo,
                )
                &&& exists|order: Seq<u32>| #[trigger]
                    is_piece_order(order, info.piece_count()) && after == with_torrent(
                        d,
                        h,
                        started(info, torrent_ctx.bitfield@, order, blocks@),
                    )
            }
        },
        DiskMsg::NewPeer(peer) => action is Continue && after == DiskData {
            peers: d.peers.insert(peer.id@, peer_data(peer)),
            ..d
        },
        DiskMsg::ReadBlock { info_hash, block_info } => after == d && if !d.torrents.contains_key(
            info_hash@,
        ) {
            action matches DiskAction::Stop(Err(e)) && e == Error::InfoHashInvalid
        } else {
            match block_place(d.torrents[info_hash@].info, block_info) {
                Some(_) => action matches DiskAction::Read(read) && is_block_read(
                    d,
                    info_hash@,
                    block_info,
                    read,
                ),
                None => action matches DiskAction::Stop(Err(Error::FileOpenError(text))) && text@
                    == offset_exceeds(),
            }
        },
        DiskMsg::ValidatePiece { info_hash, piece } => {
            &&& after == d
            &&& action matches DiskAction::AnswerValidation(res)
            &&& res is Ok <==> is_valid(d.torrents[info_hash@], piece as int)
            &&& res matches Err(e) ==> e == Error::PieceInvalid
        },
        DiskMsg::OpenFile(path) => {
            &&& after == d
            &&& action matches DiskAction::Open(p) && p == path
        },
        DiskMsg::WriteBlock { info_hash, block } => {
            let t = d.torrents[info_hash@];
            &&& after == with_torrent(d, info_hash@, block_written(t, block@))
            &&& exists|res: Result<WriteBlock, Error>| #[trigger]
                is_block_outcome(t, block@, res) && match res {
                    Err(e) => action matches DiskAction::Stop(Err(f)) && e == f,
                    Ok(WriteBlock::Complete(w)) =>
                        action matches DiskAction::Write { info_hash: h, index, base, writes } && h
                            == info_hash && index == block.index && texts(base@) == base_components(
                        d,
                        info_hash@,
                    ) && writes == w,
                    Ok(_) => action is Continue,
                }
        },
        DiskMsg::RequestBlocks { info_hash, peer_id, qnt } =>
            exists|res: Option<Result<VecDeque<BlockInfo>, Error>>| #[trigger]
            is_request_outcome(d, info_hash@, peer_id@, qnt as int, res, after) && match res {
                Some(Ok(b)) => action matches DiskAction::AnswerBlocks(blocks) && blocks@ == b@,
                Some(Err(_)) => action matches DiskAction::AnswerBlocks(blocks) && blocks@.len()
                    == 0,
                None => action is Refuse,
            },
        DiskMsg::ReturnBlockInfos(info_hash, blocks) => {
            let t = d.torrents[info_hash@];
            if d.torrents.contains_key(info_hash@) {
                &&& action matches DiskAction::BlockAvailable(h) && h == info_hash
                &&& after == with_torrent(
                    d,
                    info_hash@,
                    TorrentData { pieces_blocks: returned(t.pieces_blocks, blocks@), ..t },
                )
            } else {
                action matches DiskAction::Stop(Err(e)) && e == Error::TorrentDoesNotExist && after
                    == d
            }
        },
        DiskMsg::Quit => after == d && action matches DiskAction::Stop(Ok(_)),
        DiskMsg::FileByPath { info_hash, path } => {
            &&& after == d
            &&& action matches DiskAction::AnswerFile(res) && is_file_by_path(
                d,
                info_hash@,
                texts(path@),
                res,
            )
        },
        DiskMsg::NewSlice { file_id, range_in_file } =>
            action matches DiskAction::AnswerSlice(res) && is_new_slice(
                d,
                file_id,
                range_in_file,
                res,
                after,
            ),
        DiskMsg::ReadSlice { slice_id, recipient } => action matches DiskAction::ReadSlice(
            reading,
        ) && reading == slice_reading(d, slice_id) && after == slice_read(d, slice_id, recipient),
        DiskMsg::DropSlice { slice_id } => action matches DiskAction::AnswerDrop(res) && (res is Ok
            <==> d.slices.contains_key(slice_id)) && (res matches Err(e) ==> e == SliceError::Db(
            SliceDbError::NoSlice,
        )) && after == DiskData { slices: d.slices.remove(slice_id), ..d },
    }
}

impl Disk {
    /// Handles a message.
    pub fn handle(&mut self, msg: DiskMsg) -> (res: DiskAction)
        requires
            old(self).wf(),
        ensures
            final(self).wf(),
            if is_accepted(old(self)@, msg) {
                is_handled(old(self)@, msg, res, final(self)@)
            } else {
                res is Refuse && final(self)@ == old(self)@
            },
    {
        let ghost d = self@;
        let ghost all = msg;
        match msg {
            DiskMsg::NewTorrent { torrent_ctx, blocks } => {
                if !test_info_fits(&torrent_ctx.info) || !test_blocks_in_order(&blocks) {
                    return DiskAction::Refuse;
                }
                match self.new_torrent(torrent_ctx, &blocks) {
                    Ok(todo) => DiskAction::CreateTorrent(todo),
                    Err(e) => DiskAction::Stop(Err(e)),
                }
            },
            DiskMsg::NewPeer(peer) => {
                self.new_peer(peer);
                DiskAction::Continue
            },
            DiskMsg::ReadBlock { info_hash, block_info } => {
                if !self.has_torrent_files(&info_hash) {
                    return DiskAction::Refuse;
                }
                match self.read_block(&info_hash, &block_info) {
                    Ok(read) => DiskAction::Read(read),
                    Err(e) => DiskAction::Stop(Err(e)),
                }
            },
            DiskMsg::ValidatePiece { info_hash, piece } => {
                if !self.has_piece(&info_hash, piece) {
                    return DiskAction::Refuse;
                }
                DiskAction::AnswerValidation(self.validate_piece(&info_hash, piece))
            },
            DiskMsg::OpenFile(path) => DiskAction::Open(path),
            DiskMsg::WriteBlock { info_hash, block } => {
                let index: usize = block.index;
                let ghost data = block@;
                let outcome = match self.try_write_block(&info_hash, block) {
                    Some(outcome) => outcome,
                    None => {
                        return DiskAction::Refuse;
                    },
                };
                assert(is_block_outcome(d.torrents[info_hash@], data, outcome));
                match outcome {
                    Err(e) => DiskAction::Stop(Err(e)),
                    Ok(WriteBlock::Complete(writes)) => {
                        let base = self.base_path(&info_hash);
                        DiskAction::Write { info_hash, index, base, writes }
                    },
                    Ok(_) => DiskAction::Continue,
                }
            },
            DiskMsg::RequestBlocks { info_hash, peer_id, qnt } => {
                let outcome = self.try_request_blocks(&info_hash, &peer_id, qnt);
                assert(is_request_outcome(
                    d,
                    info_hash@,
                    peer_id@,
                    qnt as int,
                    outcome,
                    self@,
                ));
                match outcome {
                    Some(Ok(blocks)) => DiskAction::AnswerBlocks(blocks),
                    Some(Err(_)) => DiskAction::AnswerBlocks(VecDeque::new()),
                    None => DiskAction::Refuse,
                }
            },
            DiskMsg::ReturnBlockInfos(info_hash, blocks) => {
                if blocks.len() == 0 && !self.has_torrent(&info_hash) {
                    return DiskAction::Refuse;
                }
                match self.return_block_infos(&info_hash, &blocks) {
                    Ok(_) => DiskAction::BlockAvailable(info_hash),
                    Err(e) => DiskAction::Stop(Err(e)),
                }
            },
            DiskMsg::Quit => DiskAction::Stop(Ok(())),
            DiskMsg::FileByPath { info_hash, path } => {
                if !self.has_path_length(&info_hash, &path) {
                    return DiskAction::Refuse;
                }
                DiskAction::AnswerFile(self.file_by_path_msg(&info_hash, &path))
            },
            DiskMsg::NewSlice { file_id, range_in_file } => {
                if file_id.i == 0 && !self.has_torrent_files(&file_id.info_hash) {
                    return DiskAction::Refuse;
                }
                DiskAction::AnswerSlice(self.new_slice_msg(&file_id, range_in_file))
            },
            DiskMsg::ReadSlice { slice_id, recipient } => {
                if !self.can_read_slice(slice_id) {
                    return DiskAction::Refuse;
                }
                DiskAction::ReadSlice(self.read_slice(slice_id, recipient))
            },
            DiskMsg::DropSlice { slice_id } => DiskAction::AnswerDrop(self.drop_slice(slice_id)),
        }
    }
}

} // verus!
