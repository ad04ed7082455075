//! What holds of the messages to the disk.
use crate::disk::block_laws::{data_of, joined_is_flat};
use crate::disk::layout::block_place;
use crate::disk::layout_laws::{
    block_starts_outside, content_size, hashes_follow, torrent_is_measured,
};
use crate::disk::request_laws::{of_piece, returned_blocks_are_appended};
use crate::disk::run::{is_accepted, is_handled, DiskAction, DiskMsg};
use crate::disk::slice::{InfoHash, SliceDbError, SliceId};
use crate::disk::torrent::TorrentData;
use crate::disk::{
    block_written, is_block_outcome, is_request_outcome, DiskData, FileId, SliceError, WriteBlock,
};
use crate::error::Error;
use crate::hash::sha1;
use crate::order::{sorted, Sortable};
use crate::tcp_wire::{Block, BlockData, BlockInfo};
use crate::text::texts;
use std::collections::VecDeque;
use std::ops::Range;
use vstd::prelude::*;

verus! {

/// Whether the torrent lists its files or tells the length of its only file.
pub open spec fn tells_files(d: DiskData, info_hash: Seq<u8>) -> bool {
    d.torrents[info_hash].info.files is Some || d.torrents[info_hash].info.file_length is Some
}

/// What is told of a torrent that tells its files is answered.
pub proof fn questions_are_accepted(
    d: DiskData,
    info_hash: InfoHash,
    block_info: BlockInfo,
    path: Vec<String>,
    i: usize,
    range_in_file: Range<u64>,
)
    requires
        d.torrents.contains_key(info_hash@) ==> tells_files(d, info_hash@),
    ensures
        is_accepted(d, DiskMsg::ReadBlock { info_hash, block_info }),
        is_accepted(d, DiskMsg::FileByPath { info_hash, path }),
        is_accepted(d, DiskMsg::NewSlice { file_id: FileId { info_hash, i }, range_in_file }),
{
}

/// Messages that ask for nothing of a torrent are accepted.
pub proof fn simple_messages_are_accepted(
    d: DiskData,
    peer: crate::peer::PeerCtx,
    path: String,
    slice_id: SliceId,
)
    ensures
        is_accepted(d, DiskMsg::NewPeer(peer)),
        is_accepted(d, DiskMsg::OpenFile(path)),
        is_accepted(d, DiskMsg::Quit),
        is_accepted(d, DiskMsg::DropSlice { slice_id }),
{
}

/// Messages about a torrent that exists are accepted.
pub proof fn messages_to_torrent_are_accepted(
    d: DiskData,
    info_hash: InfoHash,
    piece: usize,
    peer_id: crate::peer::PeerId,
    qnt: usize,
    blocks: Vec<BlockInfo>,
)
    requires
        d.torrents.contains_key(info_hash@),
    ensures
        20 * piece + 20 <= d.torrents[info_hash@].info.pieces.len() ==> is_accepted(
            d,
            DiskMsg::ValidatePiece { info_hash, piece },
        ),
        is_accepted(d, DiskMsg::RequestBlocks { info_hash, peer_id, qnt }),
        is_accepted(d, DiskMsg::ReturnBlockInfos(info_hash, blocks)),
{
    torrent_is_measured(d.torrents[info_hash@].info);
}

/// A block of a torrent is accepted if the torrent has pieces that are not empty,
/// tells its files, and has a queue for the piece of the block.
pub proof fn block_is_accepted(d: DiskData, info_hash: InfoHash, block: Block)
    requires
        d.torrents.contains_key(info_hash@),
        d.torrents[info_hash@].wf(),
        tells_files(d, info_hash@),
        d.torrents[info_hash@].info.pieces.len() >= 20,
        d.torrents[info_hash@].info.piece_length > 0,
        20 * block.index + 20 <= d.torrents[info_hash@].info.pieces.len() ==> {
            let t = d.torrents[info_hash@];
            block.index < t.pieces_blocks.len() && data_of(t.cache[block.index as int]).len()
                + block.block@.len() <= u64::MAX
        },
    ensures
        is_accepted(d, DiskMsg::WriteBlock { info_hash, block }),
{
    let t = d.torrents[info_hash@];
    torrent_is_measured(t.info);
    joined_is_flat(t.cache[block.index as int]);
}

/// What is done after a block was downloaded: nothing if it is cached or its piece is corrupted;
/// the writes are given, with the directory of the torrent, if its piece is complete;
/// an error stops everything.
pub proof fn block_is_handled(
    d: DiskData,
    info_hash: InfoHash,
    block: Block,
    action: DiskAction,
    after: DiskData,
)
    requires
        is_handled(d, DiskMsg::WriteBlock { info_hash, block }, action, after),
    ensures
        after.torrents == d.torrents.insert(
            info_hash@,
            block_written(d.torrents[info_hash@], block@),
        ),
        after == (DiskData { torrents: after.torrents, ..d }),
        match action {
            DiskAction::Stop(Err(e)) => is_block_outcome(
                d.torrents[info_hash@],
                block@,
                Err(e),
            ),
            DiskAction::Continue => is_block_outcome(
                d.torrents[info_hash@],
                block@,
                Ok(WriteBlock::Cached),
            ) || is_block_outcome(d.torrents[info_hash@], block@, Ok(WriteBlock::Corrupted)),
            DiskAction::Write { info_hash: h, index, base, writes } => {
                &&& is_block_outcome(
                    d.torrents[info_hash@],
                    block@,
                    Ok(WriteBlock::Complete(writes)),
                )
                &&& h == info_hash
                &&& index == block.index
                &&& texts(base@) == seq![d.download_dir, d.torrents[info_hash@].info.name]
            },
            _ => false,
        },
{
}

/// Whether `ordered` are the blocks `blocks`, ordered by where they start.
pub open spec fn are_ordered(blocks: Seq<BlockData>, ordered: Seq<BlockData>) -> bool {
    &&& ordered.to_multiset() == blocks.to_multiset()
    &&& forall|k: int, l: int|
        0 <= k < l < ordered.len() ==> (#[trigger] ordered[k]).begin < (
        #[trigger] ordered[l]).begin
}

/// A piece is valid iff the data of its cached blocks, ordered by where they start,
/// have the hash that is promised for it. Nothing changes.
pub proof fn piece_is_validated(
    d: DiskData,
    info_hash: InfoHash,
    piece: usize,
    ordered: Seq<BlockData>,
    action: DiskAction,
    after: DiskData,
)
    requires
        d.torrents.contains_key(info_hash@),
        d.torrents[info_hash@].wf(),
        20 * piece + 20 <= d.torrents[info_hash@].info.pieces.len(),
        are_ordered(d.torrents[info_hash@].cache[piece as int], ordered),
        is_handled(d, DiskMsg::ValidatePiece { info_hash, piece }, action, after),
    ensures
        after == d,
        ({
            let promised = d.torrents[info_hash@].info.pieces.subrange(
                20 * piece as int,
                20 * piece + 20,
            );
            if sha1(data_of(ordered)) == promised {
                action matches DiskAction::AnswerValidation(Ok(_))
            } else {
                action matches DiskAction::AnswerValidation(Err(Error::PieceInvalid))
            }
        }),
{
    broadcast use vstd::seq_lib::group_to_multiset_ensures;

    let t = d.torrents[info_hash@];
    let all = t.cache[piece as int];
    let leq = |a: BlockData, b: BlockData| Block::leq(a, b);
    hashes_follow(t.info, piece as int, 0);
    joined_is_flat(ordered);
    Block::leq_is_total_ordering();
    all.lemma_sort_by_ensures(leq);
    assert forall|k: int| 0 <= k < ordered.len() implies (#[trigger] ordered[k]).index == piece by {
        assert(ordered.to_multiset().count(ordered[k]) > 0);
        assert(all.contains(ordered[k]));
        let j = all.index_of(ordered[k]);
        assert(t.cache[piece as int][j].index == piece);
    }
    assert(vstd::relations::sorted_by(ordered, leq)) by {
        assert forall|k: int, l: int| 0 <= k < l < ordered.len() implies #[trigger] leq(
            ordered[k],
            ordered[l],
        ) by {
            assert(ordered[k].begin < ordered[l].begin);
        }
    }
    vstd::seq_lib::lemma_sorted_unique(ordered, all.sort_by(leq), leq);
    assert(sorted::<Block>(all) == ordered);
}

/// Blocks that are given back are appended to the queue of their piece, in their order,
/// and the torrent is told. Nothing else changes.
pub proof fn blocks_are_given_back(
    d: DiskData,
    info_hash: InfoHash,
    blocks: Vec<BlockInfo>,
    p: int,
    action: DiskAction,
    after: DiskData,
)
    requires
        is_handled(d, DiskMsg::ReturnBlockInfos(info_hash, blocks), action, after),
    ensures
        !d.torrents.contains_key(info_hash@) ==> after == d && action matches DiskAction::Stop(
            Err(Error::TorrentDoesNotExist),
        ),
        d.torrents.contains_key(info_hash@) ==> {
            let t = d.torrents[info_hash@];
            let next = after.torrents[info_hash@];
            &&& action == DiskAction::BlockAvailable(info_hash)
            &&& after == DiskData { torrents: d.torrents.insert(info_hash@, next), ..d }
            &&& next == TorrentData { pieces_blocks: next.pieces_blocks, ..t }
            &&& 0 <= p < t.pieces_blocks.len() ==> next.pieces_blocks.len()
                == t.pieces_blocks.len() && next.pieces_blocks[p] == t.pieces_blocks[p] + of_piece(
                blocks@,
                p,
            )
        },
{
    if d.torrents.contains_key(info_hash@) {
        let t = d.torrents[info_hash@];
        if 0 <= p < t.pieces_blocks.len() {
            returned_blocks_are_appended(t.pieces_blocks, blocks@, p);
        }
        assert(after.torrents =~= d.torrents.insert(info_hash@, after.torrents[info_hash@]));
    }
}

/// A block that starts in the torrent is read, one that does not is an error.
/// Nothing changes.
pub proof fn block_is_looked_up(
    d: DiskData,
    info_hash: InfoHash,
    block_info: BlockInfo,
    action: DiskAction,
    after: DiskData,
)
    requires
        is_handled(d, DiskMsg::ReadBlock { info_hash, block_info }, action, after),
    ensures
        after == d,
        !d.torrents.contains_key(info_hash@) ==> action matches DiskAction::Stop(
            Err(Error::InfoHashInvalid),
        ),
        d.torrents.contains_key(info_hash@) ==> {
            let info = d.torrents[info_hash@].info;
            if info.files is None || block_info.index * info.piece_length + block_info.begin
                < content_size(info) {
                action matches DiskAction::Read(read) && Some(read.place@) == block_place(
                    info,
                    block_info,
                ) && read.len == block_info.len && texts(read.base@) == seq![
                    d.download_dir,
                    info.name,
                ]
            } else {
                action matches DiskAction::Stop(Err(Error::FileOpenError(_)))
            }
        },
{
    let info = d.torrents[info_hash@].info;
    if let Some(files) = info.files {
        block_starts_outside(info, files, block_info);
    }
}

/// The blocks that are requested of a peer are the answer, and none for an unknown peer.
pub proof fn requested_blocks_are_answered(
    d: DiskData,
    info_hash: InfoHash,
    peer_id: crate::peer::PeerId,
    qnt: usize,
    action: DiskAction,
    after: DiskData,
)
    requires
        is_handled(d, DiskMsg::RequestBlocks { info_hash, peer_id, qnt }, action, after),
    ensures
        exists|res: Option<Result<VecDeque<BlockInfo>, Error>>| #[trigger]
            is_request_outcome(d, info_hash@, peer_id@, qnt as int, res, after) && match action {
                DiskAction::AnswerBlocks(blocks) => match res {
                    Some(Ok(b)) => b@ == blocks@,
                    Some(Err(_)) => blocks@.len() == 0,
                    None => false,
                },
                DiskAction::Refuse => res is None,
                _ => false,
            },
{
}

/// Quitting stops without an error, a file is opened by its path, and a slice that is dropped
/// is gone, while the others stay.
pub proof fn simple_messages_are_handled(
    d: DiskData,
    path: String,
    slice_id: SliceId,
    action: DiskAction,
    after: DiskData,
)
    ensures
        is_handled(d, DiskMsg::Quit, action, after) ==> after == d && action
            matches DiskAction::Stop(Ok(_)),
        is_handled(d, DiskMsg::OpenFile(path), action, after) ==> after == d && action
            == DiskAction::Open(path),
        is_handled(d, DiskMsg::DropSlice { slice_id }, action, after) ==> {
            &&& after == DiskData { slices: after.slices, ..d }
            &&& !after.slices.contains_key(slice_id)
            &&& forall|id: SliceId|
                id != slice_id ==> (after.slices.contains_key(id) <==> #[trigger]
                    d.slices.contains_key(id)) && (d.slices.contains_key(id) ==> after.slices[id]
                    == d.slices[id])
            &&& if d.slices.contains_key(slice_id) {
                action matches DiskAction::AnswerDrop(Ok(_))
            } else {
                action == DiskAction::AnswerDrop(Err(SliceError::Db(SliceDbError::NoSlice)))
            }
        },
{
}

} // verus!
