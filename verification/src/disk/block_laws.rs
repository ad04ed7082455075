//! What holds of downloaded blocks and of the pieces that they complete.
use crate::disk::layout::{block_place, piece_size, torrent_info};
use crate::disk::layout_laws::{
    block_starts_outside, content_size, hashes_follow, last_piece_has_the_rest,
    piece_has_its_bytes, torrent_is_measured,
};
use crate::disk::torrent::{
    can_write_block, infos_of, is_cached, joined, once_keeps_elements, requeued, with_block,
    TorrentData,
};
use crate::disk::write_plan::{write_plan, writes_data};
use crate::disk::{block_written, is_block_outcome, WriteBlock};
use crate::error::Error;
use crate::hash::sha1;
use crate::order::{sorted, Sortable};
use crate::tcp_wire::{Block, BlockData, BlockInfo};
use vstd::prelude::*;

verus! {

/// The data of `blocks`, one after another.
pub open spec fn data_of(blocks: Seq<BlockData>) -> Seq<u8> {
    blocks.map_values(|b: BlockData| b.block).flatten()
}

/// Joining blocks puts their data one after another.
pub proof fn joined_is_flat(blocks: Seq<BlockData>)
    ensures
        joined(blocks) == data_of(blocks),
    decreases blocks.len(),
{
    let f = |b: BlockData| b.block;
    let data = blocks.map_values(f);
    data.lemma_flatten_and_flatten_alt_are_equivalent();
    if blocks.len() > 0 {
        let front = blocks.drop_last();
        joined_is_flat(front);
        front.map_values(f).lemma_flatten_and_flatten_alt_are_equivalent();
        assert(data.drop_last() =~= front.map_values(f));
    }
}

/// The data of a further block follow.
pub proof fn data_of_push(blocks: Seq<BlockData>, block: BlockData)
    ensures
        data_of(blocks.push(block)) == data_of(blocks) + block.block,
{
    joined_is_flat(blocks);
    joined_is_flat(blocks.push(block));
    assert(blocks.push(block).drop_last() =~= blocks);
}

/// Whether `block` is a block of a piece of the torrent, and no block that starts where it starts
/// and has its length is cached.
pub open spec fn is_news(t: TorrentData, block: BlockData) -> bool {
    &&& block.index < t.cache.len()
    &&& 20 * block.index + 20 <= t.info.pieces.len()
    &&& block.block.len() <= u32::MAX
    &&& forall|k: int|
        0 <= k < t.cache[block.index as int].len() ==> {
            let b = #[trigger] t.cache[block.index as int][k];
            b.begin != block.begin || (b.block.len() != block.block.len() && b.block.len()
                <= u32::MAX)
        }
}

/// Whether the pieces of the torrent cover its content.
pub open spec fn is_covered(t: TorrentData) -> bool {
    (t.info.pieces.len() / 20 - 1) * t.info.piece_length < content_size(t.info) <= (
    t.info.pieces.len() / 20) * t.info.piece_length
}

/// The number of bytes of the torrent in the piece `index`, if the pieces cover the torrent.
pub open spec fn bytes_of_piece(t: TorrentData, index: int) -> int {
    let rest = content_size(t.info) - index * t.info.piece_length;
    if rest < t.info.piece_length {
        rest
    } else {
        t.info.piece_length as int
    }
}

proof fn news_is_not_cached(t: TorrentData, block: BlockData)
    requires
        is_news(t, block),
    ensures
        !is_cached(t.cache[block.index as int], block),
        block.index < t.info.piece_count(),
        joined(with_block(t, block).cache[block.index as int]).len() == data_of(
            t.cache[block.index as int],
        ).len() + block.block.len(),
        joined(t.cache[block.index as int]) == data_of(t.cache[block.index as int]),
        is_covered(t) ==> piece_size(torrent_info(t.info), block.index as int) == bytes_of_piece(
            t,
            block.index as int,
        ),
{
    let cached = t.cache[block.index as int];
    if is_cached(cached, block) {
        let k = choose|k: int| 0 <= k < cached.len() && (#[trigger] cached[k]).info() == block.info();
        assert(t.cache[block.index as int][k].begin == block.begin);
        assert(cached[k].info().len == block.info().len);
    }
    torrent_is_measured(t.info);
    joined_is_flat(cached);
    joined_is_flat(cached.push(block));
    data_of_push(cached, block);
    if is_covered(t) {
        piece_has_its_bytes(t.info, block.index as int);
    }
}

/// A block that does not bring the cached bytes of its piece
/// to the number of bytes of the torrent in this piece is cached, and that is all.
pub proof fn block_is_cached(t: TorrentData, block: BlockData, res: Result<WriteBlock, Error>)
    requires
        is_news(t, block),
        is_covered(t),
        data_of(t.cache[block.index as int]).len() + block.block.len() < bytes_of_piece(
            t,
            block.index as int,
        ),
        is_block_outcome(t, block, res),
    ensures
        res matches Ok(WriteBlock::Cached),
        ({
            let i = block.index as int;
            block_written(t, block) == TorrentData {
                cache: t.cache.update(i, t.cache[i].push(block)),
                downloaded_pieces: t.downloaded_pieces.update(
                    i,
                    (data_of(t.cache[i]).len() + block.block.len()) as u64,
                ),
                ..t
            }
        }),
{
    news_is_not_cached(t, block);
}

/// Whether `ordered` are the cached blocks of the piece of `block` and `block`,
/// ordered by where they start in the piece.
pub open spec fn are_in_order(t: TorrentData, block: BlockData, ordered: Seq<BlockData>) -> bool {
    &&& ordered.to_multiset() == t.cache[block.index as int].push(block).to_multiset()
    &&& forall|k: int, l: int|
        0 <= k < l < ordered.len() ==> (#[trigger] ordered[k]).begin < (
        #[trigger] ordered[l]).begin
}

proof fn in_order_is_sorted(t: TorrentData, block: BlockData, ordered: Seq<BlockData>)
    requires
        are_in_order(t, block, ordered),
        forall|k: int|
            0 <= k < t.cache[block.index as int].len() ==> (
            #[trigger] t.cache[block.index as int][k]).index == block.index,
    ensures
        sorted::<Block>(t.cache[block.index as int].push(block)) == ordered,
{
    broadcast use vstd::seq_lib::group_to_multiset_ensures;

    let all = t.cache[block.index as int].push(block);
    let leq = |a: BlockData, b: BlockData| Block::leq(a, b);
    Block::leq_is_total_ordering();
    all.lemma_sort_by_ensures(leq);
    assert forall|k: int| 0 <= k < ordered.len() implies (#[trigger] ordered[k]).index
        == block.index by {
        assert(ordered.to_multiset().count(ordered[k]) > 0);
        assert(all.contains(ordered[k]));
        let j = all.index_of(ordered[k]);
        if j < t.cache[block.index as int].len() {
            assert(all[j] == t.cache[block.index as int][j]);
        }
    }
    assert(vstd::relations::sorted_by(ordered, leq)) by {
        assert forall|k: int, l: int| 0 <= k < l < ordered.len() implies #[trigger] leq(
            ordered[k],
            ordered[l],
        ) by {
            assert(ordered[k].begin < ordered[l].begin);
        }
    }
    vstd::seq_lib::lemma_sorted_unique(ordered, all.sort_by(leq), leq);
}

/// A block that brings the cached bytes of its piece
/// to the number of bytes of the torrent in this piece completes the piece.
/// It has the promised hash iff the data of its blocks, ordered by where they start, have it;
/// else it is corrupted. All blocks of a piece with this hash are to be written in this order,
/// unless one of them starts outside the files.
pub proof fn block_completes_piece(
    t: TorrentData,
    block: BlockData,
    ordered: Seq<BlockData>,
    res: Result<WriteBlock, Error>,
)
    requires
        t.wf(),
        is_news(t, block),
        is_covered(t),
        data_of(t.cache[block.index as int]).len() + block.block.len() >= bytes_of_piece(
            t,
            block.index as int,
        ),
        are_in_order(t, block, ordered),
        is_block_outcome(t, block, res),
    ensures
        ({
            let i = block.index as int;
            if sha1(data_of(ordered)) == t.info.pieces.subrange(20 * i, 20 * i + 20) {
                match write_plan(t.info, i, ordered) {
                    Some(plan) => res matches Ok(WriteBlock::Complete(writes)) && writes_data(
                        writes@,
                    ) == plan,
                    None => res matches Err(Error::FileOpenError(_)),
                }
            } else {
                res matches Ok(WriteBlock::Corrupted)
            }
        }),
{
    let i = block.index as int;
    news_is_not_cached(t, block);
    assert forall|k: int| 0 <= k < t.cache[i].len() implies (#[trigger] t.cache[i][k]).index
        == block.index by {}
    in_order_is_sorted(t, block, ordered);
    joined_is_flat(ordered);
    hashes_follow(t.info, i, 0);
    assert(with_block(t, block).cache[i] == t.cache[i].push(block));
}

/// There is a plan to write blocks that start in the files of the torrent, and no other.
pub proof fn blocks_can_be_written(t: TorrentData, piece: int, blocks: Seq<BlockData>)
    requires
        forall|k: int|
            0 <= k < blocks.len() ==> (#[trigger] blocks[k]).index == piece && piece <= u32::MAX,
    ensures
        write_plan(t.info, piece, blocks) is Some <==> forall|k: int|
            0 <= k < blocks.len() ==> t.info.files is None || piece * t.info.piece_length + (
            #[trigger] blocks[k]).begin < content_size(t.info),
    decreases blocks.len(),
{
    if blocks.len() > 0 {
        let front = blocks.drop_last();
        assert forall|k: int| 0 <= k < front.len() implies (#[trigger] front[k]).index == piece
            && piece <= u32::MAX by {
            assert(blocks[k] == front[k]);
        }
        blocks_can_be_written(t, piece, front);
        let last = blocks[blocks.len() - 1];
        assert(last.info().index == piece);
        if let Some(files) = t.info.files {
            block_starts_outside(t.info, files, last.info());
        }
        assert(block_place(t.info, last.info()) is Some <==> t.info.files is None || piece
            * t.info.piece_length + last.begin < content_size(t.info));
        if forall|k: int|
            0 <= k < blocks.len() ==> t.info.files is None || piece * t.info.piece_length + (
            #[trigger] blocks[k]).begin < content_size(t.info) {
            assert forall|k: int| 0 <= k < front.len() implies t.info.files is None || piece
                * t.info.piece_length + (#[trigger] front[k]).begin < content_size(t.info) by {
                assert(blocks[k] == front[k]);
            }
            assert(blocks[blocks.len() - 1] == last);
        }
        if write_plan(t.info, piece, blocks) is Some {
            assert forall|k: int| 0 <= k < blocks.len() implies t.info.files is None || piece
                * t.info.piece_length + (#[trigger] blocks[k]).begin < content_size(t.info) by {
                if k < front.len() {
                    assert(front[k] == blocks[k]);
                }
            }
        }
    }
}

/// A piece that is given to be written is given as such, and is no longer cached.
/// Nothing else changes.
pub proof fn complete_piece_is_given(t: TorrentData, block: BlockData, res: Result<WriteBlock, Error>)
    requires
        t.wf(),
        is_block_outcome(t, block, res),
        res matches Ok(WriteBlock::Complete(_)),
    ensures
        ({
            let i = block.index as int;
            block_written(t, block) == TorrentData {
                cache: t.cache.update(i, Seq::empty()),
                downloaded_pieces: t.downloaded_pieces.update(
                    i,
                    (data_of(t.cache[i]).len() + block.block.len()) as u64,
                ),
                given: t.given.update(i, true),
                ..t
            }
        }),
{
    let i = block.index as int;
    torrent_is_measured(t.info);
    joined_is_flat(t.cache[i]);
    assert(with_block(t, block).cache.update(i, Seq::empty()) =~= t.cache.update(i, Seq::empty()));
}

/// A corrupted piece is to be downloaded again: the queue of the piece holds the places
/// that it held and those of the cached blocks and of the last one, every place once,
/// in the order of the places. Nothing of the piece is cached or counted.
/// Nothing else changes.
pub proof fn corrupted_piece_is_queued(t: TorrentData, block: BlockData, res: Result<WriteBlock, Error>)
    requires
        t.wf(),
        block.index < t.pieces_blocks.len(),
        is_block_outcome(t, block, res),
        res matches Ok(WriteBlock::Corrupted),
    ensures
        ({
            let i = block.index as int;
            let after = block_written(t, block);
            let queue = after.pieces_blocks[i];
            &&& after == TorrentData {
                cache: t.cache.update(i, Seq::empty()),
                downloaded_pieces: t.downloaded_pieces.update(i, 0),
                pieces_blocks: t.pieces_blocks.update(i, queue),
                ..t
            }
            &&& queue.no_duplicates()
            &&& forall|k: int, l: int|
                0 <= k < l < queue.len() ==> (#[trigger] queue[k]).begin < (
                #[trigger] queue[l]).begin || (queue[k].begin == queue[l].begin && queue[k].len
                    < queue[l].len)
            &&& forall|b: BlockInfo| #[trigger]
                queue.contains(b) <==> t.pieces_blocks[i].contains(b) || exists|k: int|
                    0 <= k <= t.cache[i].len() && b == (
                    #[trigger] t.cache[i].push(block)[k]).info()
        }),
{
    broadcast use vstd::seq_lib::group_to_multiset_ensures;

    let i = block.index as int;
    let all = t.cache[i].push(block);
    let queued = t.pieces_blocks[i];
    let infos = infos_of(all);
    let both = queued + infos;
    let kept = requeued(queued, infos);
    let queue = sorted::<BlockInfo>(kept);
    let leq = |a: BlockInfo, b: BlockInfo| BlockInfo::leq(a, b);
    torrent_is_measured(t.info);
    assert(with_block(t, block).cache.update(i, Seq::empty()) =~= t.cache.update(i, Seq::empty()));
    assert(with_block(t, block).downloaded_pieces.update(i, 0) =~= t.downloaded_pieces.update(i, 0));
    assert(with_block(t, block).cache[i] == all);
    BlockInfo::leq_is_total_ordering();
    kept.lemma_sort_by_ensures(leq);
    once_keeps_elements(both);
    kept.lemma_multiset_has_no_duplicates();
    assert(queue.to_multiset() == kept.to_multiset());
    queue.lemma_multiset_has_no_duplicates_conv();
    assert forall|b: BlockInfo| #[trigger] queue.contains(b) <==> queued.contains(b) || exists|k: int|
        0 <= k <= t.cache[i].len() && b == (#[trigger] all[k]).info() by {
        assert(queue.contains(b) <==> queue.to_multiset().count(b) > 0);
        assert(kept.contains(b) <==> kept.to_multiset().count(b) > 0);
        if queued.contains(b) {
            assert(both[queued.index_of(b)] == b);
        }
        if exists|k: int| 0 <= k <= t.cache[i].len() && b == (#[trigger] all[k]).info() {
            let k = choose|k: int| 0 <= k <= t.cache[i].len() && b == (#[trigger] all[k]).info();
            assert(infos[k] == b);
            assert(both[queued.len() + k] == b);
        }
        if both.contains(b) {
            let j = both.index_of(b);
            if j < queued.len() {
                assert(queued[j] == b);
            } else {
                assert(infos[j - queued.len()] == b);
                assert(all[j - queued.len()].info() == b);
            }
        }
    }
    assert forall|k: int, l: int| 0 <= k < l < queue.len() implies (#[trigger] queue[k]).begin < (
    #[trigger] queue[l]).begin || (queue[k].begin == queue[l].begin && queue[k].len
        < queue[l].len) by {
        assert(leq(queue[k], queue[l]));
        assert(queue[k] != queue[l]);
        assert(queue.contains(queue[k]) && queue.contains(queue[l]));
        block_in_place(t, block, queue[k]);
        block_in_place(t, block, queue[l]);
    }
}

proof fn block_in_place(t: TorrentData, block: BlockData, b: BlockInfo)
    requires
        t.wf(),
        block.index < t.cache.len(),
        block.index < t.pieces_blocks.len(),
        t.pieces_blocks[block.index as int].contains(b) || exists|k: int|
            0 <= k <= t.cache[block.index as int].len() && b == (
            #[trigger] t.cache[block.index as int].push(block)[k]).info(),
    ensures
        b.index == block.index,
{
    let i = block.index as int;
    if t.pieces_blocks[i].contains(b) {
        let j = t.pieces_blocks[i].index_of(b);
        assert(t.pieces_blocks[i][j].index == i);
    } else {
        let all = t.cache[i].push(block);
        let k = choose|k: int| 0 <= k <= t.cache[i].len() && b == (#[trigger] all[k]).info();
        if k < t.cache[i].len() {
            assert(t.cache[i][k].index == i);
        }
    }
}

/// A block that starts where a cached block of its piece starts and has the same length
/// changes nothing.
pub proof fn known_block_is_ignored(
    t: TorrentData,
    block: BlockData,
    k: int,
    res: Result<WriteBlock, Error>,
)
    requires
        block.index < t.cache.len(),
        20 * block.index + 20 <= t.info.pieces.len(),
        0 <= k < t.cache[block.index as int].len(),
        t.cache[block.index as int][k].index == block.index,
        t.cache[block.index as int][k].begin == block.begin,
        t.cache[block.index as int][k].block.len() == block.block.len(),
        is_block_outcome(t, block, res),
    ensures
        res matches Ok(WriteBlock::Cached),
        block_written(t, block) == t,
{
    torrent_is_measured(t.info);
    assert(t.cache[block.index as int][k].info() == block.info());
}

/// A block of a piece that the torrent does not have is refused.
pub proof fn foreign_block_is_refused(t: TorrentData, block: BlockData, res: Result<WriteBlock, Error>)
    requires
        20 * block.index + 20 > t.info.pieces.len(),
        is_block_outcome(t, block, res),
    ensures
        res matches Err(Error::PieceIndexInvalid),
        block_written(t, block) == t,
{
    torrent_is_measured(t.info);
}

/// Whatever comes of a block, what is known of the other pieces stays as it was,
/// and so does which pieces are downloaded and which are to be.
pub proof fn block_touches_its_piece(t: TorrentData, block: BlockData, p: int)
    requires
        t.wf(),
        can_write_block(t, block),
        p != block.index,
    ensures
        ({
            let after = block_written(t, block);
            &&& after.info == t.info
            &&& after.bitfield == t.bitfield
            &&& after.pieces == t.pieces
            &&& after.downloaded_pieces_len == t.downloaded_pieces_len
            &&& after.piece_strategy == t.piece_strategy
            &&& after.cache.len() == t.cache.len()
            &&& after.pieces_blocks.len() == t.pieces_blocks.len()
            &&& 0 <= p < t.cache.len() ==> after.cache[p] == t.cache[p]
            &&& 0 <= p < t.pieces_blocks.len() ==> after.pieces_blocks[p] == t.pieces_blocks[p]
            &&& 0 <= p < t.downloaded_pieces.len() ==> after.downloaded_pieces[p]
                == t.downloaded_pieces[p]
            &&& 0 <= p < t.given.len() ==> after.given[p] == t.given[p]
        }),
{
}

/// Whether the pieces cover the torrent or not, a block completes its piece
/// iff it brings the cached bytes to the size of the piece: the length of a piece,
/// but for the last piece what whole pieces leave of the torrent.
pub proof fn completion_is_told_by_size(
    t: TorrentData,
    block: BlockData,
    size: int,
    res: Result<WriteBlock, Error>,
)
    requires
        is_news(t, block),
        t.info.piece_length > 0,
        20 * block.index + 40 <= t.info.pieces.len() ==> size == t.info.piece_length,
        20 * block.index + 40 > t.info.pieces.len() ==> {
            &&& 0 < size <= t.info.piece_length
            &&& (content_size(t.info) - size) % t.info.piece_length as int == 0
        },
        is_block_outcome(t, block, res),
    ensures
        (res matches Ok(WriteBlock::Cached)) <==> data_of(t.cache[block.index as int]).len()
            + block.block.len() < size,
{
    let i = block.index as int;
    let info = torrent_info(t.info);
    let d = t.info.piece_length as int;
    let x = content_size(t.info) as int;
    news_is_not_cached(t, block);
    torrent_is_measured(t.info);
    last_piece_has_the_rest(info, i);
    let s = piece_size(info, i);
    if i == info.pieces - 1 && s != size {
        vstd::arithmetic::div_mod::lemma_fundamental_div_mod(x - s, d);
        vstd::arithmetic::div_mod::lemma_fundamental_div_mod(x - size, d);
        let a = (x - s) / d;
        let b = (x - size) / d;
        assert(d * (b - a) == s - size) by (nonlinear_arith)
            requires
                x - s == d * a,
                x - size == d * b,
        ;
        assert(false) by (nonlinear_arith)
            requires
                d * (b - a) == s - size,
                0 < s <= d,
                0 < size <= d,
                s != size,
        ;
    }
}

} // verus!
