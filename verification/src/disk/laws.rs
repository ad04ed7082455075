//! What holds of downloading and reading torrents.
use crate::disk::layout::{
    block_place, disk_files, file_at_unique, has_files, holds_offset, info_fits, piece_size,
    single_file, PlaceData, TorrentInfoData,
};
use crate::disk::range::{slice_prefix, SLICE_PREFIX_SIZE_LIMIT};
use crate::disk::run::{is_accepted, is_handled, DiskAction, DiskMsg};
use crate::disk::slice::{reqs_removed, waits_for, Attr, SliceId};
use crate::disk::torrent::{
    can_write_block, infos_of, is_cached, is_complete, is_downloaded, is_valid,
    once_keeps_elements, piece_done, refusal, reordered_is_permutation, requeued, reverted,
    with_block, TorrentData,
};
use crate::disk::{
    block_written, can_record_piece, file_len, is_block_outcome, is_switching, range_in_torrent,
    rarest, score, scores, slice_reading, slices_inside, DiskData, ReadSlice, WriteBlock,
};
use crate::error::Error;
use crate::metainfo::{file_start_monotonic, file_start_succ, FileData, InfoData};
use crate::order::Sortable;
use crate::tcp_wire::{BlockData, BlockInfo};
use std::ops::Range;
use vstd::prelude::*;

verus! {

/// The metadata of the file `i` of a torrent.
pub open spec fn file_of(info: InfoData, i: int) -> FileData {
    match info.files {
        Some(files) => files[i],
        None => single_file(info),
    }
}

/// A read gives the beginning of a range: it starts where the range starts,
/// is not longer than the range, stays inside a piece, and is empty only if the range is.
pub proof fn read_is_prefix(range: Range<u64>, piece_len: u32)
    requires
        range.start <= range.end,
        range.start < piece_len * (u32::MAX + 1),
    ensures
        ({
            let p = slice_prefix(range, piece_len as int);
            &&& p.index * piece_len + p.begin == range.start
            &&& p.len <= range.end - range.start
            &&& p.len <= SLICE_PREFIX_SIZE_LIMIT
            &&& p.begin + p.len <= piece_len
            &&& range.start < range.end ==> p.len > 0
        }),
{
    let x = range.start as int;
    let d = piece_len as int;
    assert(d > 0) by (nonlinear_arith)
        requires
            x < d * (u32::MAX + 1),
            0 <= x,
    ;
    vstd::arithmetic::div_mod::lemma_fundamental_div_mod(x, d);
    let q = x / d;
    vstd::arithmetic::mul::lemma_mul_is_commutative(d, q);
    assert(0 <= q <= u32::MAX) by (nonlinear_arith)
        requires
            d * q <= x,
            x < d * (u32::MAX + 1),
            0 <= x,
            d > 0,
            q == x / d,
    ;
}

/// Who reads a range of a file reads this file: the first bytes of the slice that stands
/// for the range `range` of the file `i` are those of the file from `range.start` on.
pub proof fn slice_reads_file(info: InfoData, i: int, range: Range<u64>)
    requires
        has_files(info),
        info_fits(info),
        0 <= i < disk_files(info).len(),
        range.start < range.end,
        range.end <= file_len(info, i),
        disk_files(info)[i].length + range.start < info.piece_length * (u32::MAX + 1),
    ensures
        ({
            let p = slice_prefix(range_in_torrent(info, i, range), info.piece_length as int);
            &&& block_place(info, p) == Some(
                PlaceData { file: file_of(info, i), offset: range.start as int },
            )
            &&& 0 < p.len <= range.end - range.start
        }),
{
    let r = range_in_torrent(info, i, range);
    let start = disk_files(info)[i].length;
    match info.files {
        Some(files) => {
            file_start_succ(files, i);
            file_start_monotonic(files, i + 1, i + 1);
            assert(holds_offset(files, i, start + range.start));
            file_at_unique(files, i, start + range.start);
        },
        None => {},
    }
    read_is_prefix(r, info.piece_length);
}

/// The regions that the reads of a slice of the range `range` give, one after another,
/// until the slice is empty.
pub open spec fn all_reads(range: Range<u64>, piece_len: int) -> Seq<BlockInfo>
    decreases range.end - range.start,
{
    let p = slice_prefix(range, piece_len);
    if range.start + p.len > range.end || p.len == 0 {
        Seq::empty()
    } else {
        seq![p] + all_reads(
            Range { start: (range.start + p.len) as u64, end: range.end },
            piece_len,
        )
    }
}

/// The number of bytes in `blocks`.
pub open spec fn bytes_in(blocks: Seq<BlockInfo>) -> int
    decreases blocks.len(),
{
    if blocks.len() == 0 {
        0
    } else {
        blocks[0].len + bytes_in(blocks.skip(1))
    }
}

/// Who reads a range of a file until the slice is empty reads this range of this file,
/// from its beginning to its end and without gaps: the bytes that a read gives follow
/// those of the reads before, and all reads together give as many bytes as the range has.
pub proof fn reads_cover_range(info: InfoData, i: int, range: Range<u64>)
    requires
        has_files(info),
        info_fits(info),
        0 <= i < disk_files(info).len(),
        range.start <= range.end,
        range.end <= file_len(info, i),
        range.start < range.end ==> disk_files(info)[i].length + range.end <= info.piece_length * (
        u32::MAX + 1),
    ensures
        ({
            let blocks = all_reads(range_in_torrent(info, i, range), info.piece_length as int);
            &&& bytes_in(blocks) == range.end - range.start
            &&& forall|k: int|
                0 <= k < blocks.len() ==> block_place(info, #[trigger] blocks[k]) == Some(
                    PlaceData {
                        file: file_of(info, i),
                        offset: range.start + bytes_in(blocks.take(k)),
                    },
                )
        }),
    decreases range.end - range.start,
{
    let r = range_in_torrent(info, i, range);
    let d = info.piece_length as int;
    let blocks = all_reads(r, d);
    match info.files {
        Some(files) => {
            file_start_succ(files, i);
            file_start_monotonic(files, i + 1, i + 1);
        },
        None => {},
    }
    if range.start < range.end {
        slice_reads_file(info, i, range);
        let p = slice_prefix(r, d);
        let rest = Range { start: (range.start + p.len) as u64, end: range.end };
        reads_cover_range(info, i, rest);
        let next = all_reads(range_in_torrent(info, i, rest), d);
        assert(blocks =~= seq![p] + next);
        assert(blocks.skip(1) =~= next);
        assert forall|k: int| 0 <= k < blocks.len() implies block_place(
            info,
            #[trigger] blocks[k],
        ) == Some(
            PlaceData { file: file_of(info, i), offset: range.start + bytes_in(blocks.take(k)) },
        ) by {
            if k > 0 {
                assert(blocks[k] == next[k - 1]);
                assert(blocks.take(k).skip(1) =~= next.take(k - 1));
                assert(blocks.take(k)[0] == p);
            }
        }
    } else {
        assert(blocks.len() == 0);
    }
}

/// The sizes of the pieces add up to the size of the torrent.
pub proof fn piece_sizes_add_up(info: TorrentInfoData)
    requires
        info.piece_length > 0,
        info.pieces > 0,
        (info.pieces - 1) * info.piece_length < info.total_size <= info.pieces * info.piece_length,
    ensures
        (info.pieces - 1) * info.piece_length + piece_size(info, info.pieces - 1)
            == info.total_size,
        forall|i: int|
            0 <= i < info.pieces - 1 ==> #[trigger] piece_size(info, i) == info.piece_length,
{
    let d = info.piece_length as int;
    let q = info.pieces - 1;
    let x = info.total_size as int;
    assert((q + 1) * d == q * d + d) by (nonlinear_arith);
    let r = x - q * d;
    if r < d {
        vstd::arithmetic::div_mod::lemma_fundamental_div_mod_converse(x, d, q, r);
    } else {
        assert(x == (q + 1) * d + 0);
        vstd::arithmetic::div_mod::lemma_fundamental_div_mod_converse(x, d, q + 1, 0);
    }
}

/// If the download of a piece is reverted, the places of its cached blocks
/// are to be downloaded again beside those that are to be downloaded anyway, and no others,
/// every place once, and nothing of the piece is cached or counted.
pub proof fn revert_returns_blocks(t: TorrentData, index: int, b: BlockInfo)
    requires
        0 <= index < t.cache.len(),
        0 <= index < t.pieces_blocks.len(),
        0 <= index < t.downloaded_pieces.len(),
    ensures
        reverted(t, index).pieces_blocks[index].to_multiset().count(b) == if t.pieces_blocks[
            index
        ].contains(b) || infos_of(t.cache[index]).contains(b) {
            1nat
        } else {
            0nat
        },
        reverted(t, index).cache[index].len() == 0,
        reverted(t, index).downloaded_pieces[index] == 0,
{
    broadcast use vstd::seq_lib::group_to_multiset_ensures;

    let queued = t.pieces_blocks[index];
    let infos = infos_of(t.cache[index]);
    let both = queued + infos;
    let all = requeued(queued, infos);
    BlockInfo::leq_is_total_ordering();
    all.lemma_sort_by_ensures(|x: BlockInfo, y: BlockInfo| BlockInfo::leq(x, y));
    once_keeps_elements(both);
    all.lemma_multiset_has_no_duplicates();
    if queued.contains(b) {
        assert(both[queued.index_of(b)] == b);
    }
    if infos.contains(b) {
        assert(both[queued.len() + infos.index_of(b)] == b);
    }
    if both.contains(b) {
        let j = both.index_of(b);
        if j < queued.len() {
            assert(queued[j] == b);
        } else {
            assert(infos[j - queued.len()] == b);
        }
    }
    assert(all.contains(b) <==> all.to_multiset().count(b) > 0);
}

/// A block that is downloaded a second time changes nothing:
/// its piece is neither validated nor written nor reverted, and nothing is counted.
pub proof fn duplicate_changes_nothing(
    t: TorrentData,
    block: BlockData,
    res: Result<WriteBlock, Error>,
)
    requires
        refusal(t, block.index as int) is None,
        is_cached(t.cache[block.index as int], block),
        is_block_outcome(t, block, res),
    ensures
        block_written(t, block) == t,
        res matches Ok(WriteBlock::Cached),
{
}

/// What comes of a block does not depend on which pieces are known to be downloaded:
/// a block of every piece of the torrent is accepted.
pub proof fn bits_refuse_no_block(
    t: TorrentData,
    bitfield: Seq<bool>,
    block: BlockData,
    res: Result<WriteBlock, Error>,
)
    ensures
        is_block_outcome(TorrentData { bitfield, ..t }, block, res) <==> is_block_outcome(
            t,
            block,
            res,
        ),
        block_written(TorrentData { bitfield, ..t }, block) == (TorrentData {
            bitfield,
            ..block_written(t, block)
        }),
        is_block_outcome(t, block, res) ==> (res matches Err(Error::PieceIndexInvalid) <==> block.index
            >= t.info.piece_count()),
{
}

/// Recording a piece a second time changes nothing.
pub proof fn recording_is_idempotent(t: TorrentData, index: int)
    requires
        t.wf(),
        0 <= index < t.info.piece_count(),
    ensures
        piece_done(piece_done(t, index), index) == piece_done(t, index),
{
    assert(t.given.update(index, false).update(index, false) =~= t.given.update(index, false));
}

/// A piece becomes downloaded only if it was given to be written.
pub proof fn recorded_piece_was_given(t: TorrentData, index: int, p: int)
    requires
        can_record_piece(t, index),
        is_downloaded(piece_done(t, index).bitfield, p),
        !is_downloaded(t.bitfield, p),
    ensures
        p == index,
        t.given[p],
{
}

/// A piece is given to be written only by a block that completes it,
/// and only if the piece has the promised hash.
pub proof fn given_piece_is_valid(
    d: DiskData,
    msg: DiskMsg,
    action: DiskAction,
    after: DiskData,
    info_hash: Seq<u8>,
    p: int,
)
    requires
        is_accepted(d, msg),
        is_handled(d, msg, action, after),
        d.torrents.contains_key(info_hash) ==> d.torrents[info_hash].wf()
            && !d.torrents[info_hash].given[p],
        after.torrents.contains_key(info_hash),
        0 <= p < after.torrents[info_hash].info.piece_count(),
        after.torrents[info_hash].given[p],
    ensures
        d.torrents.contains_key(info_hash),
        msg matches DiskMsg::WriteBlock { info_hash: h, block } && h@ == info_hash && block.index
            == p && is_complete(with_block(d.torrents[info_hash], block@), p) && is_valid(
            with_block(d.torrents[info_hash], block@),
            p,
        ),
        action is Write,
{
}

/// After the switch to rarest-first, of two pieces to download
/// the one that fewer peers have stands to the right.
pub proof fn rarest_stands_right(
    t: TorrentData,
    peers: Map<Seq<u8>, crate::disk::PeerData>,
    info_hash: Seq<u8>,
    p: u32,
    q: u32,
)
    requires
        t.wf(),
        t.pieces.contains(p),
        t.pieces.contains(q),
        score(peers, info_hash, p as int) > score(peers, info_hash, q as int),
        score(peers, info_hash, p as int) <= u64::MAX,
    ensures
        rarest(t, peers, info_hash).pieces.index_of(p) < rarest(
            t,
            peers,
            info_hash,
        ).pieces.index_of(q),
{
    let ranks = scores(peers, info_hash, t.pieces);
    let i = t.pieces.index_of(p);
    let j = t.pieces.index_of(q);
    reordered_is_permutation(t.pieces, ranks);
    assert(ranks[i] > ranks[j]);
    assert(t.pieces[i] == p && t.pieces[j] == q);
}

/// Only a piece that is complete and has the promised hash is written to the files.
pub proof fn written_piece_is_valid(t: TorrentData, block: BlockData, res: Result<WriteBlock, Error>)
    requires
        is_block_outcome(t, block, res),
        res matches Ok(WriteBlock::Complete(_)),
    ensures
        refusal(t, block.index as int) is None,
        is_complete(with_block(t, block), block.index as int),
        is_valid(with_block(t, block), block.index as int),
{
}

/// A piece whose writes are given can be recorded as written.
pub proof fn written_piece_is_recorded(
    t: TorrentData,
    block: BlockData,
    res: Result<WriteBlock, Error>,
)
    requires
        t.wf(),
        can_write_block(t, block),
        is_block_outcome(t, block, res),
        res matches Ok(WriteBlock::Complete(_)),
    ensures
        can_record_piece(block_written(t, block), block.index as int),
{
}

/// Only content of downloaded pieces is given to slice readers.
pub proof fn read_is_downloaded(d: DiskData, slice_id: SliceId, block_info: BlockInfo)
    requires
        slice_reading(d, slice_id) == ReadSlice::Read(block_info),
    ensures
        d.slices.contains_key(slice_id),
        d.torrents[d.slices[slice_id].info_hash@].bitfield[block_info.index as int],
{
}

/// Handling a message makes no piece of a torrent downloaded:
/// this is up to [`crate::disk::Disk::piece_written`].
pub proof fn handling_keeps_bits(
    d: DiskData,
    msg: DiskMsg,
    action: DiskAction,
    after: DiskData,
    info_hash: Seq<u8>,
)
    requires
        is_accepted(d, msg),
        is_handled(d, msg, action, after),
        d.torrents.contains_key(info_hash),
    ensures
        after.torrents.contains_key(info_hash),
        after.torrents[info_hash].bitfield == d.torrents[info_hash].bitfield,
{
}

/// Whether the slice `attr` waits for a piece that is not downloaded, if it waits for one.
pub open spec fn waits_rightly(d: DiskData, attr: Attr) -> bool {
    attr.read_req matches Some((piece_i, req)) ==> {
        &&& req.block_info.index == piece_i
        &&& d.torrents.contains_key(attr.info_hash@)
        &&& piece_i < d.torrents[attr.info_hash@].bitfield.len()
        &&& !d.torrents[attr.info_hash@].bitfield[piece_i as int]
    }
}

/// Whether no slice waits for a piece that is downloaded.
pub open spec fn all_wait_rightly(d: DiskData) -> bool {
    forall|id: SliceId| #[trigger] d.slices.contains_key(id) ==> waits_rightly(d, d.slices[id])
}

/// Handling a message leaves no slice waiting for a piece that is downloaded.
pub proof fn handling_keeps_waits(d: DiskData, msg: DiskMsg, action: DiskAction, after: DiskData)
    requires
        slices_inside(d),
        all_wait_rightly(d),
        is_accepted(d, msg),
        is_handled(d, msg, action, after),
    ensures
        all_wait_rightly(after),
{
    assert forall|id: SliceId| #[trigger] after.slices.contains_key(id) implies waits_rightly(
        after,
        after.slices[id],
    ) by {
        match msg {
            DiskMsg::ReadSlice { slice_id, recipient } => {
                assert(d.slices.contains_key(id));
                if id == slice_id && after != d {
                    let range = d.slices[id].payload;
                    let t = d.torrents[d.slices[id].info_hash@];
                    assert(crate::disk::is_inside(d, d.slices[id]));
                    read_is_prefix(range, t.info.piece_length);
                    let x = range.start as int;
                    let pl = t.info.piece_length as int;
                    vstd::arithmetic::div_mod::lemma_fundamental_div_mod(x, pl);
                    assert(0 <= x / pl <= u32::MAX) by (nonlinear_arith)
                        requires
                            pl * (x / pl) <= x,
                            x < pl * (u32::MAX + 1),
                            0 <= x,
                            0 <= pl,
                    ;
                }
            },
            DiskMsg::NewSlice { file_id, range_in_file } => {
                if id != d.next_slice_id {
                    assert(d.slices.contains_key(id));
                }
            },
            _ => {
                assert(d.slices.contains_key(id));
                assert(crate::disk::is_inside(d, d.slices[id]));
            },
        }
    }
}

/// Recording a piece as downloaded, and taking the requests that wait for it,
/// leaves no slice waiting for a piece that is downloaded.
pub proof fn piece_written_keeps_waits(d: DiskData, info_hash: Seq<u8>, index: u32, after: DiskData)
    requires
        all_wait_rightly(d),
        d.torrents.contains_key(info_hash),
        ({
            let next = piece_done(d.torrents[info_hash], index as int);
            after == DiskData {
                torrents: d.torrents.insert(
                    info_hash,
                    if is_switching(d.torrents[info_hash], index as int) {
                        rarest(next, d.peers, info_hash)
                    } else {
                        next
                    },
                ),
                slices: reqs_removed(d.slices, info_hash, index),
                ..d
            }
        }),
    ensures
        all_wait_rightly(after),
        forall|id: SliceId|
            after.slices.contains_key(id) ==> !waits_for(
                #[trigger] after.slices[id],
                info_hash,
                index,
            ),
{
    assert forall|id: SliceId| #[trigger] after.slices.contains_key(id) implies waits_rightly(
        after,
        after.slices[id],
    ) by {
        assert(d.slices.contains_key(id));
    }
}

} // verus!
