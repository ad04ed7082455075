//! The download of a torrent: which blocks and pieces are requested, cached and done.
use crate::disk::layout::{
    disk_files, has_files, info_fits, offset_exceeds, piece_size, torrent_info, TorrentInfo,
};
use crate::disk::range::{
    piece_range_fits, slices_to_pieces, up_to_is_div_ceil, wanted_pieces,
};
use crate::disk::write_plan::{
    paths_differ, plan_writes, write_plan, writes_data, FileWrite, WriteData,
};
use crate::error::Error;
use crate::hash::{sha1, sha1_digest};
use crate::metainfo::{Info, InfoData, PIECE_HASH_LEN};
use crate::order::{
    descending, descending_is_stable_sort, descending_order, keys, sort, sorted, Sortable,
};
use crate::tcp_wire::{Block, BlockData, BlockInfo};
use std::collections::VecDeque;
use std::ops::Range;
use vstd::prelude::*;

verus! {

/// The algorithm that determines how pieces are downloaded.
/// The recommended is Random. But Sequential is used for streaming.
///
/// The default algorithm to use is random-first until we have
/// a complete piece, after that, we switch to rarest-first.
#[derive(Clone, Copy, Debug, PartialEq, Eq, Hash, Structural)]
pub enum PieceStrategy {
    /// Random-first, select random pieces to download.
    Random,
    /// Rarest-first, give priority to the rarest pieces.
    Rarest,
    /// Sequential downloads, useful in streaming.
    Sequential,
}

impl Default for PieceStrategy {
    fn default() -> (res: Self)
        ensures
            res == PieceStrategy::Random,
    {
        PieceStrategy::Random
    }
}

/// The state of the download of a torrent.
#[derive(Debug)]
pub struct TorrentState {
    /// The description of the content of the torrent.
    pub info: Info,
    /// A summary of `info`.
    pub summary: TorrentInfo,
    /// For every piece, whether it is downloaded.
    pub bitfield: Vec<bool>,
    /// The sequence in which pieces will be downloaded, based on `piece_strategy`.
    pub pieces: Vec<u32>,
    /// How many pieces were downloaded.
    pub downloaded_pieces_len: u32,
    /// How many bytes were downloaded for each piece.
    pub downloaded_pieces: Vec<u64>,
    /// How the next piece is chosen.
    pub piece_strategy: PieceStrategy,
    /// The downloaded blocks of each piece that is not complete.
    pub cache: Vec<Vec<Block>>,
    /// For every piece, its blocks that are neither downloaded nor being downloaded.
    pub pieces_blocks: Vec<VecDeque<BlockInfo>>,
    /// For every piece, whether it had the promised hash and was given to be written,
    /// and was not recorded as written since.
    pub given: Vec<bool>,
}

/// What a [`TorrentState`] holds.
pub ghost struct TorrentData {
    pub info: InfoData,
    pub bitfield: Seq<bool>,
    pub pieces: Seq<u32>,
    pub downloaded_pieces_len: u32,
    pub downloaded_pieces: Seq<u64>,
    pub piece_strategy: PieceStrategy,
    pub cache: Seq<Seq<BlockData>>,
    pub pieces_blocks: Seq<Seq<BlockInfo>>,
    pub given: Seq<bool>,
}

/// What the cached blocks of all pieces hold.
pub open spec fn cache_data(cache: Seq<Vec<Block>>) -> Seq<Seq<BlockData>> {
    cache.map_values(|blocks: Vec<Block>| keys(blocks@))
}

/// The blocks in the queues of all pieces.
pub open spec fn queues_data(queues: Seq<VecDeque<BlockInfo>>) -> Seq<Seq<BlockInfo>> {
    queues.map_values(|queue: VecDeque<BlockInfo>| queue@)
}

impl View for TorrentState {
    type V = TorrentData;

    open spec fn view(&self) -> TorrentData {
        TorrentData {
            info: self.info@,
            bitfield: self.bitfield@,
            pieces: self.pieces@,
            downloaded_pieces_len: self.downloaded_pieces_len,
            downloaded_pieces: self.downloaded_pieces@,
            piece_strategy: self.piece_strategy,
            cache: cache_data(self.cache@),
            pieces_blocks: queues_data(self.pieces_blocks@),
            given: self.given@,
        }
    }
}

/// Whether the piece `p` is known to be downloaded.
pub open spec fn is_downloaded(bitfield: Seq<bool>, p: int) -> bool {
    0 <= p < bitfield.len() && bitfield[p]
}

/// Whether the blocks in every cache are blocks of its piece.
pub open spec fn cache_in_place(cache: Seq<Seq<BlockData>>) -> bool {
    forall|p: int, k: int|
        0 <= p < cache.len() && 0 <= k < cache[p].len() ==> (#[trigger] cache[p][k]).index == p
}

/// Whether the blocks in every queue are blocks of its piece.
pub open spec fn queues_in_place(queues: Seq<Seq<BlockInfo>>) -> bool {
    forall|p: int, k: int|
        0 <= p < queues.len() && 0 <= k < queues[p].len() ==> (#[trigger] queues[p][k]).index == p
}

impl TorrentData {
    /// Whether the lists agree with each other: there is a cache and a byte count for every piece,
    /// and the pieces to download are different pieces of the torrent.
    /// A piece that is not downloaded is to be downloaded,
    /// and a piece that was to be downloaded was downloaded or still is to be.
    /// Caches and queues hold blocks of their pieces,
    /// and what is counted of a piece with cached blocks are the bytes of these blocks.
    pub open spec fn wf(self) -> bool {
        &&& info_fits(self.info)
        &&& self.cache.len() == self.info.piece_count()
        &&& self.downloaded_pieces.len() == self.info.piece_count()
        &&& self.given.len() == self.info.piece_count()
        &&& self.pieces.no_duplicates()
        &&& forall|i: int|
            0 <= i < self.pieces.len() ==> (#[trigger] self.pieces[i]) < self.info.piece_count()
        &&& forall|p: u32|
            p < self.info.piece_count() && !is_downloaded(self.bitfield, p as int)
                ==> #[trigger] self.pieces.contains(p)
        &&& self.downloaded_pieces_len + self.pieces.len() == self.info.piece_count()
        &&& cache_in_place(self.cache)
        &&& queues_in_place(self.pieces_blocks)
        &&& forall|i: int|
            0 <= i < self.cache.len() && (#[trigger] self.cache[i]).len() > 0
                ==> self.downloaded_pieces[i] == joined(self.cache[i]).len()
    }
}

impl TorrentState {
    /// Whether the state is consistent, see [`TorrentData::wf`].
    pub open spec fn wf(self) -> bool {
        self@.wf() && self.summary@ == torrent_info(self@.info)
    }
}

/// Why a block of the piece `index` is not accepted: the torrent has no such piece.
/// A block of a piece that is downloaded is accepted.
pub open spec fn refusal(t: TorrentData, index: int) -> Option<Error> {
    if index >= t.info.piece_count() {
        Some(Error::PieceIndexInvalid)
    } else {
        None
    }
}

/// Whether one of `blocks` is at the place of `block`.
pub open spec fn is_cached(blocks: Seq<BlockData>, block: BlockData) -> bool {
    exists|k: int| 0 <= k < blocks.len() && (#[trigger] blocks[k]).info() == block.info()
}

/// The state `t` after the block `block` was downloaded.
/// A block that is cached already changes nothing.
pub open spec fn with_block(t: TorrentData, block: BlockData) -> TorrentData {
    let i = block.index as int;
    if is_cached(t.cache[i], block) {
        t
    } else {
        TorrentData {
            cache: t.cache.update(i, t.cache[i].push(block)),
            downloaded_pieces: t.downloaded_pieces.update(
                i,
                (joined(t.cache[i]).len() + block.block.len()) as u64,
            ),
            ..t
        }
    }
}

/// Whether the cached blocks of the piece `index` have as many bytes as the piece.
pub open spec fn is_complete(t: TorrentData, index: int) -> bool {
    joined(t.cache[index]).len() >= piece_size(torrent_info(t.info), index)
}

/// Whether the size of the piece `index` can be told.
pub open spec fn has_piece_size(info: InfoData, index: int) -> bool {
    info.piece_count() > 0 && (index == info.piece_count() - 1 ==> info.piece_length > 0)
}

/// Whether the download of `block` can be recorded if it is accepted:
/// the size of its piece can be told,
/// and the number of its bytes can be added to those that are cached.
pub open spec fn can_add_block(t: TorrentData, block: BlockData) -> bool {
    let i = block.index as int;
    &&& has_piece_size(t.info, i)
    &&& refusal(t, i) is None && !is_cached(t.cache[i], block) ==> joined(t.cache[i]).len()
        + block.block.len() <= u64::MAX
}

/// Appending a block appends its data.
proof fn joined_push(blocks: Seq<BlockData>, block: BlockData)
    ensures
        joined(blocks.push(block)) == joined(blocks) + block.block,
{
    assert(blocks.push(block).drop_last() =~= blocks);
}

impl TorrentState {
    /// The number of cached bytes of a piece.
    fn cached_len(&self, index: usize) -> (res: u64)
        requires
            self.wf(),
            index < self@.info.piece_count(),
        ensures
            res == joined(self@.cache[index as int]).len(),
    {
        assert(self@.cache[index as int] == keys(self.cache@[index as int]@));
        if self.cache[index].len() == 0 {
            0
        } else {
            self.downloaded_pieces[index]
        }
    }

    /// Caches a downloaded block, unless it is cached already.
    /// Tells whether its piece is complete now.
    pub fn add_block(&mut self, block: Block) -> (res: Result<bool, Error>)
        requires
            old(self).wf(),
            can_add_block(old(self)@, block@),
        ensures
            final(self).wf(),
            res is Ok <==> refusal(old(self)@, block.index as int) is None,
            match res {
                Ok(complete) => final(self)@ == with_block(old(self)@, block@) && complete == (
                !is_cached(old(self)@.cache[block.index as int], block@) && is_complete(
                    final(self)@,
                    block.index as int,
                )),
                Err(e) => Some(e) == refusal(old(self)@, block.index as int) && final(self)@ == old(
                    self,
                )@,
            },
    {
        let len: usize = block.block.len();
        let index: usize = block.index;
        let size: u32 = self.summary.piece_size(index);
        if index >= self.summary.pieces as usize {
            return Err(Error::PieceIndexInvalid);
        }
        let ghost before = self@;
        let ghost data = block@;
        if contains_info(&self.cache[index], &block) {
            return Ok(false);
        }
        let new: u64 = self.cached_len(index) + len as u64;
        self.cache[index].push(block);
        self.downloaded_pieces[index] = new;
        proof {
            let next = with_block(before, data);
            assert(keys(self.cache@[index as int]@) =~= before.cache[index as int].push(data));
            assert(self@.cache =~= next.cache);
            joined_push(before.cache[index as int], data);
            assert(self@ == next);
        }
        Ok(new >= size as u64)
    }
}

/// Whether one of `blocks` is at the place of `block`.
fn contains_info(blocks: &Vec<Block>, block: &Block) -> (res: bool)
    ensures
        res == is_cached(keys(blocks@), block@),
{
    let info = BlockInfo::of(block);
    let mut i: usize = 0;
    while i < blocks.len()
        invariant
            i <= blocks.len(),
            info == block@.info(),
            forall|k: int| 0 <= k < i ==> (#[trigger] keys(blocks@)[k]).info() != info,
        decreases blocks.len() - i,
    {
        if BlockInfo::of(&blocks[i]) == info {
            assert(keys(blocks@)[i as int].info() == info);
            return true;
        }
        i += 1;
    }
    false
}

/// The concatenation of the data of `blocks`.
pub open spec fn joined(blocks: Seq<BlockData>) -> Seq<u8>
    decreases blocks.len(),
{
    if blocks.len() == 0 {
        Seq::empty()
    } else {
        joined(blocks.drop_last()) + blocks.last().block
    }
}

/// Whether the cached blocks of the piece `index`, in their order, have the hash of the piece.
pub open spec fn is_valid(t: TorrentData, index: int) -> bool {
    sha1(joined(sorted::<Block>(t.cache[index]))) == t.info.piece_hash(index)
}

impl TorrentState {
    /// Validates the hash of a piece. The data of the piece are its blocks in the cache.
    pub fn validate_piece(&self, index: usize) -> (res: Result<(), Error>)
        requires
            self.wf(),
            index < self@.info.piece_count(),
        ensures
            res is Ok <==> is_valid(self@, index as int),
            res matches Err(e) ==> e == Error::PieceInvalid,
    {
        if has_hash(&self.info, index, clone_blocks(&self.cache[index])) {
            Ok(())
        } else {
            Err(Error::PieceInvalid)
        }
    }
}

/// Copies blocks.
fn clone_blocks(blocks: &Vec<Block>) -> (res: Vec<Block>)
    ensures
        keys(res@) == keys(blocks@),
{
    let mut res: Vec<Block> = Vec::new();
    let mut i: usize = 0;
    while i < blocks.len()
        invariant
            i <= blocks.len(),
            keys(res@) =~= keys(blocks@).take(i as int),
        decreases blocks.len() - i,
    {
        let ghost before = res@;
        res.push(blocks[i].clone());
        assert(keys(res@) =~= keys(before).push(blocks@[i as int]@));
        i += 1;
    }
    assert(keys(blocks@).take(i as int) =~= keys(blocks@));
    res
}

/// Whether the blocks `blocks`, in their order, have the hash of the piece `index`.
fn has_hash(info: &Info, index: usize, blocks: Vec<Block>) -> (res: bool)
    requires
        index < info@.piece_count(),
    ensures
        res == (sha1(joined(sorted::<Block>(keys(blocks@)))) == info@.piece_hash(index as int)),
{
    let ghost promised = info@.piece_hash(index as int);
    let ghost digest = sha1(joined(sorted::<Block>(keys(blocks@))));
    let mut ordered = blocks;
    sort(&mut ordered);
    let data = join(&ordered);
    let hash = sha1_digest(data.as_slice());
    assert(info.pieces.len() >= PIECE_HASH_LEN * index + PIECE_HASH_LEN);
    let b: usize = index * PIECE_HASH_LEN;
    let mut k: usize = 0;
    while k < PIECE_HASH_LEN
        invariant
            k <= PIECE_HASH_LEN,
            b == index * PIECE_HASH_LEN,
            info.pieces.len() >= b + PIECE_HASH_LEN,
            promised == info@.piece_hash(index as int),
            hash@.len() == PIECE_HASH_LEN,
            hash@ == digest,
            digest == sha1(joined(sorted::<Block>(keys(blocks@)))),
            forall|j: int| 0 <= j < k ==> hash@[j] == #[trigger] promised[j],
        decreases PIECE_HASH_LEN - k,
    {
        if hash[k] != info.pieces[b + k] {
            assert(hash@[k as int] != promised[k as int]);
            return false;
        }
        k += 1;
    }
    assert(hash@ =~= promised);
    true
}

/// Concatenates the data of `blocks`.
fn join(blocks: &Vec<Block>) -> (res: Vec<u8>)
    ensures
        res@ == joined(keys(blocks@)),
{
    let ghost data = keys(blocks@);
    let mut res: Vec<u8> = Vec::new();
    let mut i: usize = 0;
    assert(data.take(0) =~= Seq::empty());
    while i < blocks.len()
        invariant
            i <= blocks.len(),
            data == keys(blocks@),
            res@ =~= joined(data.take(i as int)),
        decreases blocks.len() - i,
    {
        let ghost before = res@;
        res.extend_from_slice(blocks[i].block.as_slice());
        proof {
            assert(data.take(i + 1).drop_last() =~= data.take(i as int));
            assert(res@ =~= before + blocks@[i as int].block@);
        }
        i += 1;
    }
    assert(data.take(i as int) =~= data);
    res
}

impl TorrentState {
    /// Empties the cache of a piece.
    fn take_cache(&mut self, index: usize) -> (res: Vec<Block>)
        requires
            old(self).wf(),
            index < old(self)@.info.piece_count(),
        ensures
            final(self).wf(),
            keys(res@) == old(self)@.cache[index as int],
            final(self)@ == cache_emptied(old(self)@, index as int),
    {
        let ghost before = self@;
        let mut blocks: Vec<Block> = Vec::new();
        std::mem::swap(&mut blocks, &mut self.cache[index]);
        proof {
            assert(keys(self.cache@[index as int]@) =~= Seq::empty());
            assert(self@.cache =~= cache_emptied(before, index as int).cache);
            assert(self@ == cache_emptied(before, index as int));
        }
        blocks
    }

    /// Takes the blocks of a piece out of the cache and plans how to write them to the files.
    pub fn write_pieces(&mut self, piece: usize) -> (res: Result<Vec<FileWrite>, Error>)
        requires
            old(self).wf(),
            piece < old(self)@.info.piece_count(),
            has_files(old(self)@.info),
        ensures
            final(self).wf(),
            final(self)@ == piece_given(old(self)@, piece as int),
            res is Ok <==> piece_writes(old(self)@, piece as int) is Some,
            match res {
                Ok(writes) => Some(writes_data(writes@)) == piece_writes(old(self)@, piece as int)
                    && paths_differ(writes_data(writes@)),
                Err(e) => e matches Error::FileOpenError(text) && text@ == offset_exceeds(),
            },
    {
        let mut blocks = self.take_cache(piece);
        sort(&mut blocks);
        let res = plan_writes(&self.info, &self.summary, piece as u32, &blocks);
        if res.is_ok() {
            self.given[piece] = true;
        }
        res
    }

    /// Reverts the download of a piece: its cached blocks are to be downloaded again,
    /// beside those that are to be downloaded anyway, every block once.
    pub fn revert_piece(&mut self, index: usize)
        requires
            old(self).wf(),
            index < old(self)@.info.piece_count(),
            index < old(self)@.pieces_blocks.len(),
        ensures
            final(self).wf(),
            final(self)@ == reverted(old(self)@, index as int),
    {
        let ghost before = self@;
        let blocks = self.take_cache(index);
        let ghost queued = before.pieces_blocks[index as int];
        let ghost all = infos_of(before.cache[index as int]);
        let mut infos: Vec<BlockInfo> = Vec::new();
        let mut k: usize = 0;
        assert(queued.take(0) =~= Seq::empty());
        while k < self.pieces_blocks[index].len()
            invariant
                index < self.pieces_blocks@.len(),
                k <= self.pieces_blocks@[index as int]@.len(),
                queued == self.pieces_blocks@[index as int]@,
                infos@ == once(queued.take(k as int)),
            decreases self.pieces_blocks@[index as int]@.len() - k,
        {
            let info = self.pieces_blocks[index][k];
            proof {
                assert(queued.take(k + 1).drop_last() =~= queued.take(k as int));
                assert(queued.take(k + 1).last() == info);
            }
            push_once(&mut infos, info);
            k += 1;
        }
        let mut i: usize = 0;
        assert(queued.take(k as int) =~= queued);
        assert(queued + all.take(0) =~= queued);
        while i < blocks.len()
            invariant
                i <= blocks.len(),
                all == infos_of(keys(blocks@)),
                infos@ == once(queued + all.take(i as int)),
            decreases blocks.len() - i,
        {
            let info = BlockInfo::of(&blocks[i]);
            proof {
                let next = queued + all.take(i + 1);
                assert(all[i as int] == info);
                assert(next.drop_last() =~= queued + all.take(i as int));
                assert(next.last() == info);
            }
            push_once(&mut infos, info);
            i += 1;
        }
        proof {
            assert(all.take(i as int) =~= all);
            assert(infos@ =~= requeued(queued, all));
            assert(keys(infos@) =~= infos@);
        }
        sort(&mut infos);
        assert(keys(infos@) =~= infos@);
        let mut queue: VecDeque<BlockInfo> = VecDeque::new();
        let mut k: usize = 0;
        while k < infos.len()
            invariant
                k <= infos.len(),
                queue@ =~= infos@.take(k as int),
            decreases infos.len() - k,
        {
            queue.push_back(infos[k]);
            k += 1;
        }
        assert(infos@.take(k as int) =~= infos@);
        self.pieces_blocks[index] = queue;
        self.downloaded_pieces[index] = 0;
        proof {
            let after = reverted(before, index as int);
            assert(self@.pieces_blocks =~= after.pieces_blocks);
            assert(self@ == after);
            requeued_in_place(queued, before.cache[index as int], index as int);
        }
    }
}

/// Appends `info` to `infos`, unless it is there already.
fn push_once(infos: &mut Vec<BlockInfo>, info: BlockInfo)
    ensures
        final(infos)@ == if old(infos)@.contains(info) {
            old(infos)@
        } else {
            old(infos)@.push(info)
        },
{
    let mut i: usize = 0;
    while i < infos.len()
        invariant
            i <= infos.len(),
            infos@ == old(infos)@,
            forall|k: int| 0 <= k < i ==> #[trigger] infos@[k] != info,
        decreases infos.len() - i,
    {
        if infos[i] == info {
            return;
        }
        i += 1;
    }
    infos.push(info);
}

/// The elements of `s`, every element once.
pub open spec fn once(s: Seq<BlockInfo>) -> Seq<BlockInfo>
    decreases s.len(),
{
    if s.len() == 0 {
        Seq::empty()
    } else {
        let front = once(s.drop_last());
        if front.contains(s.last()) {
            front
        } else {
            front.push(s.last())
        }
    }
}

/// `once` keeps every element, and every element once.
pub proof fn once_keeps_elements(s: Seq<BlockInfo>)
    ensures
        once(s).no_duplicates(),
        forall|b: BlockInfo| #[trigger] once(s).contains(b) <==> s.contains(b),
    decreases s.len(),
{
    if s.len() > 0 {
        let front = s.drop_last();
        let kept = once(front);
        once_keeps_elements(front);
        assert forall|b: BlockInfo| #[trigger] once(s).contains(b) <==> s.contains(b) by {
            if front.contains(b) {
                assert(s[front.index_of(b)] == b);
            }
            assert(s[s.len() - 1] == s.last());
            if kept.contains(b) {
                assert(kept.push(s.last())[kept.index_of(b)] == b);
            }
            assert(kept.push(s.last())[kept.len() as int] == s.last());
            if s.contains(b) && b != s.last() {
                assert(front[s.index_of(b)] == b);
            }
        }
    }
}

/// The blocks in `queued` and in `infos`, every block once.
pub open spec fn requeued(queued: Seq<BlockInfo>, infos: Seq<BlockInfo>) -> Seq<BlockInfo> {
    once(queued + infos)
}

/// The queue of a reverted piece holds blocks of the piece.
proof fn requeued_in_place(queued: Seq<BlockInfo>, cached: Seq<BlockData>, index: int)
    requires
        0 <= index <= u32::MAX,
        forall|k: int| 0 <= k < queued.len() ==> (#[trigger] queued[k]).index == index,
        forall|k: int| 0 <= k < cached.len() ==> (#[trigger] cached[k]).index == index,
    ensures
        forall|k: int|
            0 <= k < sorted::<BlockInfo>(requeued(queued, infos_of(cached))).len() ==> (
            #[trigger] sorted::<BlockInfo>(requeued(queued, infos_of(cached)))[k]).index == index,
{
    let infos = infos_of(cached);
    let both = queued + infos;
    let all = requeued(queued, infos);
    let res = sorted::<BlockInfo>(all);
    BlockInfo::leq_is_total_ordering();
    all.lemma_sort_by_ensures(|a: BlockInfo, b: BlockInfo| BlockInfo::leq(a, b));
    once_keeps_elements(both);
    assert forall|k: int| 0 <= k < res.len() implies (#[trigger] res[k]).index == index by {
        assert(res.contains(res[k]));
        assert(all.contains(res[k]));
        let j = both.index_of(res[k]);
        if j >= queued.len() {
            assert(infos[j - queued.len()] == cached[j - queued.len()].info());
        }
    }
}

/// The state `t` with an empty cache of the piece `index`.
pub open spec fn cache_emptied(t: TorrentData, index: int) -> TorrentData {
    TorrentData { cache: t.cache.update(index, Seq::empty()), ..t }
}

/// The writes that store the cached blocks of the piece `index`.
pub open spec fn piece_writes(t: TorrentData, index: int) -> Option<Seq<WriteData>> {
    write_plan(t.info, index, sorted::<Block>(t.cache[index]))
}

/// The state `t` after the piece `index` was given to be written, if it can be written.
pub open spec fn piece_given(t: TorrentData, index: int) -> TorrentData {
    TorrentData {
        given: if piece_writes(t, index) is Some {
            t.given.update(index, true)
        } else {
            t.given
        },
        ..cache_emptied(t, index)
    }
}

/// The places of `blocks`.
pub open spec fn infos_of(blocks: Seq<BlockData>) -> Seq<BlockInfo> {
    blocks.map_values(|b: BlockData| b.info())
}

/// The state `t` after the download of the piece `index` was reverted.
pub open spec fn reverted(t: TorrentData, index: int) -> TorrentData {
    TorrentData {
        cache: t.cache.update(index, Seq::empty()),
        pieces_blocks: t.pieces_blocks.update(
            index,
            sorted::<BlockInfo>(requeued(t.pieces_blocks[index], infos_of(t.cache[index]))),
        ),
        downloaded_pieces: t.downloaded_pieces.update(index, 0),
        ..t
    }
}

/// The bits `bitfield` with the bit `index` set. Bits in between are not set.
pub open spec fn with_bit(bitfield: Seq<bool>, index: int) -> Seq<bool> {
    Seq::new(
        if index < bitfield.len() {
            bitfield.len()
        } else {
            (index + 1) as nat
        },
        |i: int| i == index || is_downloaded(bitfield, i),
    )
}

/// The state `t` after the piece `index` was written to the files.
/// A piece that is downloaded already stays so.
pub open spec fn piece_done(t: TorrentData, index: int) -> TorrentData {
    let recorded = TorrentData { given: t.given.update(index, false), ..t };
    if is_downloaded(t.bitfield, index) {
        recorded
    } else {
        TorrentData {
            bitfield: with_bit(t.bitfield, index),
            pieces: without(t.pieces, index),
            downloaded_pieces_len: (t.downloaded_pieces_len + 1) as u32,
            ..recorded
        }
    }
}

/// The pieces `pieces` without the piece `index`.
pub open spec fn without(pieces: Seq<u32>, index: int) -> Seq<u32> {
    pieces.filter(|p: u32| p != index)
}

proof fn filter_out(s: Seq<u32>, x: int)
    requires
        s.no_duplicates(),
    ensures
        without(s, x).no_duplicates(),
        forall|p: u32| #[trigger] without(s, x).contains(p) <==> s.contains(p) && p != x,
        without(s, x).len() == s.len() - if 0 <= x <= u32::MAX && s.contains(x as u32) {
            1int
        } else {
            0int
        },
    decreases s.len(),
{
    reveal(Seq::filter);
    if s.len() > 0 {
        let front = s.drop_last();
        let last = s.last();
        filter_out(front, x);
        let kept = without(front, x);
        assert(s =~= front.push(last));
        assert(!front.contains(last));
        assert(!kept.contains(last));
        assert forall|p: u32| s.contains(p) <==> front.contains(p) || p == last by {
            if front.contains(p) {
                assert(s[front.index_of(p)] == p);
            }
            assert(s[s.len() - 1] == last);
        }
        let all = kept.push(last);
        assert forall|p: u32| #[trigger] all.contains(p) <==> kept.contains(p) || p == last by {
            if kept.contains(p) {
                assert(all[kept.index_of(p)] == p);
            }
            assert(all[kept.len() as int] == last);
        }
        assert(all.no_duplicates()) by {
            assert forall|i: int, j: int|
                0 <= i < all.len() && 0 <= j < all.len() && i != j implies all[i] != all[j] by {
                if i == kept.len() {
                    assert(kept.contains(all[j]));
                } else if j == kept.len() {
                    assert(kept.contains(all[i]));
                } else {
                    assert(kept[i] != kept[j]);
                }
            }
        }
    }
}

impl TorrentState {
    /// Records that a piece was written to the files.
    pub fn set_downloaded(&mut self, index: usize)
        requires
            old(self).wf(),
            index < old(self)@.info.piece_count(),
        ensures
            final(self).wf(),
            final(self)@ == piece_done(old(self)@, index as int),
    {
        let ghost before = self@;
        self.given[index] = false;
        let ghost given = self.given@;
        if index < self.bitfield.len() && self.bitfield[index] {
            return;
        }
        while self.bitfield.len() <= index
            invariant
                index < usize::MAX,
                before.bitfield.len() <= self.bitfield@.len(),
                self.bitfield@.len() <= before.bitfield.len() || self.bitfield@.len() <= index + 1,
                forall|i: int|
                    0 <= i < self.bitfield@.len() ==> #[trigger] self.bitfield@[i]
                        == is_downloaded(before.bitfield, i),
                before == old(self)@,
                self.info == old(self).info,
                self.summary == old(self).summary,
                self.pieces == old(self).pieces,
                self.downloaded_pieces_len == old(self).downloaded_pieces_len,
                self.downloaded_pieces == old(self).downloaded_pieces,
                self.piece_strategy == old(self).piece_strategy,
                self.cache == old(self).cache,
                self.pieces_blocks == old(self).pieces_blocks,
                self.given@ == given,
            decreases index + 1 - self.bitfield@.len(),
        {
            self.bitfield.push(false);
        }
        self.bitfield[index] = true;
        assert(self.bitfield@ =~= with_bit(before.bitfield, index as int));
        let mut pieces: Vec<u32> = Vec::new();
        let mut i: usize = 0;
        proof {
            reveal(Seq::filter);
            assert(self.pieces@.take(0) =~= Seq::empty());
        }
        while i < self.pieces.len()
            invariant
                i <= self.pieces.len(),
                pieces@ =~= without(self.pieces@.take(i as int), index as int),
            decreases self.pieces.len() - i,
        {
            let piece: u32 = self.pieces[i];
            if piece as usize != index {
                pieces.push(piece);
            }
            proof {
                reveal(Seq::filter);
                assert(self.pieces@.take(i + 1).drop_last() =~= self.pieces@.take(i as int));
            }
            i += 1;
        }
        proof {
            assert(self.pieces@.take(i as int) =~= self.pieces@);
            filter_out(before.pieces, index as int);
            assert(before.pieces.contains(index as u32));
        }
        self.pieces = pieces;
        self.downloaded_pieces_len = self.downloaded_pieces_len + 1;
        proof {
            let after = piece_done(before, index as int);
            assert(self@ == after);
            assert forall|i: int| 0 <= i < after.pieces.len() implies (#[trigger] after.pieces[i])
                < after.info.piece_count() by {
                assert(after.pieces.contains(after.pieces[i]));
                let k = before.pieces.index_of(after.pieces[i]);
                assert(before.pieces[k] == after.pieces[i]);
            }
        }
    }

    /// Reorders the pieces to download from the highest rank to the lowest.
    /// Pieces of equal rank keep their order. `ranks[i]` is the rank of the piece `pieces[i]`.
    pub fn order_pieces(&mut self, ranks: &Vec<u64>)
        requires
            old(self).wf(),
            ranks@.len() == old(self)@.pieces.len(),
        ensures
            final(self).wf(),
            final(self)@ == (TorrentData {
                pieces: reordered(old(self)@.pieces, ranks@),
                ..old(self)@
            }),
    {
        let ghost before = self@;
        let order = descending_order(ranks);
        let ghost ints = order@.map_values(|i: usize| i as int);
        let ghost goal = reordered(before.pieces, ranks@);
        proof {
            descending_is_stable_sort(ranks@);
        }
        let mut pieces: Vec<u32> = Vec::new();
        let mut k: usize = 0;
        while k < order.len()
            invariant
                k <= order.len(),
                ints == order@.map_values(|i: usize| i as int),
                ints == descending(ranks@),
                ints.len() == ranks@.len(),
                forall|j: int| 0 <= j < ranks@.len() ==> 0 <= #[trigger] ints[j] < ranks@.len(),
                ranks@.len() == self.pieces@.len(),
                self.pieces@ == before.pieces,
                goal == reordered(before.pieces, ranks@),
                pieces@ =~= goal.take(k as int),
            decreases order.len() - k,
        {
            assert(ints[k as int] == order@[k as int]);
            pieces.push(self.pieces[order[k]]);
            k += 1;
        }
        assert(goal.take(k as int) =~= goal);
        self.pieces = pieces;
        proof {
            reordered_is_permutation(before.pieces, ranks@);
            assert forall|i: int| 0 <= i < goal.len() implies (#[trigger] goal[i])
                < before.info.piece_count() by {
                assert(goal.contains(goal[i]));
                let j = before.pieces.index_of(goal[i]);
                assert(before.pieces[j] == goal[i]);
            }
        }
    }
}

/// The pieces `pieces` from the highest rank to the lowest.
pub open spec fn reordered(pieces: Seq<u32>, ranks: Seq<u64>) -> Seq<u32> {
    descending(ranks).map_values(|i: int| pieces[i])
}

/// Reordering keeps the pieces, and puts a piece with a lower rank to the right.
pub proof fn reordered_is_permutation(pieces: Seq<u32>, ranks: Seq<u64>)
    requires
        pieces.len() == ranks.len(),
        pieces.no_duplicates(),
    ensures
        reordered(pieces, ranks).len() == pieces.len(),
        reordered(pieces, ranks).no_duplicates(),
        forall|p: u32| #[trigger] reordered(pieces, ranks).contains(p) <==> pieces.contains(p),
        forall|i: int, j: int|
            0 <= i < pieces.len() && 0 <= j < pieces.len() && ranks[i] > ranks[j] ==> reordered(
                pieces,
                ranks,
            ).index_of(#[trigger] pieces[i]) < reordered(pieces, ranks).index_of(
                #[trigger] pieces[j],
            ),
{
    descending_is_stable_sort(ranks);
    let order = descending(ranks);
    let goal = reordered(pieces, ranks);
    assert(goal.no_duplicates()) by {
        assert forall|k: int, l: int|
            0 <= k < goal.len() && 0 <= l < goal.len() && k != l implies goal[k] != goal[l] by {
            assert(order[k] != order[l]);
            assert(goal[k] == pieces[order[k]] && goal[l] == pieces[order[l]]);
        }
    }
    assert forall|p: u32| #[trigger] goal.contains(p) <==> pieces.contains(p) by {
        if goal.contains(p) {
            let k = goal.index_of(p);
            assert(pieces[order[k]] == p);
        }
        if pieces.contains(p) {
            let i = pieces.index_of(p);
            assert(order.contains(i));
            assert(goal[order.index_of(i)] == p);
        }
    }
    assert forall|i: int, j: int|
        0 <= i < pieces.len() && 0 <= j < pieces.len() && ranks[i] > ranks[j] implies goal.index_of(
        #[trigger] pieces[i],
    ) < goal.index_of(#[trigger] pieces[j]) by {
        assert(order.contains(i) && order.contains(j));
        let k = order.index_of(i);
        let l = order.index_of(j);
        assert(goal[k] == pieces[i] && goal[l] == pieces[j]);
        assert(goal.contains(pieces[i]) && goal.contains(pieces[j]));
        assert(goal.index_of(pieces[i]) == k);
        assert(goal.index_of(pieces[j]) == l);
        if l < k {
            assert(order[l] == j && order[k] == i);
        }
    }
}

/// Whether blocks of the piece `p` may be requested of a peer that has the pieces `peer`:
/// the peer has the piece, and the piece is not downloaded.
pub open spec fn eligible(t: TorrentData, peer: Seq<bool>, p: int) -> bool {
    &&& 0 <= p < peer.len()
    &&& peer[p]
    &&& p < t.bitfield.len()
    &&& !t.bitfield[p]
}

/// Blocks that were taken out of the queues of the pieces, and what is left in the queues.
pub ghost struct Taken {
    pub blocks: Seq<BlockInfo>,
    pub queues: Seq<Seq<BlockInfo>>,
}

/// Takes the first blocks out of the queue of the piece `p`, until `qnt` blocks are taken.
pub open spec fn take_from(taken: Taken, p: int, qnt: int) -> Taken {
    let left = qnt - taken.blocks.len();
    let n = if left < taken.queues[p].len() {
        left
    } else {
        taken.queues[p].len() as int
    };
    Taken {
        blocks: taken.blocks + taken.queues[p].take(n),
        queues: taken.queues.update(p, taken.queues[p].skip(n)),
    }
}

/// Takes blocks of the eligible pieces out of their queues, in the order of `pieces`,
/// until `qnt` blocks are taken.
pub open spec fn take_blocks(t: TorrentData, peer: Seq<bool>, pieces: Seq<int>, qnt: int) -> Taken
    decreases pieces.len(),
{
    if pieces.len() == 0 {
        Taken { blocks: Seq::empty(), queues: t.pieces_blocks }
    } else {
        let taken = take_blocks(t, peer, pieces.drop_last(), qnt);
        let p = pieces.last();
        if eligible(t, peer, p) && p < taken.queues.len() {
            take_from(taken, p, qnt)
        } else {
            taken
        }
    }
}

/// The pieces to request blocks of, the most urgent first:
/// the pieces that slice readers are interested in, then all pieces to download.
pub open spec fn piece_queue(t: TorrentData, ranges: Seq<Range<u64>>) -> Seq<int> {
    wanted_pieces(ranges, t.info.piece_length as int) + t.pieces.map_values(|p: u32| p as int)
}

/// The blocks that are requested of a peer.
pub open spec fn requested(
    t: TorrentData,
    peer: Seq<bool>,
    ranges: Seq<Range<u64>>,
    qnt: int,
) -> Taken {
    take_blocks(t, peer, piece_queue(t, ranges), qnt)
}

/// Whether the pieces that the ranges `ranges` overlap have indices.
pub open spec fn ranges_fit(info: InfoData, ranges: Seq<Range<u64>>) -> bool {
    forall|r: int|
        0 <= r < ranges.len() ==> piece_range_fits(
            #[trigger] ranges[r],
            info.piece_length as int,
        )
}

/// Whether a peer that has the pieces `peer` has the piece `p`.
pub open spec fn peer_has(peer: Seq<bool>, p: int) -> bool {
    0 <= p < peer.len() && peer[p]
}

/// Whether the piece at `k` in the queue `pieces` is looked at:
/// no eligible piece before it is reached with all `qnt` blocks taken.
pub open spec fn is_reached(
    t: TorrentData,
    peer: Seq<bool>,
    pieces: Seq<int>,
    qnt: int,
    k: int,
) -> bool {
    forall|j: int|
        0 <= j < k && eligible(t, peer, #[trigger] pieces[j]) ==> take_blocks(
            t,
            peer,
            pieces.take(j),
            qnt,
        ).blocks.len() < qnt
}

/// Whether of every piece that is looked at and that the peer has
/// it is known whether it is downloaded.
pub open spec fn bits_known(t: TorrentData, peer: Seq<bool>, pieces: Seq<int>, qnt: int) -> bool {
    forall|k: int|
        0 <= k < pieces.len() && peer_has(peer, #[trigger] pieces[k]) && is_reached(
            t,
            peer,
            pieces,
            qnt,
            k,
        ) ==> pieces[k] < t.bitfield.len()
}

/// Whether blocks can be requested of a peer that has the pieces `peer`.
pub open spec fn can_request(
    t: TorrentData,
    peer: Seq<bool>,
    ranges: Seq<Range<u64>>,
    qnt: int,
) -> bool {
    ranges_fit(t.info, ranges) && bits_known(t, peer, piece_queue(t, ranges), qnt)
}

proof fn take_blocks_len(t: TorrentData, peer: Seq<bool>, pieces: Seq<int>, qnt: int)
    requires
        0 <= qnt,
    ensures
        take_blocks(t, peer, pieces, qnt).blocks.len() <= qnt,
        take_blocks(t, peer, pieces, qnt).queues.len() == t.pieces_blocks.len(),
    decreases pieces.len(),
{
    if pieces.len() > 0 {
        take_blocks_len(t, peer, pieces.drop_last(), qnt);
    }
}

/// Taking blocks leaves blocks of their pieces in the queues.
proof fn take_blocks_in_place(t: TorrentData, peer: Seq<bool>, pieces: Seq<int>, qnt: int)
    requires
        0 <= qnt,
        queues_in_place(t.pieces_blocks),
    ensures
        queues_in_place(take_blocks(t, peer, pieces, qnt).queues),
    decreases pieces.len(),
{
    if pieces.len() > 0 {
        let front = pieces.drop_last();
        take_blocks_in_place(t, peer, front, qnt);
        take_blocks_len(t, peer, front, qnt);
        let before = take_blocks(t, peer, front, qnt).queues;
        let after = take_blocks(t, peer, pieces, qnt).queues;
        let p = pieces.last();
        assert forall|q: int, k: int| 0 <= q < after.len() && 0 <= k < after[q].len() implies (
        #[trigger] after[q][k]).index == q by {
            let n = before[q].len() - after[q].len();
            assert(after[q][k] == before[q][n + k]);
        }
    }
}

/// Once enough blocks are taken, no more are taken.
proof fn take_blocks_full(t: TorrentData, peer: Seq<bool>, pieces: Seq<int>, qnt: int, n: int)
    requires
        0 <= qnt,
        0 <= n <= pieces.len(),
        take_blocks(t, peer, pieces.take(n), qnt).blocks.len() == qnt,
    ensures
        take_blocks(t, peer, pieces, qnt) == take_blocks(t, peer, pieces.take(n), qnt),
    decreases pieces.len(),
{
    if n < pieces.len() {
        let front = pieces.drop_last();
        assert(front.take(n) =~= pieces.take(n));
        take_blocks_full(t, peer, front, qnt, n);
        let taken = take_blocks(t, peer, front, qnt);
        let p = pieces.last();
        if eligible(t, peer, p) && p < taken.queues.len() {
            assert(taken.queues[p].skip(0) =~= taken.queues[p]);
            assert(taken.queues.update(p, taken.queues[p]) =~= taken.queues);
            assert(taken.blocks + taken.queues[p].take(0) =~= taken.blocks);
        }
    } else {
        assert(pieces.take(n) =~= pieces);
    }
}

impl TorrentState {
    /// Takes at most `qnt` blocks to request of a peer that has the pieces `peer_pieces`,
    /// that were neither downloaded nor requested yet.
    /// `ranges` are the byte ranges in the torrent that slice readers are interested in;
    /// they have priority.
    pub fn request_blocks(
        &mut self,
        peer_pieces: &Vec<bool>,
        ranges: &Vec<Range<u64>>,
        qnt: usize,
    ) -> (res: VecDeque<BlockInfo>)
        requires
            old(self).wf(),
            can_request(old(self)@, peer_pieces@, ranges@, qnt as int),
        ensures
            final(self).wf(),
            res@ == requested(old(self)@, peer_pieces@, ranges@, qnt as int).blocks,
            final(self)@ == (TorrentData {
                pieces_blocks: requested(old(self)@, peer_pieces@, ranges@, qnt as int).queues,
                ..old(self)@
            }),
    {
        let ghost t = self@;
        let ghost peer = peer_pieces@;
        let ghost all = piece_queue(t, ranges@);
        let pieces = self.list_pieces(ranges);
        let mut res: VecDeque<BlockInfo> = VecDeque::new();
        let mut i: usize = 0;
        assert(all.take(0) =~= Seq::empty());
        while i < pieces.len() && res.len() < qnt
            invariant
                i <= pieces.len(),
                peer == peer_pieces@,
                pieces@.map_values(|p: u32| p as int) == all,
                self.info == old(self).info,
                self.summary == old(self).summary,
                self.bitfield == old(self).bitfield,
                self.pieces == old(self).pieces,
                self.downloaded_pieces_len == old(self).downloaded_pieces_len,
                self.downloaded_pieces == old(self).downloaded_pieces,
                self.piece_strategy == old(self).piece_strategy,
                self.cache == old(self).cache,
                self.given == old(self).given,
                t == old(self)@,
                res@ == take_blocks(t, peer, all.take(i as int), qnt as int).blocks,
                queues_data(self.pieces_blocks@) == take_blocks(
                    t,
                    peer,
                    all.take(i as int),
                    qnt as int,
                ).queues,
            decreases pieces.len() - i,
        {
            let piece: usize = pieces[i] as usize;
            let ghost p = piece as int;
            let ghost taken = take_blocks(t, peer, all.take(i as int), qnt as int);
            proof {
                assert(all[i as int] == p);
                assert(all.take(i + 1).drop_last() =~= all.take(i as int));
                assert(all.take(i + 1).last() == p);
            }
            if piece < peer_pieces.len() && peer_pieces[piece] && piece < self.bitfield.len()
                && !self.bitfield[piece] && piece < self.pieces_blocks.len() {
                // The piece stays in `self.pieces` even if no block of it is left,
                // because a peer that disconnects gives its blocks back.
                let left: usize = qnt - res.len();
                let ghost queues = self.pieces_blocks@;
                let mut queue: VecDeque<BlockInfo> = VecDeque::new();
                std::mem::swap(&mut queue, &mut self.pieces_blocks[piece]);
                let ghost whole = queue@;
                let n: usize = if left < queue.len() {
                    left
                } else {
                    queue.len()
                };
                let rest = queue.split_off(n);
                res.append(&mut queue);
                self.pieces_blocks[piece] = rest;
                proof {
                    let next = take_from(taken, p, qnt as int);
                    assert(taken.queues[p] == whole);
                    assert(whole.subrange(0, n as int) =~= whole.take(n as int));
                    assert(whole.subrange(n as int, whole.len() as int) =~= whole.skip(n as int));
                    assert(queues_data(self.pieces_blocks@) =~= next.queues);
                }
            }
            i += 1;
        }
        proof {
            take_blocks_len(t, peer, all.take(i as int), qnt as int);
            take_blocks_in_place(t, peer, all, qnt as int);
            if i < pieces.len() {
                take_blocks_full(t, peer, all, qnt as int, i as int);
            } else {
                assert(all.take(i as int) =~= all);
            }
        }
        res
    }
}

/// Whether `lens` are the lengths of `queues`.
spec fn are_lens(lens: Seq<usize>, queues: Seq<Seq<BlockInfo>>) -> bool {
    &&& lens.len() == queues.len()
    &&& forall|i: int| 0 <= i < lens.len() ==> #[trigger] lens[i] == queues[i].len()
}

/// Taking blocks out of a queue takes as many off its length.
proof fn lens_follow(lens: Seq<usize>, taken: Taken, p: int, qnt: int)
    requires
        are_lens(lens, taken.queues),
        0 <= p < lens.len(),
        taken.blocks.len() <= qnt,
    ensures
        ({
            let left = qnt - taken.blocks.len();
            let n = if left < lens[p] {
                left
            } else {
                lens[p] as int
            };
            let next = take_from(taken, p, qnt);
            &&& next.blocks.len() == taken.blocks.len() + n
            &&& are_lens(lens.update(p, (lens[p] - n) as usize), next.queues)
        }),
{
}

/// One more piece is looked at if blocks were left to take at the one before.
proof fn reached_next(t: TorrentData, peer: Seq<bool>, pieces: Seq<int>, qnt: int, k: int)
    requires
        0 <= k,
        is_reached(t, peer, pieces, qnt, k),
        eligible(t, peer, pieces[k]) ==> take_blocks(t, peer, pieces.take(k), qnt).blocks.len()
            < qnt,
    ensures
        is_reached(t, peer, pieces, qnt, k + 1),
{
}

/// No piece is looked at after an eligible one that is reached with all blocks taken.
proof fn known_up_to_full(t: TorrentData, peer: Seq<bool>, pieces: Seq<int>, qnt: int, i: int)
    requires
        0 <= i < pieces.len(),
        eligible(t, peer, pieces[i]),
        take_blocks(t, peer, pieces.take(i), qnt).blocks.len() == qnt,
        forall|j: int|
            0 <= j < i && peer_has(peer, #[trigger] pieces[j]) ==> pieces[j] < t.bitfield.len(),
    ensures
        bits_known(t, peer, pieces, qnt),
{
    assert forall|j: int|
        0 <= j < pieces.len() && peer_has(peer, #[trigger] pieces[j]) && is_reached(
            t,
            peer,
            pieces,
            qnt,
            j,
        ) implies pieces[j] < t.bitfield.len() by {
        if j > i {
            assert(eligible(t, peer, pieces[i]));
        }
    }
}

impl TorrentState {
    /// The pieces to request blocks of, the most urgent first.
    fn list_pieces(&self, ranges: &Vec<Range<u64>>) -> (res: Vec<u32>)
        requires
            ranges_fit(self@.info, ranges@),
        ensures
            res@.map_values(|p: u32| p as int) == piece_queue(self@, ranges@),
    {
        let mut pieces = slices_to_pieces(ranges, self.info.piece_length);
        let ghost wanted = pieces@;
        assert(wanted.map_values(|p: u32| p as int) =~= wanted_pieces(
            ranges@,
            self@.info.piece_length as int,
        ));
        pieces.extend_from_slice(self.pieces.as_slice());
        assert(pieces@ =~= wanted + self.pieces@);
        assert(pieces@.map_values(|p: u32| p as int) =~= piece_queue(self@, ranges@));
        pieces
    }

    /// Tests [`can_request`].
    #[verifier::spinoff_prover]
    pub fn can_request(
        &self,
        peer_pieces: &Vec<bool>,
        ranges: &Vec<Range<u64>>,
        qnt: usize,
    ) -> (res: bool)
        requires
            self.wf(),
        ensures
            res == can_request(self@, peer_pieces@, ranges@, qnt as int),
    {
        if !test_ranges_fit(&self.info, ranges) {
            return false;
        }
        let ghost t = self@;
        let ghost peer = peer_pieces@;
        let ghost all = piece_queue(t, ranges@);
        let pieces = self.list_pieces(ranges);
        let mut lens: Vec<usize> = Vec::new();
        let mut k: usize = 0;
        while k < self.pieces_blocks.len()
            invariant
                k <= self.pieces_blocks.len(),
                t == self@,
                are_lens(lens@, t.pieces_blocks.take(k as int)),
            decreases self.pieces_blocks.len() - k,
        {
            assert(t.pieces_blocks[k as int] == self.pieces_blocks@[k as int]@);
            lens.push(self.pieces_blocks[k].len());
            k += 1;
        }
        assert(t.pieces_blocks.take(k as int) =~= t.pieces_blocks);
        let mut count: usize = 0;
        let mut i: usize = 0;
        assert(all.take(0) =~= Seq::empty());
        while i < pieces.len()
            invariant
                i <= pieces.len(),
                t == self@,
                peer == peer_pieces@,
                all == piece_queue(t, ranges@),
                ranges_fit(t.info, ranges@),
                pieces@.map_values(|p: u32| p as int) == all,
                count <= qnt,
                count == take_blocks(t, peer, all.take(i as int), qnt as int).blocks.len(),
                are_lens(lens@, take_blocks(t, peer, all.take(i as int), qnt as int).queues),
                is_reached(t, peer, all, qnt as int, i as int),
                forall|j: int|
                    0 <= j < i && peer_has(peer, #[trigger] all[j]) ==> all[j] < t.bitfield.len(),
            decreases pieces.len() - i,
        {
            let piece: usize = pieces[i] as usize;
            proof {
                assert(all[i as int] == piece);
                assert(all.take(i + 1).drop_last() =~= all.take(i as int));
                assert(all.take(i + 1).last() == piece);
            }
            let ghost taken = take_blocks(t, peer, all.take(i as int), qnt as int);
            if piece < peer_pieces.len() && peer_pieces[piece] {
                if piece >= self.bitfield.len() {
                    assert(peer_has(peer, all[i as int]));
                    return false;
                }
                if !self.bitfield[piece] {
                    assert(eligible(t, peer, all[i as int]));
                    if count == qnt {
                        proof {
                            known_up_to_full(t, peer, all, qnt as int, i as int);
                        }
                        return true;
                    }
                    if piece < lens.len() {
                        let left: usize = qnt - count;
                        let n: usize = if left < lens[piece] {
                            left
                        } else {
                            lens[piece]
                        };
                        proof {
                            lens_follow(lens@, taken, piece as int, qnt as int);
                        }
                        count += n;
                        lens[piece] = lens[piece] - n;
                    }
                }
            }
            proof {
                reached_next(t, peer, all, qnt as int, i as int);
            }
            i += 1;
        }
        true
    }
}

/// The queues `queues` with the blocks `blocks` appended to the queues of their pieces.
/// A block of a piece without a queue is dropped.
pub open spec fn returned(queues: Seq<Seq<BlockInfo>>, blocks: Seq<BlockInfo>) -> Seq<
    Seq<BlockInfo>,
>
    decreases blocks.len(),
{
    if blocks.len() == 0 {
        queues
    } else {
        let rest = returned(queues, blocks.drop_last());
        let block = blocks.last();
        if block.index < rest.len() {
            rest.update(block.index as int, rest[block.index as int].push(block))
        } else {
            rest
        }
    }
}

/// Blocks that are given back are put in the queues of their pieces.
proof fn returned_in_place(queues: Seq<Seq<BlockInfo>>, blocks: Seq<BlockInfo>)
    requires
        queues_in_place(queues),
    ensures
        queues_in_place(returned(queues, blocks)),
    decreases blocks.len(),
{
    if blocks.len() > 0 {
        returned_in_place(queues, blocks.drop_last());
    }
}

/// The blocks `blocks` distributed to the queues of their pieces.
/// A block of a piece that has no queue yet starts the next queue.
pub open spec fn distributed(blocks: Seq<BlockInfo>) -> Seq<Seq<BlockInfo>>
    decreases blocks.len(),
{
    if blocks.len() == 0 {
        Seq::empty()
    } else {
        let rest = distributed(blocks.drop_last());
        let block = blocks.last();
        if block.index < rest.len() {
            rest.update(block.index as int, rest[block.index as int].push(block))
        } else {
            rest.push(seq![block])
        }
    }
}

/// Whether the `k`-th block of `blocks` is of a piece that has a queue when it is distributed,
/// or of the next one: no piece before that of the block is without a block before it.
pub open spec fn is_in_order(blocks: Seq<BlockInfo>, k: int) -> bool {
    blocks[k].index <= distributed(blocks.take(k)).len()
}

/// Whether all blocks of `blocks` are in order.
pub open spec fn blocks_in_order(blocks: Seq<BlockInfo>) -> bool {
    forall|k: int| 0 <= k < blocks.len() ==> #[trigger] is_in_order(blocks, k)
}

/// Blocks in order are distributed to the queues of their pieces.
proof fn distributed_in_place(blocks: Seq<BlockInfo>)
    requires
        blocks_in_order(blocks),
    ensures
        queues_in_place(distributed(blocks)),
    decreases blocks.len(),
{
    if blocks.len() > 0 {
        let front = blocks.drop_last();
        assert(blocks.take(blocks.len() - 1) =~= front);
        assert forall|k: int| 0 <= k < front.len() implies #[trigger] is_in_order(front, k) by {
            assert(is_in_order(blocks, k));
            assert(blocks.take(k) =~= front.take(k));
        }
        distributed_in_place(front);
        assert(is_in_order(blocks, blocks.len() - 1));
    }
}

/// Distributing one more block adds a queue if its piece has none.
proof fn distributed_next(blocks: Seq<BlockInfo>, k: int)
    requires
        0 <= k < blocks.len(),
    ensures
        distributed(blocks.take(k + 1)).len() == distributed(blocks.take(k)).len() + if blocks[k].index
            < distributed(blocks.take(k)).len() {
            0int
        } else {
            1int
        },
{
    assert(blocks.take(k + 1).drop_last() =~= blocks.take(k));
    assert(blocks.take(k + 1).last() == blocks[k]);
}

/// Tests [`blocks_in_order`].
#[verifier::spinoff_prover]
pub fn test_blocks_in_order(blocks: &Vec<BlockInfo>) -> (res: bool)
    ensures
        res == blocks_in_order(blocks@),
{
    let mut n: usize = 0;
    let mut i: usize = 0;
    assert(blocks@.take(0) =~= Seq::empty());
    while i < blocks.len()
        invariant
            i <= blocks.len(),
            n <= i,
            n == distributed(blocks@.take(i as int)).len(),
            forall|k: int| 0 <= k < i ==> #[trigger] is_in_order(blocks@, k),
        decreases blocks.len() - i,
    {
        let index: usize = blocks[i].index as usize;
        proof {
            distributed_next(blocks@, i as int);
        }
        if index > n {
            assert(!is_in_order(blocks@, i as int));
            return false;
        }
        if index == n {
            n += 1;
        }
        i += 1;
    }
    true
}

/// Whether `order` holds every piece of a torrent with `n` pieces once.
pub open spec fn is_piece_order(order: Seq<u32>, n: nat) -> bool {
    &&& order.len() == n
    &&& order.no_duplicates()
    &&& forall|i: int| 0 <= i < order.len() ==> (#[trigger] order[i]) < n
    &&& forall|p: u32| p < n ==> #[trigger] order.contains(p)
}

/// The state of a download that starts with the pieces in the order `order`
/// and with the blocks `blocks` to download.
pub open spec fn started(
    info: InfoData,
    bitfield: Seq<bool>,
    order: Seq<u32>,
    blocks: Seq<BlockInfo>,
) -> TorrentData {
    TorrentData {
        info,
        bitfield,
        pieces: order,
        downloaded_pieces_len: 0,
        downloaded_pieces: Seq::new(info.piece_count(), |i: int| 0),
        piece_strategy: PieceStrategy::Random,
        cache: Seq::new(info.piece_count(), |i: int| Seq::empty()),
        pieces_blocks: distributed(blocks),
        given: Seq::new(info.piece_count(), |i: int| false),
    }
}

impl TorrentState {
    /// Starts a download.
    pub fn new(info: Info, bitfield: Vec<bool>, order: Vec<u32>, blocks: &Vec<BlockInfo>) -> (res:
        Self)
        requires
            info_fits(info@),
            is_piece_order(order@, info@.piece_count()),
            blocks_in_order(blocks@),
        ensures
            res.wf(),
            res@ == started(info@, bitfield@, order@, blocks@),
    {
        let ghost start = started(info@, bitfield@, order@, blocks@);
        let summary = TorrentInfo::of(&info);
        let n: u32 = info.pieces();
        let mut downloaded_pieces: Vec<u64> = Vec::new();
        let mut cache: Vec<Vec<Block>> = Vec::new();
        let mut given: Vec<bool> = Vec::new();
        let mut i: u32 = 0;
        while i < n
            invariant
                i <= n,
                n == info@.piece_count(),
                start == started(info@, bitfield@, order@, blocks@),
                downloaded_pieces@ =~= start.downloaded_pieces.take(i as int),
                cache_data(cache@) =~= start.cache.take(i as int),
                given@ =~= start.given.take(i as int),
            decreases n - i,
        {
            downloaded_pieces.push(0);
            given.push(false);
            let ghost before = cache@;
            let empty: Vec<Block> = Vec::new();
            assert(keys(empty@) =~= Seq::empty());
            cache.push(empty);
            assert(cache_data(cache@) =~= cache_data(before).push(Seq::empty()));
            i += 1;
        }
        assert(start.downloaded_pieces.take(i as int) =~= start.downloaded_pieces);
        assert(start.cache.take(i as int) =~= start.cache);
        assert(start.given.take(i as int) =~= start.given);
        let mut pieces_blocks: Vec<VecDeque<BlockInfo>> = Vec::new();
        let mut k: usize = 0;
        assert(blocks@.take(0) =~= Seq::empty());
        assert(queues_data(pieces_blocks@) =~= Seq::empty());
        while k < blocks.len()
            invariant
                k <= blocks.len(),
                queues_data(pieces_blocks@) == distributed(blocks@.take(k as int)),
            decreases blocks.len() - k,
        {
            let block = blocks[k];
            let index: usize = block.index as usize;
            let ghost before = queues_data(pieces_blocks@);
            proof {
                assert(blocks@.take(k + 1).drop_last() =~= blocks@.take(k as int));
                assert(blocks@.take(k + 1).last() == block);
            }
            if index < pieces_blocks.len() {
                pieces_blocks[index].push_back(block);
                assert(queues_data(pieces_blocks@) =~= before.update(
                    index as int,
                    before[index as int].push(block),
                ));
            } else {
                let mut queue: VecDeque<BlockInfo> = VecDeque::new();
                queue.push_back(block);
                assert(queue@ =~= seq![block]);
                pieces_blocks.push(queue);
                assert(queues_data(pieces_blocks@) =~= before.push(seq![block]));
            }
            k += 1;
        }
        assert(blocks@.take(k as int) =~= blocks@);
        let res = TorrentState {
            info,
            summary,
            bitfield,
            pieces: order,
            downloaded_pieces_len: 0,
            downloaded_pieces,
            piece_strategy: PieceStrategy::Random,
            cache,
            pieces_blocks,
            given,
        };
        proof {
            distributed_in_place(blocks@);
            assert(res@ == start);
        }
        res
    }

    /// Gives blocks back that were requested and not downloaded.
    pub fn return_block_infos(&mut self, blocks: &Vec<BlockInfo>)
        requires
            old(self).wf(),
        ensures
            final(self).wf(),
            final(self)@ == (TorrentData {
                pieces_blocks: returned(old(self)@.pieces_blocks, blocks@),
                ..old(self)@
            }),
    {
        let ghost t = self@;
        let mut k: usize = 0;
        assert(blocks@.take(0) =~= Seq::empty());
        while k < blocks.len()
            invariant
                k <= blocks.len(),
                t == old(self)@,
                self.info == old(self).info,
                self.summary == old(self).summary,
                self.bitfield == old(self).bitfield,
                self.pieces == old(self).pieces,
                self.downloaded_pieces_len == old(self).downloaded_pieces_len,
                self.downloaded_pieces == old(self).downloaded_pieces,
                self.piece_strategy == old(self).piece_strategy,
                self.cache == old(self).cache,
                self.given == old(self).given,
                queues_data(self.pieces_blocks@) == returned(
                    t.pieces_blocks,
                    blocks@.take(k as int),
                ),
            decreases blocks.len() - k,
        {
            let block = blocks[k];
            let index: usize = block.index as usize;
            let ghost before = queues_data(self.pieces_blocks@);
            proof {
                assert(blocks@.take(k + 1).drop_last() =~= blocks@.take(k as int));
                assert(blocks@.take(k + 1).last() == block);
            }
            if index < self.pieces_blocks.len() {
                self.pieces_blocks[index].push_back(block);
                assert(queues_data(self.pieces_blocks@) =~= before.update(
                    index as int,
                    before[index as int].push(block),
                ));
            }
            k += 1;
        }
        assert(blocks@.take(k as int) =~= blocks@);
        proof {
            returned_in_place(t.pieces_blocks, blocks@);
        }
    }
}

/// Whether a downloaded block `block` can be written, see [`crate::disk::Disk::write_block`].
/// If the block completes its piece, the torrent has files to write the piece to,
/// or, if the hash of the piece is not the promised one, a queue to put its blocks back to.
pub open spec fn can_write_block(t: TorrentData, block: BlockData) -> bool {
    let i = block.index as int;
    let next = with_block(t, block);
    &&& can_add_block(t, block)
    &&& refusal(t, i) is None && !is_cached(t.cache[i], block) && is_complete(next, i)
        ==> if is_valid(next, i) {
        has_files(t.info)
    } else {
        i < t.pieces_blocks.len()
    }
}

impl TorrentState {
    /// Tests [`can_write_block`].
    pub fn can_write_block(&self, block: &Block) -> (res: bool)
        requires
            self.wf(),
        ensures
            res == can_write_block(self@, block@),
    {
        let index: usize = block.index;
        if self.summary.pieces == 0 || (index == self.summary.pieces as usize - 1
            && self.info.piece_length == 0) {
            return false;
        }
        if index >= self.summary.pieces as usize {
            return true;
        }
        assert(self@.cache[index as int] == keys(self.cache@[index as int]@));
        if contains_info(&self.cache[index], block) {
            return true;
        }
        let len: u64 = block.block.len() as u64;
        let sum: u64 = match self.cached_len(index).checked_add(len) {
            Some(sum) => sum,
            None => {
                return false;
            },
        };
        let ghost next = with_block(self@, block@);
        proof {
            joined_push(self@.cache[index as int], block@);
        }
        if sum < self.summary.piece_size(index) as u64 {
            return true;
        }
        let has_files: bool = self.info.files.is_some() || self.info.file_length.is_some();
        let has_queue: bool = index < self.pieces_blocks.len();
        if has_files == has_queue {
            return has_files;
        }
        let mut blocks = clone_blocks(&self.cache[index]);
        let ghost before = blocks@;
        blocks.push(block.clone());
        assert(keys(blocks@) =~= keys(before).push(block@));
        assert(keys(blocks@) =~= next.cache[index as int]);
        if has_hash(&self.info, index, blocks) {
            has_files
        } else {
            has_queue
        }
    }
}

impl TorrentState {
    /// The length of a file of the torrent.
    pub fn file_len(&self, i: usize) -> (res: u32)
        requires
            self.wf(),
            i < disk_files(self@.info).len(),
            i == 0 ==> has_files(self@.info),
        ensures
            res == match self@.info.files {
                Some(files) => files[i as int].length,
                None => self@.info.file_length->0,
            },
    {
        match &self.info.files {
            Some(files) => files[i].length,
            None => self.info.file_length.unwrap(),
        }
    }
}

/// Tests [`ranges_fit`].
pub fn test_ranges_fit(info: &Info, ranges: &Vec<Range<u64>>) -> (res: bool)
    ensures
        res == ranges_fit(info@, ranges@),
{
    let len: u64 = info.piece_length as u64;
    let mut i: usize = 0;
    while i < ranges.len()
        invariant
            i <= ranges.len(),
            len == info@.piece_length,
            forall|r: int|
                0 <= r < i ==> piece_range_fits(#[trigger] ranges@[r], len as int),
        decreases ranges.len() - i,
    {
        let range = &ranges[i];
        let ghost r = ranges@[i as int];
        if len == 0 {
            assert(!piece_range_fits(r, len as int));
            return false;
        }
        proof {
            up_to_is_div_ceil(range.end as int, len as int);
        }
        let start: u64 = range.start / len;
        let whole: u64 = range.end / len;
        let end_fits: bool = if range.end % len == 0 {
            whole <= u32::MAX as u64
        } else {
            whole < u32::MAX as u64
        };
        if start > u32::MAX as u64 || !end_fits {
            assert(!piece_range_fits(r, len as int));
            return false;
        }
        i += 1;
    }
    true
}

} // verus!
