//! What holds of adding torrents, of recording pieces and of handling messages.
use crate::disk::layout::{block_place, disk_files};
use crate::disk::layout_laws::{content_size, summary_is_faithful, torrent_is_measured};
use crate::disk::run::{is_accepted, is_handled, DiskAction, DiskMsg};
use crate::disk::request_laws::{blocks_can_be_requested, blocks_get_queues, is_gapless};
use crate::disk::slice::{torrent_payloads, SliceId};
use crate::disk::slice_laws::{is_payload, payloads_are_of_the_torrent};
use crate::disk::torrent::{
    piece_done, reordered, reordered_is_permutation, requested, started, without, PieceStrategy,
    TorrentData,
};
use crate::disk::{
    base_components, has_peers, is_block_read, is_new_torrent, is_request_outcome, is_switching,
    rarest, score, scores, skeleton_file, slices_inside, with_torrent, BlockRead, DiskData,
    NewTorrent, PeerData,
};
use crate::error::Error;
use crate::metainfo::InfoData;
use crate::order::{descending, descending_is_stable_sort};
use crate::tcp_wire::BlockInfo;
use crate::text::texts;
use crate::uri_path::uri_path;
use std::collections::VecDeque;
use std::ops::Range;
use vstd::prelude::*;

verus! {

/// Recording a piece that is not downloaded sets its bit and takes it off the pieces to download.
/// The other bits and the order of the other pieces stay, and the count of pieces grows by one.
/// The piece is no longer given. Nothing else changes.
pub proof fn piece_is_recorded(t: TorrentData, index: int)
    requires
        t.wf(),
        0 <= index,
        20 * index + 20 <= t.info.pieces.len(),
        index >= t.bitfield.len() || !t.bitfield[index],
    ensures
        ({
            let after = piece_done(t, index);
            &&& index < after.bitfield.len() && after.bitfield[index]
            &&& t.bitfield.len() <= after.bitfield.len()
            &&& after.bitfield.len() == t.bitfield.len() || after.bitfield.len() == index + 1
            &&& forall|p: int|
                0 <= p < after.bitfield.len() && p != index ==> #[trigger] after.bitfield[p] == (p
                    < t.bitfield.len() && t.bitfield[p])
            &&& t.pieces.contains(index as u32)
            &&& after.pieces == t.pieces.remove(t.pieces.index_of(index as u32))
            &&& after.downloaded_pieces_len == t.downloaded_pieces_len + 1
            &&& after == TorrentData {
                bitfield: after.bitfield,
                pieces: after.pieces,
                downloaded_pieces_len: after.downloaded_pieces_len,
                given: t.given.update(index, false),
                ..t
            }
        }),
{
    torrent_is_measured(t.info);
    assert(t.pieces.contains(index as u32));
    let k = t.pieces.index_of(index as u32);
    removed_by_filter(t.pieces, index as u32, k);
    assert(t.pieces.len() > 0);
}

proof fn removed_by_filter(s: Seq<u32>, x: u32, k: int)
    requires
        s.no_duplicates(),
        0 <= k < s.len(),
        s[k] == x,
    ensures
        without(s, x as int) == s.remove(k),
    decreases s.len(),
{
    reveal(Seq::filter);
    let front = s.drop_last();
    if k == s.len() - 1 {
        assert forall|i: int| 0 <= i < front.len() implies #[trigger] front[i] != x by {
            assert(s[i] == front[i]);
        }
        kept_by_filter(front, x);
        assert(s.remove(k) =~= front);
    } else {
        removed_by_filter(front, x, k);
        assert(s.last() != x);
        assert(s.remove(k) =~= front.remove(k).push(s.last()));
    }
}

proof fn kept_by_filter(s: Seq<u32>, x: u32)
    requires
        forall|i: int| 0 <= i < s.len() ==> #[trigger] s[i] != x,
    ensures
        without(s, x as int) == s,
    decreases s.len(),
{
    reveal(Seq::filter);
    if s.len() > 0 {
        let front = s.drop_last();
        assert forall|i: int| 0 <= i < front.len() implies #[trigger] front[i] != x by {
            assert(s[i] == front[i]);
        }
        kept_by_filter(front, x);
        assert(s[s.len() - 1] != x);
        assert(s =~= front.push(s.last()));
    }
}

/// Recording a piece that is downloaded changes nothing but that it is no longer given.
pub proof fn downloaded_piece_stays(t: TorrentData, index: int)
    requires
        0 <= index < t.bitfield.len(),
        t.bitfield[index],
    ensures
        piece_done(t, index) == (TorrentData { given: t.given.update(index, false), ..t }),
{
}

/// The score of a piece is the number of peers of the torrent that have it:
/// one more peer makes it one more iff the peer shares the torrent and has the piece.
pub proof fn score_counts_peers(
    peers: Map<Seq<u8>, PeerData>,
    id: Seq<u8>,
    peer: PeerData,
    info_hash: Seq<u8>,
    piece: int,
)
    requires
        peers.dom().finite(),
        !peers.contains_key(id),
        0 <= piece,
    ensures
        score(Map::empty(), info_hash, piece) == 0,
        score(peers.insert(id, peer), info_hash, piece) == score(peers, info_hash, piece)
            + if peer.info_hash == info_hash && piece < peer.pieces.len() && peer.pieces[piece] {
            1nat
        } else {
            0nat
        },
{
    let none = Map::<Seq<u8>, PeerData>::empty();
    let all = peers.insert(id, peer);
    let f = |i: Seq<u8>| crate::disk::shares_piece(peers[i], info_hash, piece);
    let g = |i: Seq<u8>| crate::disk::shares_piece(all[i], info_hash, piece);
    assert(none.dom().filter(
        |i: Seq<u8>| crate::disk::shares_piece(none[i], info_hash, piece),
    ) =~= Set::empty());
    let before = peers.dom().filter(f);
    let after = all.dom().filter(g);
    assert(before.finite()) by {
        peers.dom().lemma_len_filter(f);
    }
    if g(id) {
        assert(after =~= before.insert(id));
    } else {
        assert(after =~= before);
    }
}

/// There are peers of a torrent iff one of the peers shares it.
pub proof fn one_peer_is_enough(
    peers: Map<Seq<u8>, PeerData>,
    id: Seq<u8>,
    peer: PeerData,
    info_hash: Seq<u8>,
)
    ensures
        !has_peers(Map::empty(), info_hash),
        peers.contains_key(id) && peers[id].info_hash == info_hash ==> has_peers(peers, info_hash),
        !peers.contains_key(id) ==> (has_peers(peers.insert(id, peer), info_hash) <==> has_peers(
            peers,
            info_hash,
        ) || peer.info_hash == info_hash),
{
    let all = peers.insert(id, peer);
    assert(all.contains_key(id));
    if !peers.contains_key(id) && has_peers(peers, info_hash) {
        let i = choose|i: Seq<u8>| #[trigger]
            peers.contains_key(i) && peers[i].info_hash == info_hash;
        assert(all.contains_key(i));
    }
    if !peers.contains_key(id) && has_peers(all, info_hash) && peer.info_hash != info_hash {
        let i = choose|i: Seq<u8>| #[trigger] all.contains_key(i) && all[i].info_hash == info_hash;
        assert(peers.contains_key(i));
    }
}

/// The switch to rarest-first keeps the pieces to download, every piece once.
/// Of two pieces the one that fewer peers have stands to the right,
/// and of two that as many peers have, the one that stood to the right.
/// A random choice of pieces ends. Nothing else changes.
pub proof fn rarest_is_sorted(
    t: TorrentData,
    peers: Map<Seq<u8>, PeerData>,
    info_hash: Seq<u8>,
    i: int,
    j: int,
)
    requires
        t.wf(),
        0 <= i < t.pieces.len(),
        0 <= j < t.pieces.len(),
        score(peers, info_hash, t.pieces[i] as int) <= u64::MAX,
        score(peers, info_hash, t.pieces[j] as int) <= u64::MAX,
        score(peers, info_hash, t.pieces[i] as int) > score(peers, info_hash, t.pieces[j] as int)
            || (score(peers, info_hash, t.pieces[i] as int) == score(
            peers,
            info_hash,
            t.pieces[j] as int,
        ) && i < j),
    ensures
        ({
            let after = rarest(t, peers, info_hash);
            &&& after.pieces.no_duplicates()
            &&& after.pieces.len() == t.pieces.len()
            &&& after.pieces.contains(t.pieces[i]) && after.pieces.contains(t.pieces[j])
            &&& after.pieces.index_of(t.pieces[i]) < after.pieces.index_of(t.pieces[j])
        }),
{
    let ranks = scores(peers, info_hash, t.pieces);
    let order = descending(ranks);
    let goal = reordered(t.pieces, ranks);
    reordered_is_permutation(t.pieces, ranks);
    descending_is_stable_sort(ranks);
    assert(goal.contains(t.pieces[i]) && goal.contains(t.pieces[j])) by {
        assert(t.pieces.contains(t.pieces[i]) && t.pieces.contains(t.pieces[j]));
    }
    assert(order.contains(i) && order.contains(j));
    let k = order.index_of(i);
    let l = order.index_of(j);
    assert(goal[k] == t.pieces[i] && goal[l] == t.pieces[j]);
    assert(ranks[i] > ranks[j] || (ranks[i] == ranks[j] && i < j));
    if l <= k {
        if l < k {
            assert(order[l] == j && order[k] == i);
        }
    }
    assert(goal.index_of(t.pieces[i]) == k && goal.index_of(t.pieces[j]) == l);
}

/// The switch to rarest-first changes the order of the pieces and a random strategy only.
pub proof fn rarest_keeps_the_rest(
    t: TorrentData,
    peers: Map<Seq<u8>, PeerData>,
    info_hash: Seq<u8>,
)
    ensures
        t.piece_strategy == PieceStrategy::Sequential ==> rarest(
            t,
            peers,
            info_hash,
        ).piece_strategy == PieceStrategy::Sequential,
        t.piece_strategy != PieceStrategy::Sequential ==> rarest(
            t,
            peers,
            info_hash,
        ).piece_strategy == PieceStrategy::Rarest,
        rarest(t, peers, info_hash) == (TorrentData {
            pieces: rarest(t, peers, info_hash).pieces,
            piece_strategy: rarest(t, peers, info_hash).piece_strategy,
            ..t
        }),
{
}

/// A download starts with nothing cached, counted or given, with all pieces to download
/// in the given order, and in random-first.
pub proof fn download_starts_fresh(
    info: InfoData,
    bitfield: Seq<bool>,
    order: Seq<u32>,
    blocks: Seq<BlockInfo>,
    p: int,
)
    requires
        0 <= p,
        20 * p + 20 <= info.pieces.len(),
    ensures
        ({
            let t = started(info, bitfield, order, blocks);
            &&& t.info == info
            &&& t.bitfield == bitfield
            &&& t.pieces == order
            &&& t.downloaded_pieces_len == 0
            &&& t.piece_strategy == PieceStrategy::Random
            &&& p < t.cache.len() && t.cache[p].len() == 0
            &&& p < t.downloaded_pieces.len() && t.downloaded_pieces[p] == 0
            &&& p < t.given.len() && !t.given[p]
        }),
{
    torrent_is_measured(info);
}

/// The skeleton of a torrent has an empty file for every file of the torrent,
/// in the directory of the torrent and at the path of the file.
/// The URI path that is told for a file is that of the file. All peers are told.
pub proof fn new_torrent_has_all_files(
    d: DiskData,
    info_hash: Seq<u8>,
    info: InfoData,
    todo: NewTorrent,
    i: int,
    path: Seq<Seq<char>>,
)
    requires
        is_new_torrent(d, info_hash, info, todo),
        match info.files {
            Some(files) => 0 <= i < files.len() && files[i].path == path,
            None => i == 0 && path == seq![info.name],
        },
    ensures
        todo.skeleton@.len() == (match info.files {
            Some(files) => files.len(),
            None => 1,
        }),
        todo.uri_paths@.len() == todo.skeleton@.len(),
        todo.uri_paths@[i]@ == uri_path(info_hash, path),
        match todo.skeleton@[i].name {
            Some(name) => path.len() > 0 && texts(todo.skeleton@[i].dir@).push(name@) == seq![
                d.download_dir,
                info.name,
            ] + path,
            None => path.len() == 0 && texts(todo.skeleton@[i].dir@) == seq![
                d.download_dir,
                info.name,
            ],
        },
        forall|id: Seq<u8>| #[trigger]
            d.peers.contains_key(id) ==> exists|k: int|
                0 <= k < todo.peers@.len() && (#[trigger] todo.peers@[k])@ == id,
        forall|k: int|
            0 <= k < todo.peers@.len() ==> d.peers.contains_key((#[trigger] todo.peers@[k])@),
        forall|k: int, l: int|
            0 <= k < l < todo.peers@.len() ==> (#[trigger] todo.peers@[k])@ != (
            #[trigger] todo.peers@[l])@,
{
    summary_is_faithful(info);
    let files = disk_files(info);
    let base = seq![d.download_dir, info.name];
    assert(files[i].path == path);
    let shown = todo.skeleton@.map_values(|f: crate::disk::SkeletonFile| f@);
    assert(shown.len() == files.len());
    assert(texts(todo.uri_paths@).len() == files.len());
    assert(texts(todo.uri_paths@)[i] == todo.uri_paths@[i]@);
    assert(shown[i] == todo.skeleton@[i]@);
    assert(shown[i] == skeleton_file(base, path));
    if path.len() > 0 {
        assert((base + path.drop_last()).push(path.last()) =~= base + path);
    }
}

/// A block is read from its place in the directory of the torrent.
pub proof fn block_is_read_from_its_place(
    d: DiskData,
    info_hash: Seq<u8>,
    block_info: BlockInfo,
    read: BlockRead,
)
    requires
        is_block_read(d, info_hash, block_info, read),
    ensures
        texts(read.base@).len() == 2,
        texts(read.base@)[0] == d.download_dir,
        texts(read.base@)[1] == d.torrents[info_hash].info.name,
        Some(read.place@) == block_place(d.torrents[info_hash].info, block_info),
        read.len == block_info.len,
{
}

/// What a message is not about stays as it was: the other torrents, the peers
/// unless a peer is added, and the slices unless one is made, read or dropped.
pub proof fn handling_is_local(
    d: DiskData,
    msg: DiskMsg,
    action: DiskAction,
    after: DiskData,
    info_hash: Seq<u8>,
    id: SliceId,
)
    requires
        is_accepted(d, msg),
        is_handled(d, msg, action, after),
        d.torrents.contains_key(info_hash),
        match msg {
            DiskMsg::WriteBlock { info_hash: h, .. } => h@ != info_hash,
            DiskMsg::RequestBlocks { info_hash: h, .. } => h@ != info_hash,
            DiskMsg::ReturnBlockInfos(h, _) => h@ != info_hash,
            _ => true,
        },
        match msg {
            DiskMsg::ReadSlice { slice_id, .. } => slice_id != id,
            DiskMsg::DropSlice { slice_id } => slice_id != id,
            DiskMsg::NewSlice { .. } => d.next_slice_id != id,
            _ => true,
        },
    ensures
        after.torrents.contains_key(info_hash),
        after.torrents[info_hash] == d.torrents[info_hash],
        after.slices.contains_key(id) <==> d.slices.contains_key(id),
        d.slices.contains_key(id) ==> after.slices[id] == d.slices[id],
        !(msg is NewPeer) ==> after.peers == d.peers,
        after.download_dir == d.download_dir,
        msg is NewSlice || after.next_slice_id == d.next_slice_id,
{
    if msg is NewTorrent && d.torrents.contains_key(
        msg->NewTorrent_torrent_ctx.info_hash@,
    ) {
        assert(after == d);
    }
}

/// A peer that is added is known from then on, and the other peers stay.
pub proof fn peer_is_added(d: DiskData, peer: crate::peer::PeerCtx, action: DiskAction, after: DiskData)
    requires
        is_handled(d, DiskMsg::NewPeer(peer), action, after),
    ensures
        action is Continue,
        is_accepted(d, DiskMsg::NewPeer(peer)),
        after.peers.dom() == d.peers.dom().insert(peer.id@),
        after.peers[peer.id@].info_hash == peer.info_hash@,
        after.peers[peer.id@].pieces == peer.pieces@,
        forall|id: Seq<u8>|
            id != peer.id@ && d.peers.contains_key(id) ==> after.peers[id] == #[trigger] d.peers[id],
        after.torrents == d.torrents,
        after.slices == d.slices,
{
}

/// A torrent can be added if its sizes fit in machine integers
/// and its blocks are listed from the first piece to the last.
/// One that is there already is refused, and stays as it is.
pub proof fn torrent_is_added(
    d: DiskData,
    torrent_ctx: crate::torrent::TorrentCtx,
    blocks: Vec<BlockInfo>,
    action: DiskAction,
    after: DiskData,
)
    requires
        content_size(torrent_ctx.info@) <= u64::MAX,
        torrent_ctx.info@.pieces.len() / 20 <= u32::MAX,
        is_gapless(blocks@),
        is_handled(d, DiskMsg::NewTorrent { torrent_ctx, blocks }, action, after),
    ensures
        is_accepted(d, DiskMsg::NewTorrent { torrent_ctx, blocks }),
        d.torrents.contains_key(torrent_ctx.info_hash@) ==> after == d && action
            matches DiskAction::Stop(Err(Error::NoDuplicateTorrent)),
        !d.torrents.contains_key(torrent_ctx.info_hash@) ==> {
            let h = torrent_ctx.info_hash@;
            &&& action is CreateTorrent
            &&& after.torrents.dom() == d.torrents.dom().insert(h)
            &&& after.torrents[h].info == torrent_ctx.info@
            &&& after.torrents[h].bitfield == torrent_ctx.bitfield@
            &&& after.torrents[h].pieces.no_duplicates()
            &&& forall|p: u32| #[trigger]
                after.torrents[h].pieces.contains(p) <==> 20 * p + 20
                    <= torrent_ctx.info@.pieces.len()
        },
{
    let info = torrent_ctx.info@;
    torrent_is_measured(info);
    blocks_get_queues(blocks@);
    if !d.torrents.contains_key(torrent_ctx.info_hash@) {
        let h = torrent_ctx.info_hash@;
        let order = choose|order: Seq<u32>| #[trigger]
            crate::disk::torrent::is_piece_order(order, info.piece_count()) && after
                == with_torrent(d, h, started(info, torrent_ctx.bitfield@, order, blocks@));
        assert(after.torrents[h].pieces == order);
        assert forall|p: u32| #[trigger] order.contains(p) <==> 20 * p + 20
            <= info.pieces.len() by {
            if order.contains(p) {
                let i = order.index_of(p);
                assert(order[i] < info.piece_count());
            }
        }
    }
}

/// Blocks are requested of a peer that is known, of a torrent that exists,
/// if it is known of every piece of the torrent whether it is downloaded
/// and the pieces of the torrent cover it.
pub proof fn known_peer_is_asked(
    d: DiskData,
    info_hash: Seq<u8>,
    peer_id: Seq<u8>,
    qnt: nat,
    res: Option<Result<VecDeque<BlockInfo>, Error>>,
    after: DiskData,
)
    requires
        d.torrents.contains_key(info_hash),
        d.torrents[info_hash].wf(),
        slices_inside(d),
        ({
            let t = d.torrents[info_hash];
            let n = t.info.pieces.len() / 20;
            t.info.piece_length > 0 && n <= t.bitfield.len() && content_size(t.info) <= n
                * t.info.piece_length
        }),
        is_request_outcome(d, info_hash, peer_id, qnt as int, res, after),
    ensures
        d.peers.contains_key(peer_id) ==> res matches Some(Ok(_)),
        !d.peers.contains_key(peer_id) ==> after == d && res matches Some(
            Err(Error::PeerIdInvalid),
        ),
        after.torrents.dom() == d.torrents.dom(),
        after.torrents[info_hash] == (TorrentData {
            pieces_blocks: after.torrents[info_hash].pieces_blocks,
            ..d.torrents[info_hash]
        }),
        after == (DiskData { torrents: after.torrents, ..d }),
        d.peers.contains_key(peer_id) ==> exists|ranges: Seq<Range<u64>>| #[trigger]
            torrent_payloads(d.slices, info_hash, ranges) && {
                let taken = requested(
                    d.torrents[info_hash],
                    d.peers[peer_id].pieces,
                    ranges,
                    qnt as int,
                );
                &&& res matches Some(Ok(blocks)) && blocks@ == taken.blocks
                &&& after.torrents[info_hash].pieces_blocks == taken.queues
            },
{
    let t = d.torrents[info_hash];
    torrent_is_measured(t.info);
    if d.peers.contains_key(peer_id) {
        assert forall|ranges: Seq<Range<u64>>| #[trigger]
            torrent_payloads(d.slices, info_hash, ranges) implies crate::disk::torrent::can_request(
            t,
            d.peers[peer_id].pieces,
            ranges,
            qnt as int,
        ) by {
            payloads_are_of_the_torrent(d.slices, info_hash, ranges);
            assert forall|r: int| 0 <= r < ranges.len() implies (#[trigger] ranges[r]).start
                <= ranges[r].end <= (t.info.pieces.len() / 20) * t.info.piece_length by {
                assert(is_payload(d.slices, info_hash, ranges[r]));
                let id = choose|id: SliceId| #[trigger]
                    d.slices.contains_key(id) && d.slices[id].info_hash@ == info_hash
                        && d.slices[id].payload == ranges[r];
                assert(crate::disk::is_inside(d, d.slices[id]));
            }
            blocks_can_be_requested(t, d.peers[peer_id].pieces, ranges, qnt);
        }
        assert(after.torrents.dom() =~= d.torrents.dom());
    }
}

/// The directory of a torrent has the name of the torrent and is in the download directory.
pub proof fn torrent_has_a_directory(d: DiskData, info_hash: Seq<u8>)
    ensures
        base_components(d, info_hash).len() == 2,
        base_components(d, info_hash)[0] == d.download_dir,
        base_components(d, info_hash)[1] == d.torrents[info_hash].info.name,
{
}

/// The switch to rarest-first comes with the first piece that is downloaded in random order.
pub proof fn first_piece_switches(t: TorrentData, index: int)
    requires
        t.wf(),
        0 <= index,
        20 * index + 20 <= t.info.pieces.len(),
    ensures
        is_switching(t, index) ==> piece_done(t, index).downloaded_pieces_len == 1
            && t.downloaded_pieces_len == 0,
        piece_done(t, index).downloaded_pieces_len == 1 && t.downloaded_pieces_len == 0
            && t.piece_strategy == PieceStrategy::Random ==> is_switching(t, index),
        t.piece_strategy != PieceStrategy::Random ==> !is_switching(t, index),
{
}

} // verus!
