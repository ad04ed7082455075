//! What holds of requesting blocks and giving them back.
use crate::disk::layout_laws::torrent_is_measured;
use crate::disk::range::{piece_range_fits, wanted_pieces};
use crate::disk::torrent::{
    blocks_in_order, can_request, distributed, eligible, is_in_order, piece_queue, requested,
    returned, take_blocks, take_from, TorrentData,
};
use crate::disk::wanted_laws::{range_in_torrent_fits, touches, wanted_pieces_are_touched};
use crate::tcp_wire::BlockInfo;
use std::ops::Range;
use vstd::multiset::Multiset;
use vstd::prelude::*;
use vstd::seq_lib::lemma_multiset_commutative;

verus! {

/// All blocks in the queues `queues`.
pub open spec fn all_blocks(queues: Seq<Seq<BlockInfo>>) -> Multiset<BlockInfo>
    decreases queues.len(),
{
    if queues.len() == 0 {
        Multiset::empty()
    } else {
        all_blocks(queues.drop_last()).add(queues.last().to_multiset())
    }
}

/// Replacing a queue replaces its blocks.
proof fn all_blocks_update(queues: Seq<Seq<BlockInfo>>, p: int, queue: Seq<BlockInfo>)
    requires
        0 <= p < queues.len(),
    ensures
        forall|x: BlockInfo| #[trigger]
            all_blocks(queues.update(p, queue)).count(x) + queues[p].to_multiset().count(x)
                == all_blocks(queues).count(x) + queue.to_multiset().count(x),
    decreases queues.len(),
{
    broadcast use vstd::multiset::group_multiset_axioms;

    let after = queues.update(p, queue);
    if p < queues.len() - 1 {
        all_blocks_update(queues.drop_last(), p, queue);
        assert(after.drop_last() =~= queues.drop_last().update(p, queue));
    } else {
        assert(after.drop_last() =~= queues.drop_last());
    }
    assert forall|x: BlockInfo| #[trigger]
        all_blocks(after).count(x) + queues[p].to_multiset().count(x) == all_blocks(queues).count(x)
            + queue.to_multiset().count(x) by {
        assert(all_blocks(after).count(x) == all_blocks(after.drop_last()).count(x)
            + after.last().to_multiset().count(x));
        assert(all_blocks(queues).count(x) == all_blocks(queues.drop_last()).count(x)
            + queues.last().to_multiset().count(x));
    }
}

/// Requesting blocks neither loses nor duplicates a block:
/// every block is requested or stays in its queue.
pub proof fn request_keeps_blocks(
    t: TorrentData,
    peer: Seq<bool>,
    ranges: Seq<Range<u64>>,
    qnt: nat,
)
    ensures
        all_blocks(requested(t, peer, ranges, qnt as int).queues).add(
            requested(t, peer, ranges, qnt as int).blocks.to_multiset(),
        ) =~= all_blocks(t.pieces_blocks),
{
    take_keeps_blocks(t, peer, piece_queue(t, ranges), qnt);
}

proof fn take_keeps_blocks(t: TorrentData, peer: Seq<bool>, pieces: Seq<int>, qnt: nat)
    ensures
        all_blocks(take_blocks(t, peer, pieces, qnt as int).queues).add(
            take_blocks(t, peer, pieces, qnt as int).blocks.to_multiset(),
        ) =~= all_blocks(t.pieces_blocks),
        take_blocks(t, peer, pieces, qnt as int).blocks.len() <= qnt,
    decreases pieces.len(),
{
    broadcast use vstd::seq_lib::group_to_multiset_ensures;
    broadcast use vstd::multiset::group_multiset_axioms;

    if pieces.len() > 0 {
        let taken = take_blocks(t, peer, pieces.drop_last(), qnt as int);
        let p = pieces.last();
        take_keeps_blocks(t, peer, pieces.drop_last(), qnt);
        if eligible(t, peer, p) && p < taken.queues.len() {
            let next = take_from(taken, p, qnt as int);
            let n = next.blocks.len() - taken.blocks.len();
            let head = taken.queues[p].take(n);
            let tail = taken.queues[p].skip(n);
            assert(next.blocks =~= taken.blocks + head);
            lemma_multiset_commutative(taken.blocks, head);
            assert(taken.queues[p] =~= head + tail);
            lemma_multiset_commutative(head, tail);
            all_blocks_update(taken.queues, p, tail);
            assert(next.queues == taken.queues.update(p, tail));
        }
    } else {
        assert(take_blocks(t, peer, pieces, qnt as int).blocks.to_multiset() =~= Multiset::empty());
    }
}

/// At most `qnt` blocks are requested.
pub proof fn request_is_limited(
    t: TorrentData,
    peer: Seq<bool>,
    ranges: Seq<Range<u64>>,
    qnt: nat,
)
    ensures
        requested(t, peer, ranges, qnt as int).blocks.len() <= qnt,
{
    take_keeps_blocks(t, peer, piece_queue(t, ranges), qnt);
}

/// Only blocks of pieces that the peer has and that are not downloaded are requested.
pub proof fn request_is_eligible(
    t: TorrentData,
    peer: Seq<bool>,
    ranges: Seq<Range<u64>>,
    qnt: nat,
    k: int,
)
    requires
        t.wf(),
        0 <= k < requested(t, peer, ranges, qnt as int).blocks.len(),
    ensures
        ({
            let block = requested(t, peer, ranges, qnt as int).blocks[k];
            &&& eligible(t, peer, block.index as int)
            &&& block.index < t.pieces_blocks.len()
            &&& t.pieces_blocks[block.index as int].contains(block)
        }),
{
    take_is_eligible(t, peer, piece_queue(t, ranges), qnt, k);
    let block = requested(t, peer, ranges, qnt as int).blocks[k];
    let p = choose|p: int|
        0 <= p < t.pieces_blocks.len() && eligible(t, peer, p)
            && #[trigger] t.pieces_blocks[p].contains(block);
    let i = t.pieces_blocks[p].index_of(block);
    assert(t.pieces_blocks[p][i].index == p);
}

proof fn take_is_eligible(
    t: TorrentData,
    peer: Seq<bool>,
    pieces: Seq<int>,
    qnt: nat,
    k: int,
)
    requires
        0 <= k < take_blocks(t, peer, pieces, qnt as int).blocks.len(),
    ensures
        exists|p: int|
            0 <= p < t.pieces_blocks.len() && eligible(t, peer, p)
                && #[trigger] t.pieces_blocks[p].contains(
                take_blocks(t, peer, pieces, qnt as int).blocks[k],
            ),
    decreases pieces.len(),
{
    let taken = take_blocks(t, peer, pieces.drop_last(), qnt as int);
    let p = pieces.last();
    if k < taken.blocks.len() {
        take_is_eligible(t, peer, pieces.drop_last(), qnt, k);
        assert(take_blocks(t, peer, pieces, qnt as int).blocks[k] == taken.blocks[k]);
    } else {
        queues_shrink(t, peer, pieces.drop_last(), qnt, p);
        take_keeps_blocks(t, peer, pieces.drop_last(), qnt);
        let queue = taken.queues[p];
        let whole = t.pieces_blocks[p];
        let i = k - taken.blocks.len();
        assert(take_blocks(t, peer, pieces, qnt as int).blocks[k] == queue[i]);
        assert(whole[whole.len() - queue.len() + i] == queue[i]);
        assert(whole.contains(queue[i]));
    }
}

/// Requesting only takes blocks from the front of queues of eligible pieces.
proof fn queues_shrink(t: TorrentData, peer: Seq<bool>, pieces: Seq<int>, qnt: nat, p: int)
    ensures
        take_blocks(t, peer, pieces, qnt as int).queues.len() == t.pieces_blocks.len(),
        0 <= p < t.pieces_blocks.len() ==> {
            let queue = take_blocks(t, peer, pieces, qnt as int).queues[p];
            &&& queue.len() <= t.pieces_blocks[p].len()
            &&& queue == t.pieces_blocks[p].skip(t.pieces_blocks[p].len() - queue.len())
            &&& !eligible(t, peer, p) ==> queue == t.pieces_blocks[p]
        },
    decreases pieces.len(),
{
    take_keeps_blocks(t, peer, pieces, qnt);
    if pieces.len() > 0 {
        queues_shrink(t, peer, pieces.drop_last(), qnt, p);
        take_keeps_blocks(t, peer, pieces.drop_last(), qnt);
        if 0 <= p < t.pieces_blocks.len() {
            let whole = t.pieces_blocks[p];
            let before = take_blocks(t, peer, pieces.drop_last(), qnt as int).queues[p];
            let after = take_blocks(t, peer, pieces, qnt as int).queues[p];
            assert(after =~= whole.skip(whole.len() - after.len()));
        }
    } else if 0 <= p < t.pieces_blocks.len() {
        assert(t.pieces_blocks[p].skip(0) =~= t.pieces_blocks[p]);
    }
}

/// The queues of the pieces that are not eligible stay as they are.
pub proof fn request_spares_others(
    t: TorrentData,
    peer: Seq<bool>,
    ranges: Seq<Range<u64>>,
    qnt: nat,
    p: int,
)
    requires
        0 <= p < t.pieces_blocks.len(),
        !eligible(t, peer, p),
    ensures
        requested(t, peer, ranges, qnt as int).queues[p] == t.pieces_blocks[p],
{
    queues_shrink(t, peer, piece_queue(t, ranges), qnt, p);
}

/// If fewer blocks are requested than were asked for,
/// then no block of an eligible piece to download is left.
pub proof fn request_is_exhaustive(
    t: TorrentData,
    peer: Seq<bool>,
    ranges: Seq<Range<u64>>,
    qnt: nat,
    p: int,
)
    requires
        requested(t, peer, ranges, qnt as int).blocks.len() < qnt,
        piece_queue(t, ranges).contains(p),
        eligible(t, peer, p),
        p < t.pieces_blocks.len(),
    ensures
        requested(t, peer, ranges, qnt as int).queues[p].len() == 0,
{
    take_is_exhaustive(t, peer, piece_queue(t, ranges), qnt, p);
}

proof fn take_is_exhaustive(t: TorrentData, peer: Seq<bool>, pieces: Seq<int>, qnt: nat, p: int)
    requires
        take_blocks(t, peer, pieces, qnt as int).blocks.len() < qnt,
        pieces.contains(p),
        eligible(t, peer, p),
        p < t.pieces_blocks.len(),
    ensures
        take_blocks(t, peer, pieces, qnt as int).queues[p].len() == 0,
    decreases pieces.len(),
{
    let front = pieces.drop_last();
    queues_shrink(t, peer, front, qnt, p);
    take_keeps_blocks(t, peer, front, qnt);
    if front.contains(p) {
        take_is_exhaustive(t, peer, front, qnt, p);
    } else {
        let k = pieces.index_of(p);
        assert(k == pieces.len() - 1) by {
            if k < pieces.len() - 1 {
                assert(front[k] == p);
            }
        }
    }
}

/// What is taken of the first pieces is taken first.
proof fn take_extends(t: TorrentData, peer: Seq<bool>, pieces: Seq<int>, qnt: nat, n: int)
    requires
        0 <= n <= pieces.len(),
    ensures
        take_blocks(t, peer, pieces.take(n), qnt as int).blocks.is_prefix_of(
            take_blocks(t, peer, pieces, qnt as int).blocks,
        ),
    decreases pieces.len(),
{
    if n < pieces.len() {
        let front = pieces.drop_last();
        assert(front.take(n) =~= pieces.take(n));
        take_extends(t, peer, front, qnt, n);
        let first = take_blocks(t, peer, pieces.take(n), qnt as int).blocks;
        let some = take_blocks(t, peer, front, qnt as int).blocks;
        let all = take_blocks(t, peer, pieces, qnt as int).blocks;
        assert(some.is_prefix_of(all));
        assert(first =~= all.subrange(0, first.len() as int));
    } else {
        assert(pieces.take(n) =~= pieces);
    }
}

/// Slice readers have priority: the blocks of the pieces that they are interested in
/// are requested first, and blocks of other pieces are requested only
/// if no block that may be requested is left of those.
pub proof fn readers_have_priority(
    t: TorrentData,
    peer: Seq<bool>,
    ranges: Seq<Range<u64>>,
    qnt: nat,
)
    ensures
        ({
            let wanted = wanted_pieces(ranges, t.info.piece_length as int);
            let first = take_blocks(t, peer, wanted, qnt as int);
            let all = requested(t, peer, ranges, qnt as int).blocks;
            &&& first.blocks.is_prefix_of(all)
            &&& first.blocks.len() < all.len() ==> forall|p: int|
                wanted.contains(p) && #[trigger] eligible(t, peer, p) && p < t.pieces_blocks.len()
                    ==> first.queues[p].len() == 0
        }),
{
    let wanted = wanted_pieces(ranges, t.info.piece_length as int);
    let queue = piece_queue(t, ranges);
    let first = take_blocks(t, peer, wanted, qnt as int);
    let all = requested(t, peer, ranges, qnt as int).blocks;
    assert(queue.take(wanted.len() as int) =~= wanted);
    take_extends(t, peer, queue, qnt, wanted.len() as int);
    request_is_limited(t, peer, ranges, qnt);
    if first.blocks.len() < all.len() {
        assert forall|p: int|
            wanted.contains(p) && #[trigger] eligible(t, peer, p) && p
                < t.pieces_blocks.len() implies first.queues[p].len() == 0 by {
            take_is_exhaustive(t, peer, wanted, qnt, p);
        }
    }
}

/// The blocks of `blocks` whose pieces have queues.
pub open spec fn with_queues(blocks: Seq<BlockInfo>, n: nat) -> Seq<BlockInfo> {
    blocks.filter(|b: BlockInfo| b.index < n)
}

/// Giving blocks back puts every block whose piece has a queue in a queue once.
pub proof fn return_keeps_blocks(queues: Seq<Seq<BlockInfo>>, blocks: Seq<BlockInfo>)
    ensures
        returned(queues, blocks).len() == queues.len(),
        all_blocks(returned(queues, blocks)) =~= all_blocks(queues).add(
            with_queues(blocks, queues.len()).to_multiset(),
        ),
    decreases blocks.len(),
{
    broadcast use vstd::seq_lib::group_to_multiset_ensures;
    broadcast use vstd::multiset::group_multiset_axioms;

    reveal(Seq::filter);
    if blocks.len() > 0 {
        let front = blocks.drop_last();
        let block = blocks.last();
        return_keeps_blocks(queues, front);
        let rest = returned(queues, front);
        if block.index < rest.len() {
            let p = block.index as int;
            all_blocks_update(rest, p, rest[p].push(block));
            assert(all_blocks(returned(queues, blocks)) =~= all_blocks(rest).insert(block));
            assert(with_queues(blocks, queues.len()) =~= with_queues(front, queues.len()).push(
                block,
            ));
        }
    } else {
        assert(with_queues(blocks, queues.len()).to_multiset() =~= Multiset::empty());
    }
}

/// Requesting blocks and giving them back leaves the same blocks in the queues.
pub proof fn return_undoes_request(
    t: TorrentData,
    peer: Seq<bool>,
    ranges: Seq<Range<u64>>,
    qnt: nat,
)
    requires
        t.wf(),
    ensures
        all_blocks(
            returned(
                requested(t, peer, ranges, qnt as int).queues,
                requested(t, peer, ranges, qnt as int).blocks,
            ),
        ) =~= all_blocks(t.pieces_blocks),
{
    let taken = requested(t, peer, ranges, qnt as int);
    request_keeps_blocks(t, peer, ranges, qnt);
    queues_shrink(t, peer, piece_queue(t, ranges), qnt, 0);
    return_keeps_blocks(taken.queues, taken.blocks);
    assert forall|k: int| 0 <= k < taken.blocks.len() implies (#[trigger] taken.blocks[k]).index
        < taken.queues.len() by {
        request_is_eligible(t, peer, ranges, qnt, k);
    }
    filter_all(taken.blocks, taken.queues.len());
}

proof fn filter_all(blocks: Seq<BlockInfo>, n: nat)
    requires
        forall|k: int| 0 <= k < blocks.len() ==> (#[trigger] blocks[k]).index < n,
    ensures
        with_queues(blocks, n) =~= blocks,
    decreases blocks.len(),
{
    reveal(Seq::filter);
    if blocks.len() > 0 {
        filter_all(blocks.drop_last(), n);
        assert(blocks =~= blocks.drop_last().push(blocks.last()));
    }
}

/// Distributing blocks to queues neither loses nor duplicates a block.
pub proof fn distribution_keeps_blocks(blocks: Seq<BlockInfo>)
    ensures
        all_blocks(distributed(blocks)) =~= blocks.to_multiset(),
    decreases blocks.len(),
{
    broadcast use vstd::seq_lib::group_to_multiset_ensures;
    broadcast use vstd::multiset::group_multiset_axioms;

    if blocks.len() > 0 {
        let front = blocks.drop_last();
        let block = blocks.last();
        distribution_keeps_blocks(front);
        assert(blocks =~= front.push(block));
        let rest = distributed(front);
        if block.index < rest.len() {
            let p = block.index as int;
            all_blocks_update(rest, p, rest[p].push(block));
            assert(all_blocks(distributed(blocks)) =~= all_blocks(rest).insert(block));
        } else {
            let after = rest.push(seq![block]);
            let none = Seq::<BlockInfo>::empty();
            assert(after.drop_last() =~= rest);
            assert(seq![block] =~= none.push(block));
            assert(none.to_multiset() =~= Multiset::empty());
            assert(all_blocks(after) =~= all_blocks(rest).insert(block));
        }
    } else {
        assert(blocks.to_multiset() =~= Multiset::empty());
    }
}

/// The blocks of the piece `p` in `blocks`.
pub open spec fn of_piece(blocks: Seq<BlockInfo>, p: int) -> Seq<BlockInfo> {
    blocks.filter(|b: BlockInfo| b.index == p)
}

proof fn of_piece_add(a: Seq<BlockInfo>, b: Seq<BlockInfo>, p: int)
    ensures
        of_piece(a + b, p) == of_piece(a, p) + of_piece(b, p),
    decreases b.len(),
{
    reveal(Seq::filter);
    if b.len() > 0 {
        of_piece_add(a, b.drop_last(), p);
        assert((a + b).drop_last() =~= a + b.drop_last());
    } else {
        assert(a + b =~= a);
    }
}

proof fn of_piece_all(blocks: Seq<BlockInfo>, p: int)
    requires
        forall|k: int| 0 <= k < blocks.len() ==> (#[trigger] blocks[k]).index == p,
    ensures
        of_piece(blocks, p) == blocks,
    decreases blocks.len(),
{
    reveal(Seq::filter);
    if blocks.len() > 0 {
        let front = blocks.drop_last();
        assert forall|k: int| 0 <= k < front.len() implies (#[trigger] front[k]).index == p by {
            assert(blocks[k] == front[k]);
        }
        of_piece_all(front, p);
        assert(blocks[blocks.len() - 1].index == p);
        assert(blocks =~= front.push(blocks.last()));
    }
}

proof fn of_piece_none(blocks: Seq<BlockInfo>, p: int)
    requires
        forall|k: int| 0 <= k < blocks.len() ==> (#[trigger] blocks[k]).index != p,
    ensures
        of_piece(blocks, p) == Seq::<BlockInfo>::empty(),
    decreases blocks.len(),
{
    reveal(Seq::filter);
    if blocks.len() > 0 {
        let front = blocks.drop_last();
        assert forall|k: int| 0 <= k < front.len() implies (#[trigger] front[k]).index != p by {
            assert(blocks[k] == front[k]);
        }
        of_piece_none(front, p);
        assert(blocks[blocks.len() - 1].index != p);
    }
}

/// The blocks of a piece are requested from the front of its queue, in the order of the queue:
/// those that are requested and those that stay are the queue as it was.
pub proof fn request_takes_from_the_front(
    t: TorrentData,
    peer: Seq<bool>,
    ranges: Seq<Range<u64>>,
    qnt: nat,
    p: int,
)
    requires
        t.wf(),
        0 <= p < t.pieces_blocks.len(),
    ensures
        ({
            let taken = requested(t, peer, ranges, qnt as int);
            &&& taken.queues.len() == t.pieces_blocks.len()
            &&& of_piece(taken.blocks, p) + taken.queues[p] == t.pieces_blocks[p]
        }),
{
    take_is_from_the_front(t, peer, piece_queue(t, ranges), qnt, p);
}

proof fn take_is_from_the_front(t: TorrentData, peer: Seq<bool>, pieces: Seq<int>, qnt: nat, p: int)
    requires
        t.wf(),
        0 <= p < t.pieces_blocks.len(),
    ensures
        ({
            let taken = take_blocks(t, peer, pieces, qnt as int);
            &&& taken.queues.len() == t.pieces_blocks.len()
            &&& of_piece(taken.blocks, p) + taken.queues[p] == t.pieces_blocks[p]
        }),
    decreases pieces.len(),
{
    queues_shrink(t, peer, pieces, qnt, p);
    if pieces.len() > 0 {
        let front = pieces.drop_last();
        let q = pieces.last();
        take_is_from_the_front(t, peer, front, qnt, p);
        take_keeps_blocks(t, peer, front, qnt);
        let taken = take_blocks(t, peer, front, qnt as int);
        if eligible(t, peer, q) && q < taken.queues.len() {
            let next = take_from(taken, q, qnt as int);
            let n = next.blocks.len() - taken.blocks.len();
            let head = taken.queues[q].take(n);
            let whole = t.pieces_blocks[q];
            queues_shrink(t, peer, front, qnt, q);
            assert(next.blocks =~= taken.blocks + head);
            of_piece_add(taken.blocks, head, p);
            assert forall|k: int| 0 <= k < head.len() implies (#[trigger] head[k]).index == q by {
                assert(head[k] == whole[whole.len() - taken.queues[q].len() + k]);
            }
            if p == q {
                of_piece_all(head, p);
                assert(of_piece(taken.blocks, p) + head + next.queues[p] =~= of_piece(
                    taken.blocks,
                    p,
                ) + taken.queues[p]);
            } else {
                of_piece_none(head, p);
                assert(of_piece(taken.blocks, p) + Seq::<BlockInfo>::empty() =~= of_piece(
                    taken.blocks,
                    p,
                ));
            }
        }
    } else {
        reveal(Seq::filter);
        assert(of_piece(Seq::empty(), p) =~= Seq::<BlockInfo>::empty());
        assert(Seq::<BlockInfo>::empty() + t.pieces_blocks[p] =~= t.pieces_blocks[p]);
    }
}

/// If fewer blocks are requested than were asked for, then no block is left to request:
/// of every piece of the torrent that the peer has and that is not downloaded,
/// the queue is empty.
pub proof fn request_leaves_nothing(
    t: TorrentData,
    peer: Seq<bool>,
    ranges: Seq<Range<u64>>,
    qnt: nat,
    p: int,
)
    requires
        t.wf(),
        requested(t, peer, ranges, qnt as int).blocks.len() < qnt,
        0 <= p,
        20 * p + 20 <= t.info.pieces.len(),
        p < peer.len() && peer[p],
        p < t.bitfield.len() && !t.bitfield[p],
        p < t.pieces_blocks.len(),
    ensures
        requested(t, peer, ranges, qnt as int).queues[p].len() == 0,
{
    let queue = piece_queue(t, ranges);
    let wanted = wanted_pieces(ranges, t.info.piece_length as int);
    torrent_is_measured(t.info);
    assert(t.pieces.contains(p as u32));
    let k = t.pieces.index_of(p as u32);
    assert(queue[wanted.len() + k] == p);
    request_is_exhaustive(t, peer, ranges, qnt, p);
}

/// Whether `p` is listed in `pieces` before `q` is listed for the first time.
pub open spec fn stands_before(pieces: Seq<int>, p: int, q: int) -> bool {
    exists|i: int|
        0 <= i < pieces.len() && #[trigger] pieces[i] == p && forall|j: int|
            0 <= j <= i ==> #[trigger] pieces[j] != q
}

proof fn stands_before_push(pieces: Seq<int>, x: int, p: int, q: int)
    requires
        pieces.contains(p),
        pieces.contains(q) ==> stands_before(pieces, p, q),
        p != q,
    ensures
        stands_before(pieces.push(x), p, q),
{
    let all = pieces.push(x);
    let i = if pieces.contains(q) {
        choose|i: int|
            0 <= i < pieces.len() && #[trigger] pieces[i] == p && forall|j: int|
                0 <= j <= i ==> #[trigger] pieces[j] != q
    } else {
        pieces.index_of(p)
    };
    assert(all[i] == p);
    assert forall|j: int| 0 <= j <= i implies #[trigger] all[j] != q by {
        assert(all[j] == pieces[j]);
        if !pieces.contains(q) {
            assert(pieces.contains(pieces[j]));
        }
    }
}

proof fn stands_before_front(pieces: Seq<int>, x: int, p: int, q: int)
    requires
        stands_before(pieces.push(x), p, q),
        pieces.contains(q),
    ensures
        stands_before(pieces, p, q),
{
    let all = pieces.push(x);
    let i = choose|i: int|
        0 <= i < all.len() && #[trigger] all[i] == p && forall|j: int|
            0 <= j <= i ==> #[trigger] all[j] != q;
    let k = pieces.index_of(q);
    assert(all[k] == q);
    assert(pieces[i] == p);
    assert forall|j: int| 0 <= j <= i implies #[trigger] pieces[j] != q by {
        assert(all[j] == pieces[j]);
    }
}

/// What is taken last is taken of a piece that was not listed before.
proof fn last_is_new(t: TorrentData, peer: Seq<bool>, pieces: Seq<int>, qnt: nat)
    requires
        t.wf(),
        pieces.len() > 0,
        take_blocks(t, peer, pieces, qnt as int).blocks.len() > take_blocks(
            t,
            peer,
            pieces.drop_last(),
            qnt as int,
        ).blocks.len(),
    ensures
        !pieces.drop_last().contains(pieces.last()),
        eligible(t, peer, pieces.last()),
        0 <= pieces.last() < t.pieces_blocks.len(),
        take_blocks(t, peer, pieces.drop_last(), qnt as int).blocks.len() < qnt,
        ({
            let n = take_blocks(t, peer, pieces.drop_last(), qnt as int).blocks.len() as int;
            let all = take_blocks(t, peer, pieces, qnt as int).blocks;
            &&& forall|k: int| n <= k < all.len() ==> (#[trigger] all[k]).index == pieces.last()
            &&& forall|k: int|
                0 <= k < n ==> #[trigger] all[k] == take_blocks(
                    t,
                    peer,
                    pieces.drop_last(),
                    qnt as int,
                ).blocks[k]
        }),
{
    let front = pieces.drop_last();
    let q = pieces.last();
    let taken = take_blocks(t, peer, front, qnt as int);
    take_keeps_blocks(t, peer, front, qnt);
    queues_shrink(t, peer, front, qnt, q);
    if front.contains(q) {
        take_is_exhaustive(t, peer, front, qnt, q);
    }
    let whole = t.pieces_blocks[q];
    let all = take_blocks(t, peer, pieces, qnt as int).blocks;
    assert forall|k: int| taken.blocks.len() <= k < all.len() implies (#[trigger] all[k]).index
        == q by {
        assert(all[k] == taken.queues[q][k - taken.blocks.len()]);
        assert(all[k] == whole[whole.len() - taken.queues[q].len() + k - taken.blocks.len()]);
    }
}

proof fn take_is_in_order(t: TorrentData, peer: Seq<bool>, pieces: Seq<int>, qnt: nat)
    requires
        t.wf(),
    ensures
        ({
            let blocks = take_blocks(t, peer, pieces, qnt as int).blocks;
            &&& forall|k: int|
                0 <= k < blocks.len() ==> pieces.contains((#[trigger] blocks[k]).index as int)
            &&& forall|k: int, l: int|
                0 <= k < l < blocks.len() && (#[trigger] blocks[k]).index != (
                #[trigger] blocks[l]).index ==> stands_before(
                    pieces,
                    blocks[k].index as int,
                    blocks[l].index as int,
                )
        }),
    decreases pieces.len(),
{
    if pieces.len() > 0 {
        let front = pieces.drop_last();
        let x = pieces.last();
        assert(pieces =~= front.push(x));
        take_is_in_order(t, peer, front, qnt);
        take_keeps_blocks(t, peer, front, qnt);
        let before = take_blocks(t, peer, front, qnt as int).blocks;
        let blocks = take_blocks(t, peer, pieces, qnt as int).blocks;
        take_extends(t, peer, pieces, qnt, front.len() as int);
        assert(pieces.take(front.len() as int) =~= front);
        if blocks.len() > before.len() {
            last_is_new(t, peer, pieces, qnt);
        } else {
            assert(blocks =~= before);
        }
        assert forall|k: int| 0 <= k < blocks.len() implies pieces.contains(
            (#[trigger] blocks[k]).index as int,
        ) by {
            if k < before.len() {
                assert(blocks[k] == before[k]);
                let i = front.index_of(before[k].index as int);
                assert(pieces[i] == front[i]);
            } else {
                assert(pieces[pieces.len() - 1] == x);
            }
        }
        assert forall|k: int, l: int|
            0 <= k < l < blocks.len() && (#[trigger] blocks[k]).index != (
            #[trigger] blocks[l]).index implies stands_before(
            pieces,
            blocks[k].index as int,
            blocks[l].index as int,
        ) by {
            let p = blocks[k].index as int;
            let q = blocks[l].index as int;
            if l < before.len() {
                assert(blocks[k] == before[k] && blocks[l] == before[l]);
                stands_before_push(front, x, p, q);
            } else if k < before.len() {
                assert(blocks[k] == before[k]);
                assert(q == x);
                stands_before_push(front, x, p, q);
            }
        }
    }
}

/// Blocks are requested piece by piece in the order of urgency:
/// first those of the pieces that slice readers are interested in, the most urgent first,
/// then those of the pieces to download in their order.
pub proof fn request_is_in_order(
    t: TorrentData,
    peer: Seq<bool>,
    ranges: Seq<Range<u64>>,
    qnt: nat,
    k: int,
    l: int,
)
    requires
        t.wf(),
        0 <= k < l < requested(t, peer, ranges, qnt as int).blocks.len(),
    ensures
        ({
            let p = requested(t, peer, ranges, qnt as int).blocks[k].index;
            let q = requested(t, peer, ranges, qnt as int).blocks[l].index;
            let wanted = wanted_pieces(ranges, t.info.piece_length as int);
            &&& wanted.contains(p as int) || t.pieces.contains(p)
            &&& p != q && wanted.contains(q as int) ==> stands_before(wanted, p as int, q as int)
            &&& p != q && !wanted.contains(q as int) && !wanted.contains(p as int)
                ==> t.pieces.index_of(p) < t.pieces.index_of(q)
        }),
{
    let p = requested(t, peer, ranges, qnt as int).blocks[k].index;
    let q = requested(t, peer, ranges, qnt as int).blocks[l].index;
    let wanted = wanted_pieces(ranges, t.info.piece_length as int);
    let pieces = t.pieces.map_values(|p: u32| p as int);
    let queue = piece_queue(t, ranges);
    take_is_in_order(t, peer, queue, qnt);
    assert(queue == wanted + pieces);
    listed_somewhere(t, wanted, p);
    listed_somewhere(t, wanted, q);
    if p != q {
        order_in_parts(t, wanted, p, q);
    }
}

proof fn listed_somewhere(t: TorrentData, wanted: Seq<int>, p: u32)
    requires
        (wanted + t.pieces.map_values(|p: u32| p as int)).contains(p as int),
    ensures
        wanted.contains(p as int) || t.pieces.contains(p),
{
    let queue = wanted + t.pieces.map_values(|p: u32| p as int);
    let i = queue.index_of(p as int);
    if i < wanted.len() {
        assert(wanted[i] == p);
    } else {
        assert(t.pieces[i - wanted.len()] == p);
    }
}

proof fn order_in_parts(t: TorrentData, wanted: Seq<int>, p: u32, q: u32)
    requires
        t.wf(),
        p != q,
        wanted.contains(q as int) || t.pieces.contains(q),
        stands_before(wanted + t.pieces.map_values(|p: u32| p as int), p as int, q as int),
    ensures
        wanted.contains(q as int) ==> stands_before(wanted, p as int, q as int),
        !wanted.contains(q as int) && !wanted.contains(p as int) ==> t.pieces.index_of(p)
            < t.pieces.index_of(q),
{
    let queue = wanted + t.pieces.map_values(|p: u32| p as int);
    let i = choose|i: int|
        0 <= i < queue.len() && #[trigger] queue[i] == p as int && forall|j: int|
            0 <= j <= i ==> #[trigger] queue[j] != q as int;
    if wanted.contains(q as int) {
        let j = wanted.index_of(q as int);
        assert(queue[j] == q);
        assert(wanted[i] == p as int);
        assert forall|h: int| 0 <= h <= i implies #[trigger] wanted[h] != q as int by {
            assert(queue[h] == wanted[h]);
        }
    } else if !wanted.contains(p as int) {
        if i < wanted.len() {
            assert(wanted[i] == p as int);
        }
        let a = i - wanted.len();
        assert(t.pieces[a] == p);
        assert(t.pieces.index_of(p) == a);
        let b = t.pieces.index_of(q);
        if b <= a {
            assert(queue[wanted.len() + b] == q as int);
        }
    }
}

/// A block of a piece is requested only if no block is left to request
/// of the more urgent pieces that the peer has and that are not downloaded.
pub proof fn urgent_pieces_are_exhausted(
    t: TorrentData,
    peer: Seq<bool>,
    ranges: Seq<Range<u64>>,
    qnt: nat,
    p: int,
    k: int,
)
    requires
        t.wf(),
        0 <= k < requested(t, peer, ranges, qnt as int).blocks.len(),
        0 <= p < peer.len() && peer[p],
        p < t.bitfield.len() && !t.bitfield[p],
        p < t.pieces_blocks.len(),
        ({
            let q = requested(t, peer, ranges, qnt as int).blocks[k].index as int;
            let wanted = wanted_pieces(ranges, t.info.piece_length as int);
            stands_before(wanted + t.pieces.map_values(|p: u32| p as int), p, q)
        }),
    ensures
        requested(t, peer, ranges, qnt as int).queues[p].len() == 0,
{
    urgent_are_exhausted(t, peer, piece_queue(t, ranges), qnt, p, k);
}

proof fn urgent_are_exhausted(
    t: TorrentData,
    peer: Seq<bool>,
    pieces: Seq<int>,
    qnt: nat,
    p: int,
    k: int,
)
    requires
        t.wf(),
        0 <= k < take_blocks(t, peer, pieces, qnt as int).blocks.len(),
        eligible(t, peer, p),
        p < t.pieces_blocks.len(),
        stands_before(pieces, p, take_blocks(t, peer, pieces, qnt as int).blocks[k].index as int),
    ensures
        take_blocks(t, peer, pieces, qnt as int).queues[p].len() == 0,
    decreases pieces.len(),
{
    if pieces.len() > 0 {
        let front = pieces.drop_last();
        let x = pieces.last();
        assert(pieces =~= front.push(x));
        take_keeps_blocks(t, peer, front, qnt);
        queues_shrink(t, peer, front, qnt, p);
        take_is_in_order(t, peer, front, qnt);
        take_extends(t, peer, pieces, qnt, front.len() as int);
        assert(pieces.take(front.len() as int) =~= front);
        let before = take_blocks(t, peer, front, qnt as int).blocks;
        let blocks = take_blocks(t, peer, pieces, qnt as int).blocks;
        let q = blocks[k].index as int;
        if k < before.len() {
            assert(blocks[k] == before[k]);
            stands_before_front(front, x, p, q);
            urgent_are_exhausted(t, peer, front, qnt, p, k);
        } else {
            last_is_new(t, peer, pieces, qnt);
            assert(q == x);
            let i = choose|i: int|
                0 <= i < pieces.len() && #[trigger] pieces[i] == p && forall|j: int|
                    0 <= j <= i ==> #[trigger] pieces[j] != q;
            assert(pieces[pieces.len() - 1] == x);
            assert(front[i] == p);
            take_is_exhaustive(t, peer, front, qnt, p);
        }
    }
}

/// Slice readers have priority: a block of a piece that no range touches is requested
/// only if no block is left to request of the pieces that the ranges touch,
/// and only after the blocks of those.
pub proof fn touched_pieces_come_first(
    t: TorrentData,
    peer: Seq<bool>,
    ranges: Seq<Range<u64>>,
    qnt: nat,
    r: int,
    p: int,
    k: int,
)
    requires
        t.wf(),
        t.info.piece_length > 0,
        0 <= r < ranges.len(),
        touches(ranges[r], t.info.piece_length as int, p),
        0 <= k < requested(t, peer, ranges, qnt as int).blocks.len(),
        forall|s: int|
            0 <= s < ranges.len() ==> !touches(
                #[trigger] ranges[s],
                t.info.piece_length as int,
                requested(t, peer, ranges, qnt as int).blocks[k].index as int,
            ),
    ensures
        p < peer.len() && peer[p] && p < t.bitfield.len() && !t.bitfield[p] && p
            < t.pieces_blocks.len() ==> requested(t, peer, ranges, qnt as int).queues[p].len() == 0,
        forall|l: int|
            k < l < requested(t, peer, ranges, qnt as int).blocks.len() ==> (#[trigger] requested(
                t,
                peer,
                ranges,
                qnt as int,
            ).blocks[l]).index != p,
{
    let d = t.info.piece_length as int;
    let blocks = requested(t, peer, ranges, qnt as int).blocks;
    let q = blocks[k].index as int;
    let wanted = wanted_pieces(ranges, d);
    let queue = wanted + t.pieces.map_values(|p: u32| p as int);
    wanted_pieces_are_touched(ranges, d, p);
    wanted_pieces_are_touched(ranges, d, q);
    let i = wanted.index_of(p);
    assert(queue[i] == p);
    assert forall|j: int| 0 <= j <= i implies #[trigger] queue[j] != q by {
        assert(queue[j] == wanted[j]);
        assert(wanted.contains(wanted[j]));
    }
    assert(stands_before(queue, p, q));
    if p < peer.len() && peer[p] && p < t.bitfield.len() && !t.bitfield[p] && p
        < t.pieces_blocks.len() {
        urgent_pieces_are_exhausted(t, peer, ranges, qnt, p, k);
    }
    assert forall|l: int| k < l < blocks.len() implies (#[trigger] blocks[l]).index != p by {
        if blocks[l].index == p {
            request_is_in_order(t, peer, ranges, qnt, k, l);
            let h = choose|h: int|
                0 <= h < wanted.len() && #[trigger] wanted[h] == q && forall|j: int|
                    0 <= j <= h ==> #[trigger] wanted[j] != p;
            assert(wanted.contains(q));
        }
    }
}

/// Only blocks of pieces that the peer has and that are not downloaded are requested.
pub proof fn request_is_useful(
    t: TorrentData,
    peer: Seq<bool>,
    ranges: Seq<Range<u64>>,
    qnt: nat,
    k: int,
)
    requires
        t.wf(),
        0 <= k < requested(t, peer, ranges, qnt as int).blocks.len(),
    ensures
        ({
            let p = requested(t, peer, ranges, qnt as int).blocks[k].index as int;
            &&& p < peer.len() && peer[p]
            &&& p < t.bitfield.len() && !t.bitfield[p]
        }),
{
    request_is_eligible(t, peer, ranges, qnt, k);
}

/// Blocks can be requested if it is known of every piece of the torrent whether it is downloaded,
/// and the ranges of the slices lie in the pieces of the torrent.
pub proof fn blocks_can_be_requested(
    t: TorrentData,
    peer: Seq<bool>,
    ranges: Seq<Range<u64>>,
    qnt: nat,
)
    requires
        t.wf(),
        t.info.piece_length > 0,
        t.info.pieces.len() / 20 <= t.bitfield.len(),
        forall|r: int|
            0 <= r < ranges.len() ==> (#[trigger] ranges[r]).start <= ranges[r].end <= (
            t.info.pieces.len() / 20) * t.info.piece_length,
    ensures
        can_request(t, peer, ranges, qnt as int),
{
    let d = t.info.piece_length as int;
    let n = (t.info.pieces.len() / 20) as int;
    let queue = piece_queue(t, ranges);
    let wanted = wanted_pieces(ranges, d);
    torrent_is_measured(t.info);
    assert forall|r: int| 0 <= r < ranges.len() implies piece_range_fits(
        #[trigger] ranges[r],
        d,
    ) by {
        range_in_torrent_fits(ranges[r], d, n);
    }
    assert forall|k: int| 0 <= k < queue.len() implies #[trigger] queue[k] < n by {
        if k < wanted.len() {
            assert(wanted.contains(wanted[k]));
            wanted_pieces_are_touched(ranges, d, wanted[k]);
            let r = choose|r: int| 0 <= r < ranges.len() && touches(#[trigger] ranges[r], d, wanted[k]);
            range_in_torrent_fits(ranges[r], d, n);
        } else {
            assert(queue[k] == t.pieces[k - wanted.len()]);
        }
    }
}

/// Blocks that are given back are appended to the queues of their pieces, in their order.
pub proof fn returned_blocks_are_appended(
    queues: Seq<Seq<BlockInfo>>,
    blocks: Seq<BlockInfo>,
    p: int,
)
    requires
        0 <= p < queues.len(),
    ensures
        returned(queues, blocks).len() == queues.len(),
        returned(queues, blocks)[p] == queues[p] + of_piece(blocks, p),
    decreases blocks.len(),
{
    reveal(Seq::filter);
    if blocks.len() > 0 {
        let front = blocks.drop_last();
        returned_blocks_are_appended(queues, front, p);
        if blocks.last().index == p {
            assert((queues[p] + of_piece(front, p)).push(blocks.last()) =~= queues[p] + of_piece(
                front,
                p,
            ).push(blocks.last()));
        }
    } else {
        assert(of_piece(blocks, p) =~= Seq::<BlockInfo>::empty());
        assert(queues[p] + of_piece(blocks, p) =~= queues[p]);
    }
}

/// Whether the pieces of `blocks` start at the first piece and leave none out.
pub open spec fn is_gapless(blocks: Seq<BlockInfo>) -> bool {
    &&& blocks.len() > 0 ==> blocks[0].index == 0
    &&& forall|k: int, l: int|
        0 <= k && l == k + 1 && l < blocks.len() ==> (#[trigger] blocks[k]).index <= (
        #[trigger] blocks[l]).index <= blocks[k].index + 1
}

/// Every piece gets a queue with its blocks, in their order, if the blocks are listed
/// from the first piece to the last, and such a list is in order.
pub proof fn blocks_get_queues(blocks: Seq<BlockInfo>)
    requires
        is_gapless(blocks),
    ensures
        blocks_in_order(blocks),
        distributed(blocks).len() == if blocks.len() > 0 {
            blocks.last().index + 1
        } else {
            0
        },
    decreases blocks.len(),
{
    if blocks.len() > 0 {
        let front = blocks.drop_last();
        let n = blocks.len() - 1;
        assert forall|k: int, l: int| 0 <= k && l == k + 1 && l < front.len() implies (
        #[trigger] front[k]).index <= (#[trigger] front[l]).index <= front[k].index + 1 by {
            assert(blocks[k] == front[k] && blocks[l] == front[l]);
        }
        if front.len() > 0 {
            assert(front[0] == blocks[0]);
            assert(blocks[n - 1].index <= blocks[n].index);
            assert(front.last() == blocks[n - 1]);
        }
        blocks_get_queues(front);
        assert(blocks.take(n) =~= front);
        assert forall|k: int| 0 <= k < blocks.len() implies #[trigger] is_in_order(blocks, k) by {
            if k < n {
                assert(is_in_order(front, k));
                assert(front.take(k) =~= blocks.take(k));
            }
        }
    }
}

/// The queue of a piece holds the blocks of the piece, in their order.
pub proof fn queue_holds_blocks_of_piece(blocks: Seq<BlockInfo>, p: int)
    requires
        blocks_in_order(blocks),
        0 <= p < distributed(blocks).len(),
    ensures
        distributed(blocks)[p] == of_piece(blocks, p),
        forall|k: int|
            0 <= k < blocks.len() ==> (#[trigger] blocks[k]).index < distributed(blocks).len(),
    decreases blocks.len(),
{
    reveal(Seq::filter);
    if blocks.len() > 0 {
        let front = blocks.drop_last();
        let n = blocks.len() - 1;
        let block = blocks.last();
        let rest = distributed(front);
        assert(blocks.take(n) =~= front);
        assert(is_in_order(blocks, n));
        assert forall|k: int| 0 <= k < front.len() implies #[trigger] is_in_order(front, k) by {
            assert(is_in_order(blocks, k));
            assert(blocks.take(k) =~= front.take(k));
        }
        assert(blocks =~= front.push(block));
        indices_have_queues(front);
        if p < rest.len() {
            queue_holds_blocks_of_piece(front, p);
        } else {
            assert forall|k: int| 0 <= k < front.len() implies (#[trigger] front[k]).index != p by {}
            of_piece_none(front, p);
            assert(of_piece(blocks, p) =~= seq![block]);
        }
        assert forall|k: int| 0 <= k < blocks.len() implies (#[trigger] blocks[k]).index
            < distributed(blocks).len() by {
            if k < n {
                assert(blocks[k] == front[k]);
            }
        }
    }
}

proof fn indices_have_queues(blocks: Seq<BlockInfo>)
    requires
        blocks_in_order(blocks),
    ensures
        forall|k: int|
            0 <= k < blocks.len() ==> (#[trigger] blocks[k]).index < distributed(blocks).len(),
    decreases blocks.len(),
{
    if blocks.len() > 0 {
        let front = blocks.drop_last();
        let n = blocks.len() - 1;
        assert(blocks.take(n) =~= front);
        assert(is_in_order(blocks, n));
        assert forall|k: int| 0 <= k < front.len() implies #[trigger] is_in_order(front, k) by {
            assert(is_in_order(blocks, k));
            assert(blocks.take(k) =~= front.take(k));
        }
        indices_have_queues(front);
        assert forall|k: int| 0 <= k < blocks.len() implies (#[trigger] blocks[k]).index
            < distributed(blocks).len() by {
            if k < n {
                assert(blocks[k] == front[k]);
            }
        }
    }
}

} // verus!
