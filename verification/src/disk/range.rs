//! Ranges of bytes and pieces that the readers of slices are interested in.
use crate::order::{descending, descending_is_stable_sort, descending_order};
use crate::tcp_wire::BlockInfo;
use std::ops::Range;
use vstd::prelude::*;

verus! {

/// The number of integers in `range`.
pub fn range_len(range: Range<u32>) -> (res: u32)
    ensures
        res == if range.start < range.end {
            range.end - range.start
        } else {
            0
        },
{
    if range.start < range.end {
        range.end - range.start
    } else {
        0
    }
}

/// Removes the prefix of length `prefix_len` from `range`.
/// Returns `None` if `prefix_len` is greater than the length of `range`.
pub fn range_remove_prefix(range: Range<u64>, prefix_len: u64) -> (res: Option<Range<u64>>)
    ensures
        res is Some <==> range.start + prefix_len <= range.end,
        res matches Some(rest) ==> rest.start == range.start + prefix_len && rest.end == range.end,
{
    match range.start.checked_add(prefix_len) {
        Some(new_start) => if new_start <= range.end {
            Some(new_start..range.end)
        } else {
            None
        },
        None => None,
    }
}

/// The largest number of bytes that are sent to a slice reader at once.
pub const SLICE_PREFIX_SIZE_LIMIT: u32 = 131072;

/// The smaller of two integers.
pub open spec fn smaller(a: int, b: int) -> int {
    if a <= b {
        a
    } else {
        b
    }
}

/// The longest prefix of `range` in a torrent that is inside a piece
/// and not longer than [`SLICE_PREFIX_SIZE_LIMIT`].
pub open spec fn slice_prefix(range: Range<u64>, piece_len: int) -> BlockInfo {
    let begin = range.start as int % piece_len;
    BlockInfo {
        index: (range.start as int / piece_len) as u32,
        begin: begin as u32,
        len: smaller(
            range.end - range.start,
            smaller(piece_len - begin, SLICE_PREFIX_SIZE_LIMIT as int),
        ) as u32,
    }
}

/// Calculates a prefix of `range` in a torrent suitable for sending it to a slice reader.
/// The length of the result is at most [`SLICE_PREFIX_SIZE_LIMIT`].
/// The result is inside a piece.
/// If `range` is not empty, the result is not empty.
///
/// Beware that if `range` is empty and at the end of the torrent,
/// then [`BlockInfo::index`] in the result is the number of pieces in the torrent,
/// thus out of bounds.
pub fn calc_slice_prefix(range: Range<u64>, piece_len: u32) -> (res: BlockInfo)
    requires
        range.start <= range.end,
        range.start < piece_len * (u32::MAX + 1),
    ensures
        res == slice_prefix(range, piece_len as int),
        res.index == range.start as int / piece_len as int,
        res.index * piece_len + res.begin == range.start,
        res.begin + res.len <= piece_len,
        res.len <= range.end - range.start,
        res.len <= SLICE_PREFIX_SIZE_LIMIT,
        range.start < range.end ==> res.len > 0,
{
    let len: u64 = piece_len as u64;
    proof {
        assert(len > 0) by (nonlinear_arith)
            requires
                range.start < len * (u32::MAX + 1),
        ;
        let q = range.start as int / len as int;
        vstd::arithmetic::div_mod::lemma_fundamental_div_mod(range.start as int, len as int);
        vstd::arithmetic::mul::lemma_mul_is_commutative(len as int, q);
        assert(q <= u32::MAX) by (nonlinear_arith)
            requires
                q * len <= range.start,
                range.start < len * (u32::MAX + 1),
        ;
    }
    let index: u32 = (range.start / len) as u32;
    let piece_start: u64 = index as u64 * len;
    let start: u64 = range.start - piece_start;
    let mut end: u64 = range.end - piece_start;
    if len < end {
        end = len;
    }
    if start + (SLICE_PREFIX_SIZE_LIMIT as u64) < end {
        end = start + SLICE_PREFIX_SIZE_LIMIT as u64;
    }
    BlockInfo { index, begin: start as u32, len: (end - start) as u32 }
}

/// The number of pieces that the first `offset` bytes of a torrent reach into.
pub open spec fn pieces_up_to(offset: int, piece_len: int) -> int {
    (offset + piece_len - 1) / piece_len
}

/// The pieces that `range` overlaps.
pub open spec fn piece_range(range: Range<u64>, piece_len: int) -> (int, int) {
    (range.start as int / piece_len, pieces_up_to(range.end as int, piece_len))
}

/// For every range, how far into a piece it starts.
pub open spec fn start_in_piece(ranges: Seq<Range<u64>>, piece_len: int) -> Seq<u64> {
    ranges.map_values(|r: Range<u64>| (r.start as int % piece_len) as u64)
}

/// The piece ranges of `ranges`, first those that start farthest into a piece.
pub open spec fn piece_ranges(ranges: Seq<Range<u64>>, piece_len: int) -> Seq<(int, int)> {
    descending(start_in_piece(ranges, piece_len)).map_values(
        |i: int| piece_range(ranges[i], piece_len),
    )
}

/// The number of pieces in the longest of the first `n` ranges.
pub open spec fn longest(ranges: Seq<(int, int)>, n: int) -> int
    decreases n,
{
    if n <= 0 {
        0
    } else {
        let len = ranges[n - 1].1 - ranges[n - 1].0;
        if len > longest(ranges, n - 1) {
            len
        } else {
            longest(ranges, n - 1)
        }
    }
}

/// The `i`-th piece of each of the first `n` ranges that has so many.
pub open spec fn row(ranges: Seq<(int, int)>, i: int, n: int) -> Seq<int>
    decreases n,
{
    if n <= 0 {
        Seq::empty()
    } else if ranges[n - 1].0 + i < ranges[n - 1].1 {
        row(ranges, i, n - 1).push(ranges[n - 1].0 + i)
    } else {
        row(ranges, i, n - 1)
    }
}

/// The first `m` pieces of every range, interleaved.
pub open spec fn rows(ranges: Seq<(int, int)>, m: int) -> Seq<int>
    decreases m,
{
    if m <= 0 {
        Seq::empty()
    } else {
        rows(ranges, m - 1) + row(ranges, m - 1, ranges.len() as int)
    }
}

/// The first piece of every range, then the second piece of every range, and so on.
pub open spec fn interleaving(ranges: Seq<(int, int)>) -> Seq<int> {
    rows(ranges, longest(ranges, ranges.len() as int))
}

/// The pieces that the readers of `ranges` are interested in, the most urgent first.
pub open spec fn wanted_pieces(ranges: Seq<Range<u64>>, piece_len: int) -> Seq<int> {
    interleaving(piece_ranges(ranges, piece_len))
}

proof fn row_elements(ranges: Seq<(int, int)>, i: int, n: int, p: int)
    requires
        0 <= n <= ranges.len(),
    ensures
        row(ranges, i, n).contains(p) <==> exists|r: int|
            0 <= r < n && (#[trigger] ranges[r]).0 + i == p && p < ranges[r].1,
    decreases n,
{
    if n > 0 {
        row_elements(ranges, i, n - 1, p);
        let rest = row(ranges, i, n - 1);
        if ranges[n - 1].0 + i < ranges[n - 1].1 {
            let all = rest.push(ranges[n - 1].0 + i);
            assert(all.last() == ranges[n - 1].0 + i);
            if rest.contains(p) {
                let k = rest.index_of(p);
                assert(all[k] == p);
            }
        }
    }
}

proof fn rows_elements(ranges: Seq<(int, int)>, m: int, p: int)
    requires
        0 <= m,
    ensures
        rows(ranges, m).contains(p) <==> exists|r: int|
            0 <= r < ranges.len() && (#[trigger] ranges[r]).0 <= p < ranges[r].1 && p - ranges[r].0
                < m,
    decreases m,
{
    if m > 0 {
        let n = ranges.len() as int;
        rows_elements(ranges, m - 1, p);
        row_elements(ranges, m - 1, n, p);
        let head = rows(ranges, m - 1);
        let tail = row(ranges, m - 1, n);
        let all = head + tail;
        if head.contains(p) {
            assert(all[head.index_of(p)] == p);
        }
        if tail.contains(p) {
            assert(all[head.len() + tail.index_of(p)] == p);
        }
        if exists|r: int|
            0 <= r < n && (#[trigger] ranges[r]).0 <= p < ranges[r].1 && p - ranges[r].0 < m {
            let r = choose|r: int|
                0 <= r < n && (#[trigger] ranges[r]).0 <= p < ranges[r].1 && p - ranges[r].0 < m;
            if p - ranges[r].0 == m - 1 {
                assert(ranges[r].0 + (m - 1) == p);
                assert(tail.contains(p));
            } else {
                assert(head.contains(p));
            }
        }
    }
}

proof fn longest_bounds(ranges: Seq<(int, int)>, n: int, r: int)
    requires
        0 <= n <= ranges.len(),
    ensures
        longest(ranges, n) >= 0,
        0 <= r < n ==> ranges[r].1 - ranges[r].0 <= longest(ranges, n),
    decreases n,
{
    if n > 0 {
        longest_bounds(ranges, n - 1, r);
    }
}

/// A piece is wanted iff one of the ranges overlaps it.
pub proof fn wanted_iff_overlapped(ranges: Seq<Range<u64>>, piece_len: int, p: int)
    requires
        piece_len > 0,
    ensures
        wanted_pieces(ranges, piece_len).contains(p) <==> exists|r: int|
            0 <= r < ranges.len() && piece_range(#[trigger] ranges[r], piece_len).0 <= p
                < piece_range(ranges[r], piece_len).1,
{
    let order = descending(start_in_piece(ranges, piece_len));
    let prs = piece_ranges(ranges, piece_len);
    let m = longest(prs, prs.len() as int);
    longest_bounds(prs, prs.len() as int, 0);
    rows_elements(prs, m, p);
    descending_is_stable_sort(start_in_piece(ranges, piece_len));
    if exists|r: int|
        0 <= r < ranges.len() && piece_range(#[trigger] ranges[r], piece_len).0 <= p < piece_range(
            ranges[r],
            piece_len,
        ).1 {
        let r = choose|r: int|
            0 <= r < ranges.len() && piece_range(#[trigger] ranges[r], piece_len).0 <= p
                < piece_range(ranges[r], piece_len).1;
        assert(order.contains(r));
        let k = order.index_of(r);
        assert(prs[k] == piece_range(ranges[r], piece_len));
        longest_bounds(prs, prs.len() as int, k);
    }
    if exists|k: int|
        0 <= k < prs.len() && (#[trigger] prs[k]).0 <= p < prs[k].1 && p - prs[k].0 < m {
        let k = choose|k: int|
            0 <= k < prs.len() && (#[trigger] prs[k]).0 <= p < prs[k].1 && p - prs[k].0 < m;
        let r = order[k];
        assert(prs[k] == piece_range(ranges[r], piece_len));
    }
}

/// Whether pieces are not empty and the piece indices of a range fit in 32 bits.
pub open spec fn piece_range_fits(range: Range<u64>, piece_len: int) -> bool {
    &&& piece_len > 0
    &&& piece_range(range, piece_len).0 <= u32::MAX
    &&& piece_range(range, piece_len).1 <= u32::MAX
}

/// Calculates a list of piece indices in order of decreasing priority
/// that slice readers are interested in.
/// `ranges` is a list of byte ranges in a torrent that slice readers are interested in.
/// This function converts every byte range into a piece range
/// and returns the interleaving of piece ranges.
/// For example, if the first piece range is `[10, 11, 12, 13, 14]`
/// and the second piece range is `[8, 9, 10]`,
/// then the result is `[10, 8, 11, 9, 12, 10, 13, 14]`.
/// The result may contain duplicates.
pub fn slices_to_pieces(ranges: &Vec<Range<u64>>, piece_len: u32) -> (res: Vec<u32>)
    requires
        forall|r: int|
            0 <= r < ranges@.len() ==> piece_range_fits(#[trigger] ranges@[r], piece_len as int),
    ensures
        res@.map_values(|p: u32| p as int) == wanted_pieces(ranges@, piece_len as int),
{
    let len: u64 = piece_len as u64;
    let ghost starts = start_in_piece(ranges@, len as int);
    let mut ranks: Vec<u64> = Vec::new();
    let mut i: usize = 0;
    while i < ranges.len()
        invariant
            i <= ranges.len(),
            len == piece_len,
            forall|r: int|
                0 <= r < ranges@.len() ==> piece_range_fits(
                    #[trigger] ranges@[r],
                    piece_len as int,
                ),
            starts == start_in_piece(ranges@, len as int),
            ranks@ =~= starts.take(i as int),
        decreases ranges.len() - i,
    {
        assert(piece_range_fits(ranges@[i as int], piece_len as int));
        ranks.push(ranges[i].start % len);
        i += 1;
    }
    assert(starts.take(i as int) =~= starts);
    let order = descending_order(&ranks);
    let ghost ints = order@.map_values(|i: usize| i as int);
    proof {
        descending_is_stable_sort(starts);
    }
    let ghost prs = piece_ranges(ranges@, len as int);
    let mut piece_ranges_list: Vec<Range<u32>> = Vec::new();
    let mut max_range_len: u32 = 0;
    let mut k: usize = 0;
    while k < order.len()
        invariant
            k <= order.len(),
            len == piece_len,
            order@.len() == ranges@.len(),
            ints == order@.map_values(|i: usize| i as int),
            ints == descending(start_in_piece(ranges@, len as int)),
            forall|j: int| 0 <= j < ranges@.len() ==> 0 <= #[trigger] ints[j] < ranges@.len(),
            prs == piece_ranges(ranges@, len as int),
            forall|r: int|
                0 <= r < ranges@.len() ==> piece_range_fits(
                    #[trigger] ranges@[r],
                    piece_len as int,
                ),
            piece_ranges_list@.len() == k,
            forall|j: int|
                0 <= j < k ==> (#[trigger] prs[j]) == (
                    piece_ranges_list@[j].start as int,
                    piece_ranges_list@[j].end as int,
                ),
            max_range_len == longest(prs, k as int),
        decreases order.len() - k,
    {
        assert(ints[k as int] == order@[k as int]);
        let range = &ranges[order[k]];
        proof {
            assert(piece_range_fits(ranges@[ints[k as int]], piece_len as int));
            assert(prs[k as int] == piece_range(ranges@[ints[k as int]], len as int));
            up_to_is_div_ceil(range.end as int, len as int);
        }
        let start: u32 = (range.start / len) as u32;
        let whole: u64 = range.end / len;
        let end: u32 = if range.end % len == 0 {
            whole as u32
        } else {
            (whole + 1) as u32
        };
        let n: u32 = range_len(start..end);
        if n > max_range_len {
            max_range_len = n;
        }
        piece_ranges_list.push(start..end);
        k += 1;
    }
    let mut res: Vec<u32> = Vec::new();
    let mut m: u32 = 0;
    while m < max_range_len
        invariant
            m <= max_range_len,
            prs.len() == piece_ranges_list@.len(),
            forall|j: int|
                0 <= j < prs.len() ==> (#[trigger] prs[j]) == (
                    piece_ranges_list@[j].start as int,
                    piece_ranges_list@[j].end as int,
                ),
            res@.map_values(|p: u32| p as int) =~= rows(prs, m as int),
        decreases max_range_len - m,
    {
        let mut r: usize = 0;
        while r < piece_ranges_list.len()
            invariant
                r <= piece_ranges_list.len(),
                prs.len() == piece_ranges_list@.len(),
                forall|j: int|
                    0 <= j < prs.len() ==> (#[trigger] prs[j]) == (
                        piece_ranges_list@[j].start as int,
                        piece_ranges_list@[j].end as int,
                    ),
                res@.map_values(|p: u32| p as int) =~= rows(prs, m as int) + row(
                    prs,
                    m as int,
                    r as int,
                ),
            decreases piece_ranges_list.len() - r,
        {
            let range = &piece_ranges_list[r];
            assert(prs[r as int] == (range.start as int, range.end as int));
            let p: u64 = range.start as u64 + m as u64;
            if p < range.end as u64 {
                let ghost before = res@;
                res.push(p as u32);
                assert(res@.map_values(|p: u32| p as int) =~= before.map_values(
                    |p: u32| p as int,
                ).push(p as int));
            }
            r += 1;
        }
        m += 1;
    }
    res
}

/// The last piece counts if `x` bytes reach into it.
pub proof fn up_to_is_div_ceil(x: int, d: int)
    requires
        x >= 0,
        d > 0,
    ensures
        pieces_up_to(x, d) == x / d + if x % d == 0 {
            0int
        } else {
            1int
        },
{
    let q = x / d;
    let r = x % d;
    vstd::arithmetic::div_mod::lemma_fundamental_div_mod(x, d);
    if r == 0 {
        vstd::arithmetic::div_mod::lemma_fundamental_div_mod_converse(x + d - 1, d, q, d - 1);
    } else {
        assert(d * (q + 1) == d * q + d) by (nonlinear_arith);
        vstd::arithmetic::div_mod::lemma_fundamental_div_mod_converse(
            x + d - 1,
            d,
            q + 1,
            r - 1,
        );
    }
}

} // verus!
