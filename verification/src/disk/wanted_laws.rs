//! What holds of the pieces that slice readers are interested in.
use crate::disk::range::{
    longest, piece_range, piece_range_fits, piece_ranges, pieces_up_to, row, rows, slice_prefix,
    start_in_piece, wanted_pieces,
};
use crate::order::{descending, descending_is_stable_sort};
use std::ops::Range;
use vstd::prelude::*;

verus! {

/// Whether the piece `p` starts before the end of `range` and ends after its start.
pub open spec fn touches(range: Range<u64>, piece_len: int, p: int) -> bool {
    0 <= p && p * piece_len < range.end && range.start < (p + 1) * piece_len
}

/// The pieces from the one that a range starts in up to the one that it ends in
/// are those that it touches.
pub proof fn range_touches_its_pieces(range: Range<u64>, piece_len: int, p: int)
    requires
        piece_len > 0,
    ensures
        piece_range(range, piece_len).0 <= p < piece_range(range, piece_len).1 <==> touches(
            range,
            piece_len,
            p,
        ),
        piece_range(range, piece_len).0 * piece_len <= range.start,
        range.start < (piece_range(range, piece_len).0 + 1) * piece_len,
        piece_range(range, piece_len).0 >= 0,
{
    let d = piece_len;
    let x = range.start as int;
    let y = range.end as int;
    let a = x / d;
    let b = pieces_up_to(y, d);
    vstd::arithmetic::div_mod::lemma_fundamental_div_mod(x, d);
    vstd::arithmetic::div_mod::lemma_fundamental_div_mod(y + d - 1, d);
    let s = (y + d - 1) % d;
    assert(x == a * d + x % d) by (nonlinear_arith)
        requires
            x == d * a + x % d,
    ;
    assert(y + d - 1 == b * d + s) by (nonlinear_arith)
        requires
            y + d - 1 == d * b + s,
    ;
    assert((a + 1) * d == a * d + d) by (nonlinear_arith);
    assert(a >= 0) by (nonlinear_arith)
        requires
            x < (a + 1) * d,
            x >= 0,
            d > 0,
    ;
    assert(a <= p <==> x < (p + 1) * d) by (nonlinear_arith)
        requires
            a * d <= x < (a + 1) * d,
            d > 0,
    ;
    assert(p < b <==> p * d < y) by (nonlinear_arith)
        requires
            y + d - 1 == b * d + s,
            0 <= s < d,
            d > 0,
    ;
}

/// For a row, the range that every piece of it belongs to, with the number of the row.
spec fn row_from(ranges: Seq<(int, int)>, i: int, n: int) -> Seq<(int, int)>
    decreases n,
{
    if n <= 0 {
        Seq::empty()
    } else if ranges[n - 1].0 + i < ranges[n - 1].1 {
        row_from(ranges, i, n - 1).push((n - 1, i))
    } else {
        row_from(ranges, i, n - 1)
    }
}

proof fn row_is_from(ranges: Seq<(int, int)>, i: int, n: int)
    requires
        0 <= n <= ranges.len(),
    ensures
        ({
            let from = row_from(ranges, i, n);
            let r = row(ranges, i, n);
            &&& from.len() == r.len()
            &&& forall|j: int|
                0 <= j < from.len() ==> {
                    let e = #[trigger] from[j];
                    &&& e.1 == i
                    &&& 0 <= e.0 < n
                    &&& r[j] == ranges[e.0].0 + i
                    &&& r[j] < ranges[e.0].1
                }
            &&& forall|j: int, k: int|
                0 <= j < k < from.len() ==> (#[trigger] from[j]).0 < (#[trigger] from[k]).0
            &&& forall|e: int|
                0 <= e < n && (#[trigger] ranges[e]).0 + i < ranges[e].1 ==> from.contains((e, i))
        }),
    decreases n,
{
    if n > 0 {
        row_is_from(ranges, i, n - 1);
        let front = row_from(ranges, i, n - 1);
        let from = row_from(ranges, i, n);
        assert forall|e: int|
            0 <= e < n && (#[trigger] ranges[e]).0 + i < ranges[e].1 implies from.contains(
            (e, i),
        ) by {
            if e < n - 1 {
                let j = front.index_of((e, i));
                assert(from[j] == (e, i));
            } else {
                assert(from[front.len() as int] == (e, i));
            }
        }
    }
}

spec fn rows_from(ranges: Seq<(int, int)>, m: int) -> Seq<(int, int)>
    decreases m,
{
    if m <= 0 {
        Seq::empty()
    } else {
        rows_from(ranges, m - 1) + row_from(ranges, m - 1, ranges.len() as int)
    }
}

proof fn rows_are_from(ranges: Seq<(int, int)>, m: int)
    requires
        0 <= m,
    ensures
        ({
            let from = rows_from(ranges, m);
            let r = rows(ranges, m);
            &&& from.len() == r.len()
            &&& forall|j: int|
                0 <= j < from.len() ==> {
                    let e = #[trigger] from[j];
                    &&& 0 <= e.1 < m
                    &&& 0 <= e.0 < ranges.len()
                    &&& r[j] == ranges[e.0].0 + e.1
                    &&& r[j] < ranges[e.0].1
                }
            &&& forall|j: int, k: int|
                0 <= j < k < from.len() ==> (#[trigger] from[j]).1 < (#[trigger] from[k]).1 || (
                from[j].1 == from[k].1 && from[j].0 < from[k].0)
            &&& forall|e: int, i: int|
                0 <= e < ranges.len() && 0 <= i < m && (#[trigger] ranges[e]).0 + i < ranges[e].1
                    ==> #[trigger] from.contains((e, i))
        }),
    decreases m,
{
    if m > 0 {
        let n = ranges.len() as int;
        rows_are_from(ranges, m - 1);
        row_is_from(ranges, m - 1, n);
        let head = rows_from(ranges, m - 1);
        let tail = row_from(ranges, m - 1, n);
        let from = rows_from(ranges, m);
        let r = rows(ranges, m);
        assert forall|j: int| 0 <= j < from.len() implies {
            let e = #[trigger] from[j];
            &&& 0 <= e.1 < m
            &&& 0 <= e.0 < ranges.len()
            &&& r[j] == ranges[e.0].0 + e.1
            &&& r[j] < ranges[e.0].1
        } by {
            if j < head.len() {
                assert(from[j] == head[j]);
            } else {
                assert(from[j] == tail[j - head.len()]);
            }
        }
        assert forall|j: int, k: int| 0 <= j < k < from.len() implies (#[trigger] from[j]).1 < (
        #[trigger] from[k]).1 || (from[j].1 == from[k].1 && from[j].0 < from[k].0) by {
            if k < head.len() {
                assert(from[j] == head[j] && from[k] == head[k]);
            } else if j < head.len() {
                assert(from[j] == head[j] && from[k] == tail[k - head.len()]);
            } else {
                assert(from[j] == tail[j - head.len()] && from[k] == tail[k - head.len()]);
            }
        }
        assert forall|e: int, i: int|
            0 <= e < ranges.len() && 0 <= i < m && (#[trigger] ranges[e]).0 + i
                < ranges[e].1 implies #[trigger] from.contains((e, i)) by {
            if i < m - 1 {
                assert(head.contains((e, i)));
                let j = head.index_of((e, i));
                assert(from[j] == (e, i));
            } else {
                assert(tail.contains((e, i)));
                let j = tail.index_of((e, i));
                assert(from[head.len() + j] == (e, i));
            }
        }
    }
}

proof fn longest_is_longest(ranges: Seq<(int, int)>, n: int)
    requires
        0 <= n <= ranges.len(),
    ensures
        longest(ranges, n) >= 0,
        forall|r: int|
            0 <= r < n ==> (#[trigger] ranges[r]).1 - ranges[r].0 <= longest(ranges, n),
    decreases n,
{
    if n > 0 {
        longest_is_longest(ranges, n - 1);
    }
}

/// Whether the range `r` stands before the range `s` among those of equal rank:
/// it starts farther into a piece, or as far and is listed before.
pub open spec fn is_more_urgent(ranges: Seq<Range<u64>>, piece_len: int, r: int, s: int) -> bool {
    let a = ranges[r].start as int % piece_len;
    let b = ranges[s].start as int % piece_len;
    a > b || (a == b && r < s)
}

/// Whether `from` tells of every piece in `wanted` the range that it belongs to,
/// and how many pieces of this range stand before it in the range.
pub open spec fn tells_ranges(
    ranges: Seq<Range<u64>>,
    piece_len: int,
    wanted: Seq<int>,
    from: Seq<(int, int)>,
) -> bool {
    &&& from.len() == wanted.len()
    &&& forall|k: int|
        0 <= k < from.len() ==> {
            let (r, i) = #[trigger] from[k];
            &&& 0 <= r < ranges.len()
            &&& 0 <= i
            &&& wanted[k] == ranges[r].start as int / piece_len + i
            &&& touches(ranges[r], piece_len, wanted[k])
        }
    &&& forall|r: int, p: int|
        0 <= r < ranges.len() && #[trigger] touches(ranges[r], piece_len, p) ==> from.contains(
            (r, p - ranges[r].start as int / piece_len),
        )
}

/// The pieces that slice readers are interested in are the pieces that their ranges touch,
/// every piece once for every range that touches it.
/// The first pieces of all ranges come first, then the second pieces of all ranges, and so on;
/// of the pieces with one number, those of the range that starts farthest into a piece first,
/// and of ranges that start as far, those of the range that is listed first.
pub proof fn wanted_pieces_interleave(ranges: Seq<Range<u64>>, piece_len: int)
    requires
        piece_len > 0,
    ensures
        exists|from: Seq<(int, int)>| #[trigger]
            tells_ranges(ranges, piece_len, wanted_pieces(ranges, piece_len), from) && forall|
                k: int,
                l: int,
            |
                0 <= k < l < from.len() ==> (#[trigger] from[k]).1 < (#[trigger] from[l]).1 || (
                from[k].1 == from[l].1 && is_more_urgent(
                    ranges,
                    piece_len,
                    from[k].0,
                    from[l].0,
                )),
{
    let starts = start_in_piece(ranges, piece_len);
    let order = descending(starts);
    let prs = piece_ranges(ranges, piece_len);
    let m = longest(prs, prs.len() as int);
    let wanted = wanted_pieces(ranges, piece_len);
    descending_is_stable_sort(starts);
    longest_is_longest(prs, prs.len() as int);
    rows_are_from(prs, m);
    let ids = rows_from(prs, m);
    let from = ids.map_values(|e: (int, int)| (order[e.0], e.1));
    assert forall|e: int| 0 <= e < prs.len() implies (#[trigger] prs[e]) == piece_range(
        ranges[order[e]],
        piece_len,
    ) by {}
    assert forall|k: int| 0 <= k < from.len() implies {
        let (r, i) = #[trigger] from[k];
        &&& 0 <= r < ranges.len()
        &&& 0 <= i
        &&& wanted[k] == ranges[r].start as int / piece_len + i
        &&& touches(ranges[r], piece_len, wanted[k])
    } by {
        let e = ids[k];
        assert(prs[e.0] == piece_range(ranges[order[e.0]], piece_len));
        range_touches_its_pieces(ranges[order[e.0]], piece_len, wanted[k]);
    }
    assert forall|r: int, p: int|
        0 <= r < ranges.len() && #[trigger] touches(
            ranges[r],
            piece_len,
            p,
        ) implies from.contains((r, p - ranges[r].start as int / piece_len)) by {
        range_touches_its_pieces(ranges[r], piece_len, p);
        assert(order.contains(r));
        let e = order.index_of(r);
        let i = p - ranges[r].start as int / piece_len;
        assert(prs[e] == piece_range(ranges[r], piece_len));
        assert(ids.contains((e, i)));
        let j = ids.index_of((e, i));
        assert(from[j] == (r, i));
    }
    assert(tells_ranges(ranges, piece_len, wanted, from));
    assert forall|k: int, l: int| 0 <= k < l < from.len() implies (#[trigger] from[k]).1 < (
    #[trigger] from[l]).1 || (from[k].1 == from[l].1 && is_more_urgent(
        ranges,
        piece_len,
        from[k].0,
        from[l].0,
    )) by {
        let a = ids[k];
        let b = ids[l];
        if a.1 == b.1 {
            assert(a.0 < b.0);
            let r = order[a.0];
            let s = order[b.0];
            assert(starts[r] > starts[s] || (starts[r] == starts[s] && r < s));
            start_fits(ranges[r], piece_len);
            start_fits(ranges[s], piece_len);
        }
    }
}

proof fn start_fits(range: Range<u64>, piece_len: int)
    requires
        piece_len > 0,
    ensures
        (range.start as int % piece_len) as u64 == range.start as int % piece_len,
{
    vstd::arithmetic::div_mod::lemma_fundamental_div_mod(range.start as int, piece_len);
    let q = range.start as int / piece_len;
    assert(0 <= piece_len * q) by (nonlinear_arith)
        requires
            piece_len > 0,
            q == range.start as int / piece_len,
            range.start >= 0,
    ;
}

/// A piece is listed iff a range touches it.
pub proof fn wanted_pieces_are_touched(ranges: Seq<Range<u64>>, piece_len: int, p: int)
    requires
        piece_len > 0,
    ensures
        wanted_pieces(ranges, piece_len).contains(p) <==> exists|r: int|
            0 <= r < ranges.len() && touches(#[trigger] ranges[r], piece_len, p),
{
    wanted_pieces_interleave(ranges, piece_len);
    let wanted = wanted_pieces(ranges, piece_len);
    let from = choose|from: Seq<(int, int)>| #[trigger]
        tells_ranges(ranges, piece_len, wanted, from);
    if wanted.contains(p) {
        let k = wanted.index_of(p);
        let e = from[k];
        assert(touches(ranges[e.0], piece_len, p));
    }
    if exists|r: int| 0 <= r < ranges.len() && touches(#[trigger] ranges[r], piece_len, p) {
        let r = choose|r: int| 0 <= r < ranges.len() && touches(#[trigger] ranges[r], piece_len, p);
        let e = (r, p - ranges[r].start as int / piece_len);
        assert(from.contains(e));
        let k = from.index_of(e);
        assert(wanted[k] == p);
    }
}

/// The pieces of a range are listed in the order in which the range is read.
pub proof fn reader_reads_on(ranges: Seq<Range<u64>>, piece_len: int, r: int, p: int, q: int)
    requires
        piece_len > 0,
        0 <= r < ranges.len(),
        touches(ranges[r], piece_len, p),
        touches(ranges[r], piece_len, q),
        p < q,
    ensures
        exists|k: int, l: int|
            0 <= k < l < wanted_pieces(ranges, piece_len).len() && #[trigger] wanted_pieces(
                ranges,
                piece_len,
            )[k] == p && #[trigger] wanted_pieces(ranges, piece_len)[l] == q,
{
    wanted_pieces_interleave(ranges, piece_len);
    let wanted = wanted_pieces(ranges, piece_len);
    let from = choose|from: Seq<(int, int)>| #[trigger]
        tells_ranges(ranges, piece_len, wanted, from) && forall|k: int, l: int|
            0 <= k < l < from.len() ==> (#[trigger] from[k]).1 < (#[trigger] from[l]).1 || (
            from[k].1 == from[l].1 && is_more_urgent(ranges, piece_len, from[k].0, from[l].0));
    let d = (r, p - ranges[r].start as int / piece_len);
    let e = (r, q - ranges[r].start as int / piece_len);
    assert(from.contains(d) && from.contains(e));
    let k = from.index_of(d);
    let l = from.index_of(e);
    if l < k {
        assert(from[l].1 <= from[k].1);
    }
    assert(wanted[k] == p && wanted[l] == q);
}

/// The pieces of a single reader are listed from the one that its range starts in on,
/// one after another.
pub proof fn single_reader_reads_on(range: Range<u64>, piece_len: int, k: int)
    requires
        piece_len > 0,
        0 <= k,
        touches(range, piece_len, range.start as int / piece_len + k),
    ensures
        k < wanted_pieces(seq![range], piece_len).len(),
        wanted_pieces(seq![range], piece_len)[k] == range.start as int / piece_len + k,
{
    let ranges = seq![range];
    let wanted = wanted_pieces(ranges, piece_len);
    let first = range.start as int / piece_len;
    wanted_pieces_interleave(ranges, piece_len);
    let from = choose|from: Seq<(int, int)>| #[trigger]
        tells_ranges(ranges, piece_len, wanted, from) && forall|k: int, l: int|
            0 <= k < l < from.len() ==> (#[trigger] from[k]).1 < (#[trigger] from[l]).1 || (
            from[k].1 == from[l].1 && is_more_urgent(ranges, piece_len, from[k].0, from[l].0));
    single_positions(ranges, piece_len, wanted, from, k);
}

proof fn single_positions(
    ranges: Seq<Range<u64>>,
    piece_len: int,
    wanted: Seq<int>,
    from: Seq<(int, int)>,
    k: int,
)
    requires
        piece_len > 0,
        ranges.len() == 1,
        tells_ranges(ranges, piece_len, wanted, from),
        forall|k: int, l: int|
            0 <= k < l < from.len() ==> (#[trigger] from[k]).1 < (#[trigger] from[l]).1 || (
            from[k].1 == from[l].1 && is_more_urgent(ranges, piece_len, from[k].0, from[l].0)),
        0 <= k,
        touches(ranges[0], piece_len, ranges[0].start as int / piece_len + k),
    ensures
        k < from.len(),
        from[k] == (0int, k),
        wanted[k] == ranges[0].start as int / piece_len + k,
    decreases k,
{
    let range = ranges[0];
    let first = range.start as int / piece_len;
    assert(from.contains((0int, (first + k) - first)));
    let j = from.index_of((0int, k));
    if k > 0 {
        range_touches_its_pieces(range, piece_len, first + k);
        range_touches_its_pieces(range, piece_len, first + (k - 1));
        single_positions(ranges, piece_len, wanted, from, k - 1);
        // The piece stands after the one before it, and nothing stands between them.
        if j < k {
            if j < k - 1 {
                assert(from[j].1 < from[k - 1].1 || from[j].1 == from[k - 1].1);
            }
        } else if j > k {
            assert(0 <= from[k].0 < ranges.len());
            assert(from[k - 1].0 == 0 && from[k].0 == 0 && from[j].0 == 0);
            assert(from[k - 1].1 < from[k].1);
            assert(from[k].1 < from[j].1);
        }
    } else if j > 0 {
        assert(0 <= from[0].0 < ranges.len());
        assert(from[0].0 == 0 && from[j].0 == 0);
        assert(from[0].1 < from[j].1);
    }
}

/// Piece indices fit if the end of the range does not lie after so many pieces
/// as there are indices.
pub proof fn range_in_torrent_fits(range: Range<u64>, piece_len: int, n: int)
    requires
        piece_len > 0,
        n <= u32::MAX,
        range.start <= range.end <= n * piece_len,
    ensures
        piece_range_fits(range, piece_len),
        forall|p: int| #[trigger] touches(range, piece_len, p) ==> p < n,
{
    let d = piece_len;
    let x = range.start as int;
    let y = range.end as int;
    range_touches_its_pieces(range, d, 0);
    let a = x / d;
    let b = pieces_up_to(y, d);
    assert(a <= n) by (nonlinear_arith)
        requires
            a * d <= x,
            x <= n * d,
            d > 0,
    ;
    assert(b <= n) by {
        if b > n {
            range_touches_its_pieces(range, d, b - 1);
            assert((b - 1) * d >= n * d) by (nonlinear_arith)
                requires
                    b - 1 >= n,
                    d > 0,
            ;
            if a <= b - 1 {
                assert(touches(range, d, b - 1));
            } else {
                assert(a == n && b > n);
            }
        }
    }
    assert forall|p: int| #[trigger] touches(range, piece_len, p) implies p < n by {
        assert(p < n) by (nonlinear_arith)
            requires
                p * d < y,
                y <= n * d,
                d > 0,
        ;
    }
}

/// A read gives as much as possible: up to the end of the range or of the piece,
/// but not more than 131072 bytes.
pub proof fn read_is_longest(range: Range<u64>, piece_len: u32)
    requires
        range.start <= range.end,
        range.start < piece_len * (u32::MAX + 1),
    ensures
        ({
            let p = slice_prefix(range, piece_len as int);
            &&& p.index * piece_len + p.begin == range.start
            &&& p.begin < piece_len
            &&& p.len <= range.end - range.start
            &&& p.len <= piece_len - p.begin
            &&& p.len <= 131072
            &&& p.len == range.end - range.start || p.len == piece_len - p.begin || p.len == 131072
        }),
{
    crate::disk::laws::read_is_prefix(range, piece_len);
    let d = piece_len as int;
    assert(d > 0) by (nonlinear_arith)
        requires
            range.start < d * (u32::MAX + 1),
    ;
}

} // verus!
