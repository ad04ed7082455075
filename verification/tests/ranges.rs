use std::num::Wrapping;
use std::ops::{Bound, Range, RangeInclusive};
use vincenzo::disk::range::{calc_slice_prefix, range_len, range_remove_prefix, SLICE_PREFIX_SIZE_LIMIT};
use vincenzo::disk::slice::{gen_id, SliceDb, INFO_HASH_BYTE_N_USIZE};
use vincenzo::http_server::range_conv::{
    self, excluded_end_bound, excluded_start_bound, included_end_bound, included_start_bound, TryFromRange,
    TryFromRangeError,
};
use vincenzo::tcp_wire::BlockInfo;

#[test]
fn slices_to_pieces() {
    let info_hash = [55; INFO_HASH_BYTE_N_USIZE];
    let mut slice_db: SliceDb = Default::default();
    slice_db.insert(info_hash, 25..80).unwrap();
    slice_db.insert(info_hash, 48..60).unwrap();
    slice_db.insert(info_hash, 64..139).unwrap();
    let pieces = vincenzo::disk::range::slices_to_pieces(&slice_db.payloads(&info_hash), 10);
    assert!(
        pieces.into_iter()
            .eq(vec![4, 2, 6, 5, 3, 7, 4, 8, 5, 9, 6, 10, 7, 11, 12, 13])
    );
}

#[test]
fn interleaving_of_the_documentation() {
    // Both ranges start at the beginning of a piece, so they keep their order.
    let pieces = vincenzo::disk::range::slices_to_pieces(&vec![100..150, 80..110], 10);
    assert_eq!(pieces, vec![10, 8, 11, 9, 12, 10, 13, 14]);
}

#[test]
fn no_slices_no_pieces() {
    assert_eq!(vincenzo::disk::range::slices_to_pieces(&vec![], 0), Vec::<u32>::new());
    assert_eq!(vincenzo::disk::range::slices_to_pieces(&vec![7..7], 10), vec![0]);
    assert_eq!(vincenzo::disk::range::slices_to_pieces(&vec![10..10], 10), Vec::<u32>::new());
}

#[test]
fn every_overlapped_piece_is_wanted() {
    let pieces = vincenzo::disk::range::slices_to_pieces(&vec![5..31, 18..20], 10);
    for p in 0..6 {
        assert_eq!(pieces.contains(&p), p < 4);
    }
}

#[test]
fn range_length() {
    assert_eq!(range_len(3..10), 7);
    assert_eq!(range_len(10..3), 0);
    assert_eq!(range_len(5..5), 0);
}

#[test]
fn removing_a_prefix() {
    assert_eq!(range_remove_prefix(10..20, 4), Some(14..20));
    assert_eq!(range_remove_prefix(10..20, 10), Some(20..20));
    assert_eq!(range_remove_prefix(10..20, 11), None);
    assert_eq!(range_remove_prefix(10..20, u64::MAX), None);
}

#[test]
fn slice_prefixes() {
    // Up to the end of the range.
    assert_eq!(calc_slice_prefix(25..28, 10), BlockInfo { index: 2, begin: 5, len: 3 });
    // Up to the end of the piece.
    assert_eq!(calc_slice_prefix(25..99, 10), BlockInfo { index: 2, begin: 5, len: 5 });
    // Up to the limit.
    assert_eq!(
        calc_slice_prefix(5..1000000, 500000),
        BlockInfo { index: 0, begin: 5, len: SLICE_PREFIX_SIZE_LIMIT },
    );
    // An empty range at the end of a torrent.
    assert_eq!(calc_slice_prefix(30..30, 10), BlockInfo { index: 3, begin: 0, len: 0 });
}

#[test]
fn ids_do_not_repeat() {
    let mut cur_id = 0;
    assert_eq!(gen_id(&mut cur_id), Some(0));
    assert_eq!(gen_id(&mut cur_id), Some(1));
    cur_id = usize::MAX - 1;
    assert_eq!(gen_id(&mut cur_id), Some(usize::MAX - 1));
    assert_eq!(gen_id(&mut cur_id), None);
    assert_eq!(cur_id, usize::MAX);
}

#[test]
fn bounds() {
    assert_eq!(included_start_bound(Bound::Included(5u8)), 5);
    assert_eq!(included_start_bound(Bound::Excluded(5u8)), 6);
    assert_eq!(included_start_bound::<i16>(Bound::Unbounded), i16::MIN);
    assert_eq!(excluded_start_bound(Bound::Included(5i32)), 4);
    assert_eq!(excluded_start_bound(Bound::Excluded(5i32)), 5);
    assert_eq!(included_end_bound(Bound::Included(5u64)), 5);
    assert_eq!(included_end_bound(Bound::Excluded(5u64)), 4);
    assert_eq!(included_end_bound::<u64>(Bound::Unbounded), u64::MAX);
    assert_eq!(excluded_end_bound(Bound::Included(5i128)), 6);
    assert_eq!(excluded_end_bound(Bound::Excluded(5i128)), 5);
    assert_eq!(included_start_bound(Bound::Excluded(Wrapping(7u8))), Wrapping(8));
}

#[test]
fn range_conversions() {
    let r: Result<Range<u64>, _> = Range::try_from_range(..9u64);
    assert_eq!(r.unwrap(), 0..9);
    let r: Result<RangeInclusive<u8>, _> = RangeInclusive::try_from_range(3u8..);
    assert_eq!(r.unwrap(), 3..=255);
    let r: Result<RangeInclusive<i8>, _> = RangeInclusive::try_from_range(..);
    assert_eq!(r.unwrap(), -128..=127);
    let r: Result<Range<u8>, _> = Range::try_from_range(..=7u8);
    assert_eq!(r.unwrap(), 0..8);
    let r: Result<Range<u8>, _> = Range::try_from_range(3u8..=7);
    assert_eq!(r.unwrap(), 3..8);
    let r: Result<RangeInclusive<i8>, _> = RangeInclusive::try_from_range(-3i8..8);
    assert_eq!(r.unwrap(), -3..=7);
    let r: Result<RangeInclusive<u16>, _> =
        RangeInclusive::try_from_range((Bound::Excluded(1u16), Bound::Unbounded));
    assert_eq!(r.unwrap(), 2..=u16::MAX);
}

#[test]
fn range_conversion_errors() {
    let r: Result<Range<u8>, _> = Range::try_from_range(3u8..=255);
    assert_eq!(r.unwrap_err(), TryFromRangeError::EndBig);
    let r: Result<Range<u8>, _> = Range::try_from_range((Bound::Included(3u8), Bound::Unbounded));
    assert_eq!(r.unwrap_err(), TryFromRangeError::EndBig);
    let r: Result<Range<u8>, _> = Range::try_from_range((Bound::Excluded(255u8), Bound::Included(3)));
    assert_eq!(r.unwrap_err(), TryFromRangeError::StartBig);
    let r: Result<RangeInclusive<u8>, _> =
        RangeInclusive::try_from_range((Bound::Excluded(255u8), Bound::Included(3)));
    assert_eq!(r.unwrap_err(), TryFromRangeError::StartBig);
    let r: Result<RangeInclusive<u8>, _> = RangeInclusive::try_from_range(0u8..0);
    assert_eq!(r.unwrap_err(), TryFromRangeError::EndSmall);
}

#[test]
fn generic_range_length() {
    assert_eq!(range_conv::range_len(-3i32..4), 7);
    assert_eq!(range_conv::range_len(9u64..4), 0);
    assert_eq!(range_conv::range_len(2usize..2), 0);
}
