//! What holds of finding files and of making and reading slices.
use crate::disk::layout::disk_files;
use crate::disk::layout_laws::{content_size, summary_is_faithful, torrent_is_measured, total_length};
use crate::disk::range::slice_prefix;
use crate::disk::run::{is_accepted, DiskMsg};
use crate::disk::slice::{
    is_reqs, lists_torrent, req_of, reqs_removed, torrent_payloads, waits_for, Attr, ReadSliceReq,
    SliceAttr, SliceDbError, SliceId,
};
use crate::disk::wanted_laws::read_is_longest;
use crate::disk::write_plan::first_with_path;
use crate::disk::{
    file_len, is_file_by_path, is_new_slice, next_read, slice_read, slice_reading, slices_inside,
    DiskData, FileByPathR, FileId, ReadSlice, SliceError,
};
use crate::metainfo::{file_start_monotonic, file_start_succ, FileData, InfoData};
use crate::tcp_wire::BlockInfo;
use std::ops::Range;
use vstd::prelude::*;

verus! {

/// Whether the torrent has the file `i` with `length` bytes,
/// and there are `start` bytes in the files before.
pub open spec fn is_file(info: InfoData, i: int, start: nat, length: u32) -> bool {
    match info.files {
        Some(files) => 0 <= i < files.len() && files[i].length == length && total_length(
            files.take(i),
        ) == start,
        None => i == 0 && info.file_length == Some(length) && start == 0,
    }
}

/// There can be a slice of every range that lies in a file of a torrent, unless IDs are used up.
/// It stands for this range after the bytes of the files before.
pub proof fn range_in_file_makes_slice(
    d: DiskData,
    file_id: FileId,
    start: nat,
    length: u32,
    range: Range<u64>,
    res: Result<SliceId, SliceError>,
    after: DiskData,
)
    requires
        d.torrents.contains_key(file_id.info_hash@),
        is_file(d.torrents[file_id.info_hash@].info, file_id.i as int, start, length),
        content_size(d.torrents[file_id.info_hash@].info) <= u64::MAX,
        range.start <= range.end <= length,
        d.next_slice_id < usize::MAX,
        is_new_slice(d, file_id, range, res, after),
    ensures
        res matches Ok(id) && {
            &&& id == d.next_slice_id
            &&& after.next_slice_id == id + 1
            &&& after.slices.contains_key(id)
            &&& after.slices[id].info_hash == file_id.info_hash
            &&& after.slices[id].payload.start == start + range.start
            &&& after.slices[id].payload.end == start + range.end
            &&& after.slices[id].read_req is None
            &&& after.slices == d.slices.insert(id, after.slices[id])
            &&& after.torrents == d.torrents
            &&& after.peers == d.peers
            &&& after.download_dir == d.download_dir
        },
{
    let info = d.torrents[file_id.info_hash@].info;
    let i = file_id.i as int;
    summary_is_faithful(info);
    torrent_is_measured(info);
    assert(disk_files(info)[i].length == start);
    if let Some(files) = info.files {
        file_start_succ(files, i);
        file_start_monotonic(files, i + 1, i + 1);
    }
}

/// There is no slice of a range that ends or starts after the end of the file.
pub proof fn range_outside_file_is_refused(
    d: DiskData,
    file_id: FileId,
    start: nat,
    length: u32,
    range: Range<u64>,
    res: Result<SliceId, SliceError>,
    after: DiskData,
)
    requires
        d.torrents.contains_key(file_id.info_hash@),
        is_file(d.torrents[file_id.info_hash@].info, file_id.i as int, start, length),
        range.end > length || range.start > length,
        is_new_slice(d, file_id, range, res, after),
    ensures
        res == Err::<SliceId, _>(SliceError::FileRangeOutOfBounds),
        after == d,
{
    let info = d.torrents[file_id.info_hash@].info;
    summary_is_faithful(info);
    assert(file_len(info, file_id.i as int) == length) by {
        if let Some(files) = info.files {
            assert(disk_files(info)[file_id.i as int].path == files[file_id.i as int].path);
        }
    }
}

/// There is no slice of a file that is not there.
pub proof fn missing_file_makes_no_slice(
    d: DiskData,
    file_id: FileId,
    range: Range<u64>,
    res: Result<SliceId, SliceError>,
    after: DiskData,
)
    requires
        is_new_slice(d, file_id, range, res, after),
    ensures
        !d.torrents.contains_key(file_id.info_hash@) ==> res == Err::<SliceId, _>(
            SliceError::NoTorrent,
        ) && after == d,
        d.torrents.contains_key(file_id.info_hash@) && file_id.i >= (match d.torrents[
            file_id.info_hash@
        ].info.files {
            Some(files) => files.len(),
            None => 1,
        }) ==> res == Err::<SliceId, _>(SliceError::NoFileIndex) && after == d,
        d.next_slice_id == usize::MAX ==> res is Err && after == d,
        res is Err ==> after == d,
{
}

/// A file of a torrent is found by its path: the first file that has it.
pub proof fn file_is_found(
    d: DiskData,
    info_hash: Seq<u8>,
    files: Seq<FileData>,
    i: int,
    res: Result<FileByPathR, SliceError>,
)
    requires
        d.torrents.contains_key(info_hash),
        d.torrents[info_hash].info.files == Some(files),
        0 <= i < files.len(),
        forall|j: int| 0 <= j < i ==> (#[trigger] files[j]).path != files[i].path,
        is_file_by_path(d, info_hash, files[i].path, res),
    ensures
        res matches Ok(file) && file.i == i && file.len == files[i].length,
{
    let info = d.torrents[info_hash].info;
    let path = files[i].path;
    summary_is_faithful(info);
    assert forall|j: int| 0 <= j < i implies (#[trigger] disk_files(info)[j]).path != path by {
        assert(files[j].path != files[i].path);
    }
    assert(first_with_path(disk_files(info), path, i));
    if let Ok(file) = res {
        let k = file.i as int;
        if k < i {
            assert(disk_files(info)[k].path != path);
        } else if i < k {
            assert(disk_files(info)[i].path != path);
        }
    }
}

/// The only file of a single-file torrent is found by the name of the torrent.
pub proof fn only_file_is_found(
    d: DiskData,
    info_hash: Seq<u8>,
    length: u32,
    res: Result<FileByPathR, SliceError>,
)
    requires
        d.torrents.contains_key(info_hash),
        d.torrents[info_hash].info.files is None,
        d.torrents[info_hash].info.file_length == Some(length),
        is_file_by_path(d, info_hash, seq![d.torrents[info_hash].info.name], res),
    ensures
        res matches Ok(file) && file.i == 0 && file.len == length,
{
    let info = d.torrents[info_hash].info;
    assert(first_with_path(disk_files(info), seq![info.name], 0));
}

/// What is not there is not found.
pub proof fn missing_file_is_not_found(
    d: DiskData,
    info_hash: Seq<u8>,
    path: Seq<Seq<char>>,
    res: Result<FileByPathR, SliceError>,
)
    requires
        is_file_by_path(d, info_hash, path, res),
    ensures
        !d.torrents.contains_key(info_hash) ==> res == Err::<FileByPathR, _>(SliceError::NoTorrent),
        d.torrents.contains_key(info_hash) && (match d.torrents[info_hash].info.files {
            Some(files) => forall|i: int|
                0 <= i < files.len() ==> (#[trigger] files[i]).path != path,
            None => path != seq![d.torrents[info_hash].info.name],
        }) ==> res == Err::<FileByPathR, _>(SliceError::NoFilePath),
{
    let info = d.torrents[info_hash].info;
    if let Ok(file) = res {
        if let Some(files) = info.files {
            assert(disk_files(info)[file.i as int].path == files[file.i as int].path);
        }
    }
}

/// What a read of the slice `attr` of a torrent with pieces of `piece_len` bytes gives:
/// the region that starts where the slice starts and goes on up to the end of the slice
/// or of the piece, but not for more than 131072 bytes.
pub open spec fn is_next_region(attr: Attr, piece_len: int, region: BlockInfo) -> bool {
    let here = attr.payload.start as int;
    let to_end = attr.payload.end - here;
    let to_piece_end = piece_len - region.begin;
    &&& region.index * piece_len + region.begin == here
    &&& region.begin < piece_len
    &&& region.len <= to_end && region.len <= to_piece_end && region.len <= 131072
    &&& region.len == to_end || region.len == to_piece_end || region.len == 131072
}

/// What comes of reading a slice that is not empty depends on the piece that it starts in:
/// if it is downloaded, its next region is given and nothing changes;
/// if not, the request waits for the piece, unless one is waiting already.
pub proof fn slice_is_read(d: DiskData, slice_id: SliceId, recipient: u64)
    requires
        d.slices.contains_key(slice_id),
        d.slices[slice_id].payload.start < d.slices[slice_id].payload.end,
        d.slices[slice_id].payload.start < d.torrents[
            d.slices[slice_id].info_hash@
        ].info.piece_length * (u32::MAX + 1),
    ensures
        ({
            let attr = d.slices[slice_id];
            let t = d.torrents[attr.info_hash@];
            let reading = slice_reading(d, slice_id);
            let after = slice_read(d, slice_id, recipient);
            exists|region: BlockInfo| #[trigger]
                is_next_region(attr, t.info.piece_length as int, region) && if t.bitfield[
                    region.index as int
                ] {
                    reading == ReadSlice::Read(region) && after == d
                } else if attr.read_req is Some {
                    reading == ReadSlice::Fail(SliceError::Db(SliceDbError::MultipleRead)) && after
                        == d
                } else {
                    reading == ReadSlice::Wait && after == DiskData {
                        slices: d.slices.insert(
                            slice_id,
                            SliceAttr {
                                info_hash: attr.info_hash,
                                payload: attr.payload,
                                read_req: Some(
                                    (region.index, ReadSliceReq { block_info: region, recipient }),
                                ),
                            },
                        ),
                        ..d
                    }
                }
        }),
{
    let attr = d.slices[slice_id];
    let t = d.torrents[attr.info_hash@];
    let region = slice_prefix(attr.payload, t.info.piece_length as int);
    read_is_longest(attr.payload, t.info.piece_length);
    assert(is_next_region(attr, t.info.piece_length as int, region));
}

/// Reading an empty slice gives nothing, and there is no reading of a slice that is not there.
/// Nothing changes.
pub proof fn empty_slice_is_read(d: DiskData, slice_id: SliceId, recipient: u64)
    ensures
        !d.slices.contains_key(slice_id) ==> slice_reading(d, slice_id) == ReadSlice::Fail(
            SliceError::Db(SliceDbError::NoSlice),
        ) && slice_read(d, slice_id, recipient) == d,
        d.slices.contains_key(slice_id) && d.slices[slice_id].payload.start
            >= d.slices[slice_id].payload.end ==> slice_reading(d, slice_id) == ReadSlice::Empty
            && slice_read(d, slice_id, recipient) == d && next_read(d, slice_id) is None,
{
}

/// A slice can be read if it is a part of its torrent whose pieces cover it,
/// and it is known of every piece of the torrent whether it is downloaded.
pub proof fn slice_can_be_read(d: DiskData, slice_id: SliceId, recipient: u64)
    requires
        slices_inside(d),
        d.slices.contains_key(slice_id) ==> {
            let t = d.torrents[d.slices[slice_id].info_hash@];
            let n = t.info.pieces.len() / 20;
            n <= u32::MAX && n <= t.bitfield.len() && content_size(t.info) <= n
                * t.info.piece_length
        },
    ensures
        is_accepted(d, DiskMsg::ReadSlice { slice_id, recipient }),
{
    if d.slices.contains_key(slice_id) {
        let attr = d.slices[slice_id];
        let t = d.torrents[attr.info_hash@];
        let n = (t.info.pieces.len() / 20) as int;
        let x = attr.payload.start as int;
        let pl = t.info.piece_length as int;
        assert(crate::disk::is_inside(d, attr));
        torrent_is_measured(t.info);
        if x < attr.payload.end {
            assert(x < n * pl);
            assert(pl > 0) by (nonlinear_arith)
                requires
                    0 <= x < n * pl,
                    0 <= n,
                    0 <= pl,
            ;
            assert(n * pl <= pl * (u32::MAX + 1)) by (nonlinear_arith)
                requires
                    n <= u32::MAX,
                    pl > 0,
            ;
            vstd::arithmetic::div_mod::lemma_fundamental_div_mod(x, pl);
            assert(x / pl < n) by (nonlinear_arith)
                requires
                    pl * (x / pl) <= x,
                    x < n * pl,
                    pl > 0,
            ;
        }
    }
}

/// Taking the requests that wait for a piece takes those of the slices of the torrent
/// that wait for this piece, every request once, and no others.
pub proof fn waiting_requests_are_taken(
    attrs: Map<SliceId, Attr>,
    info_hash: Seq<u8>,
    piece_i: u32,
    reqs: Seq<(SliceId, u32, ReadSliceReq)>,
    id: SliceId,
)
    requires
        is_reqs(attrs, info_hash, piece_i, reqs),
        attrs.contains_key(id),
    ensures
        reqs_removed(attrs, info_hash, piece_i).dom() == attrs.dom(),
        reqs_removed(attrs, info_hash, piece_i)[id].info_hash == attrs[id].info_hash,
        reqs_removed(attrs, info_hash, piece_i)[id].payload == attrs[id].payload,
        match attrs[id].read_req {
            Some((p, req)) => if attrs[id].info_hash@ == info_hash && p == piece_i {
                &&& reqs_removed(attrs, info_hash, piece_i)[id].read_req is None
                &&& exists|j: int| 0 <= j < reqs.len() && #[trigger] reqs[j] == (id, p, req)
            } else {
                &&& reqs_removed(attrs, info_hash, piece_i)[id].read_req == attrs[id].read_req
                &&& forall|j: int| 0 <= j < reqs.len() ==> (#[trigger] reqs[j]).0 != id
            },
            None => {
                &&& reqs_removed(attrs, info_hash, piece_i)[id].read_req is None
                &&& forall|j: int| 0 <= j < reqs.len() ==> (#[trigger] reqs[j]).0 != id
            },
        },
        forall|j: int, k: int|
            0 <= j < k < reqs.len() ==> (#[trigger] reqs[j]).0 != (#[trigger] reqs[k]).0,
        forall|j: int| 0 <= j < reqs.len() ==> attrs.contains_key((#[trigger] reqs[j]).0),
{
    assert(reqs_removed(attrs, info_hash, piece_i).dom() =~= attrs.dom());
    assert forall|j: int| 0 <= j < reqs.len() && (#[trigger] reqs[j]).0 == id implies waits_for(
        attrs[id],
        info_hash,
        piece_i,
    ) && attrs[id].read_req == Some((reqs[j].1, reqs[j].2)) by {
        assert(req_of(attrs, info_hash, piece_i, reqs[j]));
    }
    assert forall|j: int| 0 <= j < reqs.len() implies attrs.contains_key(
        (#[trigger] reqs[j]).0,
    ) by {
        assert(req_of(attrs, info_hash, piece_i, reqs[j]));
    }
}

/// Whether a slice of the torrent `info_hash` has the payload `payload`.
pub open spec fn is_payload(
    attrs: Map<SliceId, Attr>,
    info_hash: Seq<u8>,
    payload: Range<u64>,
) -> bool {
    exists|id: SliceId| #[trigger]
        attrs.contains_key(id) && attrs[id].info_hash@ == info_hash && attrs[id].payload == payload
}

/// The payloads of the slices of a torrent are those of all its slices and of no others,
/// as many as the torrent has slices.
pub proof fn payloads_are_of_the_torrent(
    attrs: Map<SliceId, Attr>,
    info_hash: Seq<u8>,
    payloads: Seq<Range<u64>>,
)
    requires
        torrent_payloads(attrs, info_hash, payloads),
    ensures
        forall|id: SliceId| #[trigger]
            attrs.contains_key(id) && attrs[id].info_hash@ == info_hash ==> payloads.contains(
                attrs[id].payload,
            ),
        forall|k: int|
            0 <= k < payloads.len() ==> is_payload(attrs, info_hash, #[trigger] payloads[k]),
        attrs.dom().filter(|id: SliceId| attrs[id].info_hash@ == info_hash).len() == payloads.len(),
{
    let ids = choose|ids: Seq<SliceId>| #[trigger]
        lists_torrent(attrs, info_hash, ids) && payloads == ids.map_values(
            |id: SliceId| attrs[id].payload,
        );
    assert forall|id: SliceId| #[trigger]
        attrs.contains_key(id) && attrs[id].info_hash@ == info_hash implies payloads.contains(
        attrs[id].payload,
    ) by {
        assert(ids.contains(id));
        let k = ids.index_of(id);
        assert(payloads[k] == attrs[id].payload);
    }
    assert forall|k: int| 0 <= k < payloads.len() implies is_payload(
        attrs,
        info_hash,
        #[trigger] payloads[k],
    ) by {
        assert(ids.contains(ids[k]));
        assert(attrs.contains_key(ids[k]));
    }
    let all = attrs.dom().filter(|id: SliceId| attrs[id].info_hash@ == info_hash);
    ids.unique_seq_to_set();
    assert(all =~= ids.to_set()) by {
        assert forall|id: SliceId| all.contains(id) <==> ids.to_set().contains(id) by {
            assert(ids.contains(id) <==> attrs.contains_key(id) && attrs[id].info_hash@
                == info_hash);
        }
    }
}

/// A slice of a reversed range that starts in a file or at its end is empty,
/// and stands where the range starts.
pub proof fn reversed_range_makes_empty_slice(
    d: DiskData,
    file_id: FileId,
    start: nat,
    length: u32,
    range: Range<u64>,
    res: Result<SliceId, SliceError>,
    after: DiskData,
)
    requires
        d.torrents.contains_key(file_id.info_hash@),
        is_file(d.torrents[file_id.info_hash@].info, file_id.i as int, start, length),
        content_size(d.torrents[file_id.info_hash@].info) <= u64::MAX,
        range.end < range.start <= length,
        d.next_slice_id < usize::MAX,
        is_new_slice(d, file_id, range, res, after),
    ensures
        res matches Ok(id) && after.slices.contains_key(id) && after.slices[id].payload.start
            == start + range.start && after.slices[id].payload.end == start + range.start,
{
    let even = Range { start: range.start, end: range.start };
    range_in_file_makes_slice(d, file_id, start, length, even, res, after);
}

} // verus!
