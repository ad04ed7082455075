//! What holds of the files and the pieces of a torrent.
use crate::disk::layout::{
    block_place, disk_files, file_at_exists, file_at_unique, has_files, holds_offset, info_fits,
    piece_size, place_of, torrent_info, torrent_offset, PlaceData, TorrentInfoData,
};
use crate::disk::{file_len, piece_place, DiskData};
use crate::metainfo::{file_start, file_start_succ, size_of_files, FileData, InfoData};
use crate::tcp_wire::BlockInfo;
use vstd::prelude::*;

verus! {

/// The number of bytes in `files`.
pub open spec fn total_length(files: Seq<FileData>) -> nat {
    files.fold_left(0nat, |sum: nat, file: FileData| sum + file.length as nat)
}

/// The number of bytes in the torrent.
pub open spec fn content_size(info: InfoData) -> nat {
    match (info.files, info.file_length) {
        (Some(files), _) => total_length(files),
        (None, Some(length)) => length as nat,
        (None, None) => 0,
    }
}

/// The file after `files` starts where they end.
pub proof fn total_length_push(files: Seq<FileData>, file: FileData)
    ensures
        total_length(Seq::empty()) == 0,
        total_length(files.push(file)) == total_length(files) + file.length,
{
    assert(files.push(file).drop_last() =~= files);
}

/// The size of files is the number of bytes in them.
pub proof fn size_is_total_length(files: Seq<FileData>)
    ensures
        size_of_files(files) == total_length(files),
    decreases files.len(),
{
    if files.len() > 0 {
        size_is_total_length(files.drop_last());
    }
}

/// The size of a torrent is the number of bytes in its files,
/// and it has one piece for every twenty bytes of hashes.
pub proof fn torrent_is_measured(info: InfoData)
    ensures
        info.size() == content_size(info),
        20 * info.piece_count() <= info.pieces.len() < 20 * info.piece_count() + 20,
        has_files(info) <==> info.files is Some || info.file_length is Some,
        info_fits(info) <==> content_size(info) <= u64::MAX && info.pieces.len() < 20 * (u32::MAX
            + 1),
{
    if let Some(files) = info.files {
        size_is_total_length(files);
    }
}

/// The hash of a piece follows the hashes of the pieces before.
pub proof fn hashes_follow(info: InfoData, index: int, k: int)
    requires
        0 <= index,
        20 * index + 20 <= info.pieces.len(),
        0 <= k < 20,
    ensures
        index < info.piece_count(),
        info.piece_hash(index).len() == 20,
        info.piece_hash(index)[k] == info.pieces[20 * index + k],
{
}

/// The summary of a torrent tells its name and its sizes.
/// Every file is listed with its path and with the number of bytes in the files before.
pub proof fn summary_is_faithful(info: InfoData)
    ensures
        torrent_info(info).name == info.name,
        torrent_info(info).piece_length == info.piece_length,
        torrent_info(info).total_size == content_size(info),
        20 * torrent_info(info).pieces <= info.pieces.len() < 20 * torrent_info(info).pieces + 20,
        torrent_info(info).files == disk_files(info),
        match info.files {
            Some(files) => {
                &&& disk_files(info).len() == files.len()
                &&& forall|i: int|
                    0 <= i < files.len() ==> {
                        &&& (#[trigger] disk_files(info)[i]).path == files[i].path
                        &&& disk_files(info)[i].length == total_length(files.take(i))
                        &&& file_len(info, i) == files[i].length
                    }
            },
            None => {
                &&& disk_files(info).len() == 1
                &&& disk_files(info)[0].path == seq![info.name]
                &&& disk_files(info)[0].length == 0
                &&& info.file_length matches Some(length) ==> file_len(info, 0) == length
            },
        },
{
    torrent_is_measured(info);
    if let Some(files) = info.files {
        assert forall|i: int| 0 <= i < files.len() implies (#[trigger] disk_files(info)[i]).length
            == total_length(files.take(i)) by {
            size_is_total_length(files.take(i));
        }
    }
}

/// The byte `o` of the file `i` is the byte of the torrent
/// with as many bytes before it as the files before have, and `o` more.
/// A block that starts with this byte starts there.
pub proof fn block_starts_in_file(
    info: InfoData,
    files: Seq<FileData>,
    i: int,
    o: int,
    block: BlockInfo,
)
    requires
        info.files == Some(files),
        0 <= i < files.len(),
        0 <= o < files[i].length,
        block.index * info.piece_length + block.begin == total_length(files.take(i)) + o,
    ensures
        block_place(info, block) == Some(PlaceData { file: files[i], offset: o }),
{
    size_is_total_length(files.take(i));
    file_start_succ(files, i);
    assert(holds_offset(files, i, file_start(files, i) + o));
    file_at_unique(files, i, file_start(files, i) + o);
}

/// A block that starts after the last file has no place.
pub proof fn block_starts_outside(info: InfoData, files: Seq<FileData>, block: BlockInfo)
    requires
        info.files == Some(files),
    ensures
        block_place(info, block) is None <==> block.index * info.piece_length + block.begin
            >= total_length(files),
{
    size_is_total_length(files);
}

/// Every byte of a torrent is in one of its files.
pub proof fn every_byte_has_a_file(info: InfoData, files: Seq<FileData>, offset: int)
    requires
        info.files == Some(files),
        0 <= offset < total_length(files),
    ensures
        place_of(info, offset) matches Some(place) && exists|i: int|
            0 <= i < files.len() && place.file == #[trigger] files[i] && place.offset == offset
                - total_length(files.take(i)) && 0 <= place.offset < files[i].length,
{
    size_is_total_length(files);
    file_at_exists(files, offset);
    let i = crate::disk::layout::file_at(files, offset);
    size_is_total_length(files.take(i));
    file_start_succ(files, i);
    assert(place_of(info, offset)->0.file == files[i]);
}

/// All blocks of a single-file torrent are in its only file, which has the name of the torrent,
/// as far from its beginning as from the beginning of the torrent.
pub proof fn block_starts_in_only_file(info: InfoData, length: u32, block: BlockInfo)
    requires
        info.files is None,
        info.file_length == Some(length),
    ensures
        block_place(info, block) matches Some(place) && place.file.length == length
            && place.file.path == seq![info.name] && place.offset == block.index * info.piece_length
            + block.begin,
{
}

/// A piece starts where a block at its beginning starts.
pub proof fn piece_starts_with_its_first_block(d: DiskData, info_hash: Seq<u8>, piece: u32, len: u32)
    ensures
        piece_place(d, info_hash, piece) == block_place(
            d.torrents[info_hash].info,
            BlockInfo { index: piece, begin: 0, len },
        ),
{
}

/// The bytes of a piece follow those of the pieces before.
pub proof fn pieces_follow(info: InfoData, index: int, begin: int)
    ensures
        torrent_offset(info, 0, begin) == begin,
        torrent_offset(info, index + 1, begin) == torrent_offset(info, index, begin)
            + info.piece_length,
        torrent_offset(info, index, begin + 1) == torrent_offset(info, index, begin) + 1,
{
    let d = info.piece_length as int;
    assert((index + 1) * d == index * d + d) by (nonlinear_arith);
}

/// Every piece but the last has the same size.
/// The last has what whole pieces leave of the torrent, and is neither empty nor longer.
pub proof fn last_piece_has_the_rest(info: TorrentInfoData, index: int)
    requires
        info.piece_length > 0,
    ensures
        index != info.pieces - 1 ==> piece_size(info, index) == info.piece_length,
        index == info.pieces - 1 ==> {
            &&& 0 < piece_size(info, index) <= info.piece_length
            &&& (info.total_size - piece_size(info, index)) % info.piece_length as int == 0
        },
{
    let x = info.total_size as int;
    let d = info.piece_length as int;
    if index == info.pieces - 1 {
        vstd::arithmetic::div_mod::lemma_fundamental_div_mod(x, d);
        let q = x / d;
        if x % d != 0 {
            vstd::arithmetic::div_mod::lemma_fundamental_div_mod_converse(x - x % d, d, q, 0);
        } else {
            assert(d * (q - 1) == d * q - d) by (nonlinear_arith);
            vstd::arithmetic::div_mod::lemma_fundamental_div_mod_converse(x - d, d, q - 1, 0);
        }
    }
}

/// If the pieces cover the torrent, a piece has as many bytes as are left of the torrent
/// where it starts, but not more than the length of a piece.
pub proof fn piece_has_its_bytes(info: InfoData, index: int)
    requires
        0 <= index,
        20 * index + 20 <= info.pieces.len(),
        (info.pieces.len() / 20 - 1) * info.piece_length < content_size(info) <= (
        info.pieces.len() / 20) * info.piece_length,
    ensures
        piece_size(torrent_info(info), index) == if content_size(info) - index * info.piece_length
            < info.piece_length {
            content_size(info) - index * info.piece_length
        } else {
            info.piece_length as int
        },
{
    torrent_is_measured(info);
    let n = info.pieces.len() / 20;
    let d = info.piece_length as int;
    assert(d > 0) by (nonlinear_arith)
        requires
            (n - 1) * d < n * d,
    ;
    crate::disk::laws::piece_sizes_add_up(torrent_info(info));
    assert(index < n);
    if index < n - 1 {
        assert((index + 1) * d <= (n - 1) * d) by (nonlinear_arith)
            requires
                index + 1 <= n - 1,
                d > 0,
        ;
        assert((index + 1) * d == index * d + d) by (nonlinear_arith);
    } else {
        assert(n * d == (n - 1) * d + d) by (nonlinear_arith);
    }
}

} // verus!
