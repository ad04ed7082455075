//! What to write to which files when a piece is complete.
use crate::disk::layout::{
    block_place, disk_files, disk_files_data, file_at, file_at_exists, file_at_unique,
    find_block_place, has_files, holds_offset, info_fits, offset_exceeds, place_of, torrent_info,
    torrent_offset, DiskFile, DiskFileData, TorrentInfo,
};
use crate::error::Error;
use crate::metainfo::{file_start_monotonic, Info, InfoData};
use crate::order::keys;
use crate::tcp_wire::{Block, BlockData, BlockInfo};
use crate::paths::{same_path, test_same_path};
use crate::text::texts;
use vstd::prelude::*;

verus! {

/// Bytes to write to a file.
#[derive(Debug, PartialEq, Eq)]
pub struct FileWrite {
    /// The path of the file in the directory of the torrent.
    pub path: Vec<String>,
    /// The offset in the file to write at.
    pub offset: u64,
    /// The bytes to write.
    pub bytes: Vec<u8>,
}

/// What a [`FileWrite`] holds.
pub ghost struct WriteData {
    pub path: Seq<Seq<char>>,
    pub offset: int,
    pub bytes: Seq<u8>,
}

impl View for FileWrite {
    type V = WriteData;

    open spec fn view(&self) -> WriteData {
        WriteData { path: texts(self.path@), offset: self.offset as int, bytes: self.bytes@ }
    }
}

/// What the writes in `writes` hold.
pub open spec fn writes_data(writes: Seq<FileWrite>) -> Seq<WriteData> {
    writes.map_values(|w: FileWrite| w@)
}

/// Whether the `i`-th file is the first with the path `path`.
pub open spec fn first_with_path(files: Seq<DiskFileData>, path: Seq<Seq<char>>, i: int) -> bool {
    &&& 0 <= i < files.len()
    &&& files[i].path == path
    &&& forall|j: int| 0 <= j < i ==> (#[trigger] files[j]).path != path
}

/// Whether the `i`-th file is the first whose path is the same as `path`.
pub open spec fn first_same_path(files: Seq<DiskFileData>, path: Seq<Seq<char>>, i: int) -> bool {
    &&& 0 <= i < files.len()
    &&& same_path(files[i].path, path)
    &&& forall|j: int| 0 <= j < i ==> !same_path((#[trigger] files[j]).path, path)
}

/// The offset in the torrent at which the file with the path `path` starts.
pub open spec fn path_start(files: Seq<DiskFileData>, path: Seq<Seq<char>>) -> int {
    files[choose|i: int| first_same_path(files, path, i)].length as int
}

/// The offset in the file with the path `path` at which the data of a piece starts:
/// the beginning of the piece if it is in this file, else the beginning of the file.
pub open spec fn piece_offset_in_file(info: InfoData, piece: int, path: Seq<Seq<char>>) -> int {
    let start = path_start(disk_files(info), path);
    let piece_start = torrent_offset(info, piece, 0);
    if start <= piece_start {
        piece_start - start
    } else {
        0
    }
}

/// Whether the `i`-th write is to the path `path`.
pub open spec fn writes_to(writes: Seq<WriteData>, path: Seq<Seq<char>>, i: int) -> bool {
    0 <= i < writes.len() && same_path(writes[i].path, path)
}

/// The writes `writes` with `bytes` appended to the write to the path `path`,
/// or with a new write at `offset` if there is none.
pub open spec fn add_write(
    writes: Seq<WriteData>,
    path: Seq<Seq<char>>,
    offset: int,
    bytes: Seq<u8>,
) -> Seq<WriteData> {
    if exists|i: int| writes_to(writes, path, i) {
        let i = choose|i: int| writes_to(writes, path, i);
        writes.update(i, WriteData { bytes: writes[i].bytes + bytes, ..writes[i] })
    } else {
        writes.push(WriteData { path, offset, bytes })
    }
}

/// The writes that store the blocks `blocks` of a piece, one write per file.
/// There are none if a block starts outside the files of the torrent.
pub open spec fn write_plan(info: InfoData, piece: int, blocks: Seq<BlockData>) -> Option<
    Seq<WriteData>,
>
    decreases blocks.len(),
{
    if blocks.len() == 0 {
        Some(Seq::empty())
    } else {
        let block = blocks.last();
        match (
            write_plan(info, piece, blocks.drop_last()),
            block_place(info, block.info()),
        ) {
            (Some(writes), Some(place)) => Some(
                add_write(
                    writes,
                    place.file.path,
                    piece_offset_in_file(info, piece, place.file.path),
                    block.block,
                ),
            ),
            _ => None,
        }
    }
}

/// Every path is written to once.
pub open spec fn paths_differ(writes: Seq<WriteData>) -> bool {
    forall|i: int, j: int|
        0 <= i < writes.len() && 0 <= j < writes.len() && i != j ==> !same_path(
            (#[trigger] writes[i]).path,
            (#[trigger] writes[j]).path,
        )
}

/// A plan that fails on some blocks fails on more blocks.
proof fn write_plan_prefix(info: InfoData, piece: int, blocks: Seq<BlockData>, n: int)
    requires
        0 <= n <= blocks.len(),
        write_plan(info, piece, blocks.take(n)) is None,
    ensures
        write_plan(info, piece, blocks) is None,
    decreases blocks.len(),
{
    if n < blocks.len() {
        assert(blocks.drop_last().take(n) =~= blocks.take(n));
        write_plan_prefix(info, piece, blocks.drop_last(), n);
    } else {
        assert(blocks.take(n) =~= blocks);
    }
}

/// Finds the offset at which the file with the path `path` starts.
fn find_path_start(files: &Vec<DiskFile>, path: &Vec<String>) -> (res: u64)
    requires
        exists|i: int| first_same_path(disk_files_data(files@), texts(path@), i),
    ensures
        res == path_start(disk_files_data(files@), texts(path@)),
{
    let ghost data = disk_files_data(files@);
    let mut i: usize = 0;
    while !test_same_path(&files[i].path, path)
        invariant
            i < files.len(),
            data == disk_files_data(files@),
            exists|k: int| first_same_path(data, texts(path@), k),
            forall|j: int| 0 <= j < i ==> !same_path((#[trigger] data[j]).path, texts(path@)),
        ensures
            i < files.len(),
            same_path(data[i as int].path, texts(path@)),
        decreases files.len() - i,
    {
        proof {
            let k = choose|k: int| first_same_path(data, texts(path@), k);
            assert(!same_path(data[i as int].path, texts(path@)));
            assert(k > i);
        }
        i += 1;
    }
    assert(first_same_path(data, texts(path@), i as int));
    files[i].length
}

/// A file that holds a byte of the torrent is listed with its path.
proof fn place_is_listed(info: InfoData, offset: int)
    requires
        0 <= offset,
        place_of(info, offset) is Some,
    ensures
        exists|i: int|
            first_same_path(disk_files(info), place_of(info, offset)->0.file.path, i),
{
    let path = place_of(info, offset)->0.file.path;
    let files = disk_files(info);
    let k = match info.files {
        Some(fs) => {
            file_at_exists(fs, offset);
            file_at(fs, offset)
        },
        None => 0,
    };
    assert(files[k].path == path);
    first_exists(files, path, k);
}

proof fn first_exists(files: Seq<DiskFileData>, path: Seq<Seq<char>>, k: int)
    requires
        0 <= k < files.len(),
        same_path(files[k].path, path),
    ensures
        exists|i: int| first_same_path(files, path, i),
    decreases k,
{
    if forall|j: int| 0 <= j < k ==> !same_path((#[trigger] files[j]).path, path) {
        assert(first_same_path(files, path, k));
    } else {
        let j = choose|j: int| 0 <= j < k && same_path((#[trigger] files[j]).path, path);
        first_exists(files, path, j);
    }
}

/// Plans the writes that store the blocks `blocks` of a piece.
pub fn plan_writes(info: &Info, summary: &TorrentInfo, piece: u32, blocks: &Vec<Block>) -> (res:
    Result<Vec<FileWrite>, Error>)
    requires
        has_files(info@),
        info_fits(info@),
        summary@ == torrent_info(info@),
    ensures
        res is Ok <==> write_plan(info@, piece as int, keys(blocks@)) is Some,
        match res {
            Ok(writes) => Some(writes_data(writes@)) == write_plan(
                info@,
                piece as int,
                keys(blocks@),
            ) && paths_differ(writes_data(writes@)),
            Err(e) => e matches Error::FileOpenError(text) && text@ == offset_exceeds(),
        },
{
    let ghost data = keys(blocks@);
    assert(piece * summary.piece_length <= u32::MAX * u32::MAX) by (nonlinear_arith)
        requires
            piece <= u32::MAX,
            summary.piece_length <= u32::MAX,
    ;
    let piece_start: u64 = piece as u64 * summary.piece_length as u64;
    let mut writes: Vec<FileWrite> = Vec::new();
    let mut i: usize = 0;
    assert(data.take(0) =~= Seq::empty());
    assert(writes_data(writes@) =~= Seq::empty());
    while i < blocks.len()
        invariant
            i <= blocks.len(),
            data == keys(blocks@),
            has_files(info@),
            info_fits(info@),
            summary@ == torrent_info(info@),
            piece_start == torrent_offset(info@, piece as int, 0),
            write_plan(info@, piece as int, data.take(i as int)) == Some(writes_data(writes@)),
            paths_differ(writes_data(writes@)),
        decreases blocks.len() - i,
    {
        let block = &blocks[i];
        let block_info = BlockInfo::of(block);
        proof {
            assert(data.take(i + 1).drop_last() =~= data.take(i as int));
            assert(data.take(i + 1).last() == block@);
        }
        match find_block_place(info, &block_info) {
            Err(e) => {
                proof {
                    write_plan_prefix(info@, piece as int, data, i + 1);
                }
                return Err(e);
            },
            Ok(place) => {
                proof {
                    assert(0 <= block_info.index * info.piece_length) by (nonlinear_arith)
                        requires
                            0 <= block_info.index,
                            0 <= info.piece_length,
                    ;
                    place_is_listed(
                        info@,
                        torrent_offset(info@, block_info.index as int, block_info.begin as int),
                    );
                }
                let start: u64 = find_path_start(&summary.files, &place.file.path);
                let offset: u64 = if start <= piece_start {
                    piece_start - start
                } else {
                    0
                };
                append_write(&mut writes, place.file.path, offset, &block.block);
            },
        }
        i += 1;
    }
    assert(data.take(i as int) =~= data);
    Ok(writes)
}

/// Appends `bytes` to the write to the path `path`, or adds a write at `offset` if there is none.
fn append_write(writes: &mut Vec<FileWrite>, path: Vec<String>, offset: u64, bytes: &Vec<u8>)
    requires
        paths_differ(writes_data(old(writes)@)),
    ensures
        writes_data(final(writes)@) == add_write(
            writes_data(old(writes)@),
            texts(path@),
            offset as int,
            bytes@,
        ),
        paths_differ(writes_data(final(writes)@)),
{
    let ghost before = writes_data(writes@);
    let mut i: usize = 0;
    while i < writes.len()
        invariant
            i <= writes.len(),
            writes@ == old(writes)@,
            before == writes_data(writes@),
            paths_differ(before),
            forall|j: int| 0 <= j < i ==> !same_path((#[trigger] before[j]).path, texts(path@)),
        decreases writes.len() - i,
    {
        if test_same_path(&writes[i].path, &path) {
            let write = &mut writes[i];
            write.bytes.extend_from_slice(bytes.as_slice());
            proof {
                assert(writes_to(before, texts(path@), i as int));
                assert(writes@[i as int].bytes@ =~= before[i as int].bytes + bytes@);
                assert(writes_data(writes@) =~= add_write(
                    before,
                    texts(path@),
                    offset as int,
                    bytes@,
                ));
            }
            return;
        }
        i += 1;
    }
    let copy = bytes.clone();
    assert(copy@ =~= bytes@);
    writes.push(FileWrite { path, offset, bytes: copy });
    assert(writes_data(writes@) =~= add_write(before, texts(path@), offset as int, bytes@));
}

/// No two files of the torrent have the same path.
pub open spec fn files_differ(info: InfoData) -> bool {
    info.files matches Some(files) ==> forall|i: int, j: int|
        0 <= i < files.len() && 0 <= j < files.len() && i != j ==> !same_path(
            (#[trigger] files[i]).path,
            (#[trigger] files[j]).path,
        )
}

/// Whether a block has data and starts and ends in one file.
pub open spec fn in_one_file(info: InfoData, block: BlockData) -> bool {
    &&& block.block.len() > 0
    &&& block_place(info, block.info()) matches Some(place) && (info.files is Some
        ==> place.offset + block.block.len() <= place.file.length)
}

/// Whether `blocks` are the blocks of `piece` from its beginning on, without gaps.
pub open spec fn tile_piece(piece: int, blocks: Seq<BlockData>) -> bool {
    &&& forall|k: int| 0 <= k < blocks.len() ==> (#[trigger] blocks[k]).index == piece
    &&& blocks.len() > 0 ==> blocks[0].begin == 0
    &&& forall|k: int, l: int|
        0 <= k && l == k + 1 && l < blocks.len() ==> (#[trigger] blocks[l]).begin == (
        #[trigger] blocks[k]).begin + blocks[k].block.len()
}

/// Whether `writes` put `byte` where the byte at `offset` in the torrent is read from.
pub open spec fn is_written(info: InfoData, writes: Seq<WriteData>, offset: int, byte: u8) -> bool {
    place_of(info, offset) matches Some(place) && exists|w: int|
        #[trigger] writes_to(writes, place.file.path, w) && 0 <= place.offset - writes[w].offset
            < writes[w].bytes.len() && writes[w].bytes[place.offset - writes[w].offset] == byte
}

/// Whether `writes` put every byte of `blocks` where it is read from.
pub open spec fn all_written(
    info: InfoData,
    piece: int,
    blocks: Seq<BlockData>,
    writes: Seq<WriteData>,
) -> bool {
    forall|k: int, j: int|
        0 <= k < blocks.len() && 0 <= j < blocks[k].block.len() ==> is_written(
            info,
            writes,
            torrent_offset(info, piece, blocks[k].begin + j),
            #[trigger] blocks[k].block[j],
        )
}

/// What is written is what is read: if the blocks of a piece follow one another
/// from the beginning of the piece on, and each of them is in one file,
/// then the plan puts every byte of every block at the place where this byte is read from.
pub proof fn written_is_read(info: InfoData, piece: int, blocks: Seq<BlockData>)
    requires
        0 <= piece <= u32::MAX,
        has_files(info),
        files_differ(info),
        tile_piece(piece, blocks),
        forall|k: int| 0 <= k < blocks.len() ==> in_one_file(info, #[trigger] blocks[k]),
    ensures
        write_plan(info, piece, blocks) matches Some(writes) && all_written(
            info,
            piece,
            blocks,
            writes,
        ),
{
    plan_is_right(info, piece, blocks);
}

/// The offset in the torrent at which the file of the byte at `offset` starts.
spec fn start_at(info: InfoData, offset: int) -> int {
    offset - place_of(info, offset)->0.offset
}

/// The path of the file of the byte at `offset`.
spec fn path_at(info: InfoData, offset: int) -> Seq<Seq<char>> {
    place_of(info, offset)->0.file.path
}

proof fn path_start_at(info: InfoData, offset: int)
    requires
        0 <= offset,
        files_differ(info),
        place_of(info, offset) is Some,
    ensures
        path_start(disk_files(info), path_at(info, offset)) == start_at(info, offset),
        0 <= start_at(info, offset) <= offset,
{
    place_is_listed(info, offset);
    let path = path_at(info, offset);
    let i = choose|i: int| first_same_path(disk_files(info), path, i);
    match info.files {
        Some(files) => {
            file_at_exists(files, offset);
            let k = file_at(files, offset);
            assert(files[k].path == path);
            assert(same_path(files[i].path, path));
        },
        None => {},
    }
}

/// The bytes of a block are in the file of its first byte.
proof fn block_in_file(info: InfoData, block: BlockData, offset: int, j: int)
    requires
        0 <= offset,
        place_of(info, offset) matches Some(place) && (info.files is Some ==> place.offset
            + block.block.len() <= place.file.length),
        0 <= j < block.block.len(),
    ensures
        place_of(info, offset + j) matches Some(place) && place.file == place_of(
            info,
            offset,
        )->0.file && place.offset == place_of(info, offset)->0.offset + j,
{
    match info.files {
        Some(files) => {
            file_at_exists(files, offset);
            let k = file_at(files, offset);
            crate::metainfo::file_start_succ(files, k);
            assert(holds_offset(files, k, offset + j));
            file_at_unique(files, k, offset + j);
        },
        None => {},
    }
}

/// Two bytes in files with the same path are in one file.
proof fn same_path_is_equal(info: InfoData, a: int, b: int)
    requires
        0 <= a,
        0 <= b,
        files_differ(info),
        place_of(info, a) is Some,
        place_of(info, b) is Some,
        same_path(path_at(info, a), path_at(info, b)),
    ensures
        path_at(info, a) == path_at(info, b),
{
    match info.files {
        Some(files) => {
            file_at_exists(files, a);
            file_at_exists(files, b);
            assert(same_path(files[file_at(files, a)].path, files[file_at(files, b)].path));
        },
        None => {},
    }
}

/// Of two bytes in one file, all bytes between are in this file;
/// of two bytes in two files, the first file ends before the second starts.
proof fn files_in_order(info: InfoData, a: int, b: int, c: int)
    requires
        0 <= a <= b <= c,
        files_differ(info),
        place_of(info, a) is Some,
        place_of(info, b) is Some,
        place_of(info, c) is Some,
    ensures
        path_at(info, a) == path_at(info, c) ==> path_at(info, b) == path_at(info, c),
        path_at(info, a) == path_at(info, c) ==> start_at(info, a) == start_at(info, c),
        path_at(info, b) != path_at(info, c) ==> info.files is Some && start_at(info, b)
            + place_of(info, b)->0.file.length <= start_at(info, c),
{
    match info.files {
        Some(files) => {
            file_at_exists(files, a);
            file_at_exists(files, b);
            file_at_exists(files, c);
            let i = file_at(files, a);
            let j = file_at(files, b);
            let k = file_at(files, c);
            if j < i {
                file_start_monotonic(files, j + 1, i);
            }
            if k < j {
                file_start_monotonic(files, k + 1, j);
            }
            if path_at(info, a) == path_at(info, c) {
                assert(files[i].path == files[k].path);
            }
            if path_at(info, b) != path_at(info, c) {
                assert(j < k);
                crate::metainfo::file_start_succ(files, j);
                file_start_monotonic(files, j + 1, k);
            }
        },
        None => {},
    }
}

/// Whether the writes store `blocks`, whose last block is in the last bytes of its file so far.
spec fn plan_state(
    info: InfoData,
    piece: int,
    blocks: Seq<BlockData>,
    writes: Seq<WriteData>,
) -> bool {
    &&& paths_differ(writes)
    &&& all_written(info, piece, blocks, writes)
    &&& forall|w: int|
        0 <= w < writes.len() ==> exists|k: int|
            0 <= k < blocks.len() && path_at(
                info,
                torrent_offset(info, piece, (#[trigger] blocks[k]).begin as int),
            ) == (#[trigger] writes[w]).path
    &&& blocks.len() > 0 ==> {
        let offset = torrent_offset(info, piece, blocks.last().begin as int);
        exists|w: int| #[trigger]
            writes_to(writes, path_at(info, offset), w) && start_at(info, offset)
                + writes[w].offset + writes[w].bytes.len() == offset + blocks.last().block.len()
    }
}

/// The blocks of a piece start one after another.
proof fn begins_ascend(piece: int, blocks: Seq<BlockData>, k: int, l: int)
    requires
        tile_piece(piece, blocks),
        0 <= k <= l < blocks.len(),
    ensures
        blocks[k].begin <= blocks[l].begin,
    decreases l - k,
{
    if k < l {
        assert(blocks[l - 1].begin <= blocks[l].begin);
        begins_ascend(piece, blocks, k, l - 1);
    }
}

proof fn plan_is_right(info: InfoData, piece: int, blocks: Seq<BlockData>)
    requires
        0 <= piece <= u32::MAX,
        has_files(info),
        files_differ(info),
        tile_piece(piece, blocks),
        forall|k: int| 0 <= k < blocks.len() ==> in_one_file(info, #[trigger] blocks[k]),
    ensures
        write_plan(info, piece, blocks) matches Some(writes) && plan_state(
            info,
            piece,
            blocks,
            writes,
        ),
    decreases blocks.len(),
{
    let n = blocks.len();
    if n > 0 {
        let front = blocks.drop_last();
        let block = blocks.last();
        plan_is_right(info, piece, front);
        let writes = write_plan(info, piece, front)->0;
        let offset = torrent_offset(info, piece, block.begin as int);
        assert(in_one_file(info, blocks[n - 1]));
        assert(block.index == piece);
        assert(0 <= piece * info.piece_length) by (nonlinear_arith)
            requires
                0 <= piece,
        ;
        assert(block_place(info, block.info()) == place_of(info, offset));
        let path = path_at(info, offset);
        path_start_at(info, offset);
        let at = piece_offset_in_file(info, piece, path);
        let all = add_write(writes, path, at, block.block);
        assert(write_plan(info, piece, blocks) == Some(all));
        let w = if exists|i: int| writes_to(writes, path, i) {
            choose|i: int| writes_to(writes, path, i)
        } else {
            writes.len() as int
        };
        // The position of the block in the write.
        let pos: int = if w < writes.len() {
            writes[w].bytes.len() as int
        } else {
            0
        };
        assert(start_at(info, offset) + all[w].offset + pos == offset) by {
            if w < writes.len() {
                let k = choose|k: int|
                    0 <= k < front.len() && path_at(
                        info,
                        torrent_offset(info, piece, (#[trigger] front[k]).begin as int),
                    ) == writes[w].path;
                let last = torrent_offset(info, piece, front.last().begin as int);
                assert(blocks[k] == front[k]);
                begins_ascend(piece, blocks, k, n - 2);
                begins_ascend(piece, blocks, n - 2, n - 1);
                assert(in_one_file(info, blocks[k]));
                assert(in_one_file(info, blocks[n - 2]));
                assert(blocks[k].index == piece && blocks[n - 2].index == piece);
                same_path_is_equal(
                    info,
                    torrent_offset(info, piece, front[k].begin as int),
                    offset,
                );
                files_in_order(
                    info,
                    torrent_offset(info, piece, front[k].begin as int),
                    last,
                    offset,
                );
                files_in_order(info, last, last, offset);
                let v = choose|v: int| #[trigger]
                    writes_to(writes, path_at(info, last), v) && start_at(info, last)
                        + writes[v].offset + writes[v].bytes.len() == last
                        + front.last().block.len();
                assert(v == w);
                assert(blocks[n - 1].begin == blocks[n - 2].begin + blocks[n - 2].block.len());
            } else if n > 1 {
                let last = torrent_offset(info, piece, front.last().begin as int);
                assert(in_one_file(info, blocks[n - 2]));
                assert(blocks[n - 2].index == piece);
                begins_ascend(piece, blocks, n - 2, n - 1);
                let v = choose|v: int| #[trigger]
                    writes_to(writes, path_at(info, last), v) && start_at(info, last)
                        + writes[v].offset + writes[v].bytes.len() == last
                        + front.last().block.len();
                assert(path_at(info, last) != path);
                files_in_order(info, last, last, offset);
                assert(blocks[n - 1].begin == blocks[n - 2].begin + blocks[n - 2].block.len());
            }
        }
        assert(writes_to(all, path, w));
        assert forall|k: int, j: int| 0 <= k < n && 0 <= j < blocks[k].block.len() implies is_written(
            info,
            all,
            torrent_offset(info, piece, blocks[k].begin + j),
            #[trigger] blocks[k].block[j],
        ) by {
            let here = torrent_offset(info, piece, blocks[k].begin + j);
            if k < n - 1 {
                assert(blocks[k] == front[k]);
                assert(is_written(info, writes, here, front[k].block[j]));
                let place = place_of(info, here)->0;
                let v = choose|v: int| #[trigger]
                    writes_to(writes, place.file.path, v) && 0 <= place.offset - writes[v].offset
                        < writes[v].bytes.len() && writes[v].bytes[place.offset - writes[v].offset]
                        == front[k].block[j];
                assert(writes_to(all, place.file.path, v));
            } else {
                block_in_file(info, block, offset, j);
                assert(here == offset + j);
                assert(all[w].bytes[pos + j] == block.block[j]);
            }
        }
        assert forall|v: int| 0 <= v < all.len() implies exists|k: int|
            0 <= k < blocks.len() && path_at(
                info,
                torrent_offset(info, piece, (#[trigger] blocks[k]).begin as int),
            ) == (#[trigger] all[v]).path by {
            if v == writes.len() {
                assert(path_at(info, torrent_offset(info, piece, blocks[n - 1].begin as int))
                    == all[v].path);
            } else {
                let k = choose|k: int|
                    0 <= k < front.len() && path_at(
                        info,
                        torrent_offset(info, piece, (#[trigger] front[k]).begin as int),
                    ) == writes[v].path;
                assert(blocks[k] == front[k]);
            }
        }
        assert(paths_differ(all)) by {
            if w == writes.len() {
                assert forall|i: int| 0 <= i < writes.len() implies !same_path(
                    (#[trigger] writes[i]).path,
                    path,
                ) by {
                    assert(!writes_to(writes, path, i));
                }
            }
        }
        assert(all_written(info, piece, blocks, all));
        assert(all[w].bytes.len() == pos + block.block.len());
        assert(plan_state(info, piece, blocks, all));
    }
}

} // verus!
