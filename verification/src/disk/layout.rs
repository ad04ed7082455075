//! How the bytes of a torrent are laid out in its files.
use crate::error::Error;
use crate::metainfo::{
    file_start, file_start_monotonic, file_start_succ, files_data, size_of_files, File, FileData,
    Info, InfoData, PIECE_HASH_LEN,
};
use crate::tcp_wire::BlockInfo;
use crate::text::{clone_texts, texts};
use vstd::prelude::*;

verus! {

/// Whether the byte at `offset` in the concatenation of `files` belongs to the `i`-th file.
pub open spec fn holds_offset(files: Seq<FileData>, i: int, offset: int) -> bool {
    0 <= i < files.len() && file_start(files, i) <= offset < file_start(files, i + 1)
}

/// The file that the byte at `offset` in the concatenation of `files` belongs to.
pub open spec fn file_at(files: Seq<FileData>, offset: int) -> int {
    choose|i: int| holds_offset(files, i, offset)
}

/// A byte belongs to one file only.
pub proof fn file_at_unique(files: Seq<FileData>, i: int, offset: int)
    requires
        holds_offset(files, i, offset),
    ensures
        file_at(files, offset) == i,
        offset < size_of_files(files),
{
    let k = file_at(files, offset);
    assert(holds_offset(files, k, offset));
    if k < i {
        file_start_monotonic(files, k + 1, i);
    } else if i < k {
        file_start_monotonic(files, i + 1, k);
    }
    file_start_monotonic(files, i + 1, i + 1);
}

/// Every byte of the torrent belongs to a file.
pub proof fn file_at_exists(files: Seq<FileData>, offset: int)
    requires
        0 <= offset < size_of_files(files),
    ensures
        holds_offset(files, file_at(files, offset), offset),
{
    assert(files.take(files.len() as int) =~= files);
    let i = last_start(files, files.len() as int, offset);
    assert(holds_offset(files, i, offset));
}

/// The last of the first `n` files that does not start after `offset`.
proof fn last_start(files: Seq<FileData>, n: int, offset: int) -> (i: int)
    requires
        0 < n <= files.len(),
        0 <= offset < file_start(files, n),
    ensures
        holds_offset(files, i, offset),
    decreases n,
{
    file_start_succ(files, n - 1);
    if file_start(files, n - 1) <= offset {
        n - 1
    } else {
        if n == 1 {
            assert(files.take(0) =~= Seq::empty());
        }
        last_start(files, n - 1, offset)
    }
}

/// A place in a file of a torrent.
#[derive(Debug, PartialEq, Eq)]
pub struct Place {
    /// The file.
    pub file: File,
    /// The offset in the file in bytes.
    pub offset: u64,
}

/// What a [`Place`] holds.
pub ghost struct PlaceData {
    pub file: FileData,
    pub offset: int,
}

impl View for Place {
    type V = PlaceData;

    open spec fn view(&self) -> PlaceData {
        PlaceData { file: self.file@, offset: self.offset as int }
    }
}

/// The only file of a single-file torrent.
pub open spec fn single_file(info: InfoData) -> FileData {
    FileData { length: info.file_length->0, path: seq![info.name] }
}

/// The place of the byte at `offset` in the torrent.
/// A single-file torrent does not bound offsets.
pub open spec fn place_of(info: InfoData, offset: int) -> Option<PlaceData> {
    match info.files {
        Some(files) => if offset < size_of_files(files) {
            let i = file_at(files, offset);
            Some(PlaceData { file: files[i], offset: offset - file_start(files, i) })
        } else {
            None
        },
        None => Some(PlaceData { file: single_file(info), offset }),
    }
}

/// The offset in the torrent of the byte `begin` of the piece `index`.
pub open spec fn torrent_offset(info: InfoData, index: int, begin: int) -> int {
    index * info.piece_length + begin
}

/// The place where a block starts.
pub open spec fn block_place(info: InfoData, block: BlockInfo) -> Option<PlaceData> {
    place_of(info, torrent_offset(info, block.index as int, block.begin as int))
}

/// Whether the torrent lists its files or tells the length of its only file.
pub open spec fn has_files(info: InfoData) -> bool {
    info.files is Some || info.file_length is Some
}

/// Finds the place of the byte at `offset` in the torrent.
fn find_place(info: &Info, offset: u64) -> (res: Option<Place>)
    requires
        has_files(info@),
    ensures
        res is Some <==> place_of(info@, offset as int) is Some,
        res matches Some(place) ==> Some(place@) == place_of(info@, offset as int),
{
    match &info.files {
        Some(files) => {
            let ghost data = files_data(files@);
            assert(data.take(0) =~= Seq::empty());
            let mut rest: u64 = offset;
            let mut i: usize = 0;
            while i < files.len()
                invariant
                    i <= files.len(),
                    data == files_data(files@),
                    info@.files == Some(data),
                    offset == file_start(data, i as int) + rest,
                decreases files.len() - i,
            {
                proof {
                    file_start_succ(data, i as int);
                }
                let length: u64 = files[i].length as u64;
                if length > rest {
                    proof {
                        file_at_unique(data, i as int, offset as int);
                    }
                    return Some(Place { file: files[i].clone(), offset: rest });
                }
                rest -= length;
                i += 1;
            }
            assert(data.take(i as int) =~= data);
            None
        },
        None => {
            let mut path: Vec<String> = Vec::new();
            path.push(info.name.clone());
            assert(texts(path@) =~= seq![info@.name]);
            Some(Place { file: File { length: info.file_length.unwrap(), path }, offset })
        },
    }
}

/// The message of the error about a block outside the files.
pub open spec fn offset_exceeds() -> Seq<char> {
    "Offset exceeds file sizes"@
}

/// Finds the place where a block starts.
pub fn find_block_place(info: &Info, block: &BlockInfo) -> (res: Result<Place, Error>)
    requires
        has_files(info@),
    ensures
        res is Ok <==> block_place(info@, *block) is Some,
        match res {
            Ok(place) => Some(place@) == block_place(info@, *block),
            Err(e) => e matches Error::FileOpenError(text) && text@ == offset_exceeds(),
        },
{
    assert(block.index * info.piece_length <= u32::MAX * u32::MAX) by (nonlinear_arith)
        requires
            block.index <= u32::MAX,
            info.piece_length <= u32::MAX,
    ;
    let offset: u64 = block.index as u64 * info.piece_length as u64 + block.begin as u64;
    match find_place(info, offset) {
        Some(place) => Ok(place),
        None => Err(Error::FileOpenError("Offset exceeds file sizes".to_owned())),
    }
}

/// Finds the file that the first byte of a piece belongs to.
pub fn find_piece_file(info: &Info, piece: u32) -> (res: Result<File, Error>)
    requires
        has_files(info@),
    ensures
        res is Ok <==> place_of(info@, torrent_offset(info@, piece as int, 0)) is Some,
        match res {
            Ok(file) => file@ == place_of(info@, torrent_offset(info@, piece as int, 0))->0.file,
            Err(e) => e matches Error::FileOpenError(text) && text@ == ""@,
        },
{
    assert(piece * info.piece_length <= u32::MAX * u32::MAX) by (nonlinear_arith)
        requires
            piece <= u32::MAX,
            info.piece_length <= u32::MAX,
    ;
    match find_place(info, piece as u64 * info.piece_length as u64) {
        Some(place) => Ok(place.file),
        None => Err(Error::FileOpenError("".to_owned())),
    }
}

/// A file of a torrent, but the length is accumulated.
#[derive(Debug, PartialEq, Eq)]
pub struct DiskFile {
    /// The names of the directories the file is in, then the name of the file.
    pub path: Vec<String>,
    /// The sum of the lengths of all previous files.
    pub length: u64,
}

/// What a [`DiskFile`] holds.
pub ghost struct DiskFileData {
    pub path: Seq<Seq<char>>,
    pub length: nat,
}

impl View for DiskFile {
    type V = DiskFileData;

    open spec fn view(&self) -> DiskFileData {
        DiskFileData { path: texts(self.path@), length: self.length as nat }
    }
}

/// A summary of the [`Info`] of a torrent.
#[derive(Debug, PartialEq, Eq)]
pub struct TorrentInfo {
    /// The name of the torrent.
    pub name: String,
    /// The size of the content of the torrent in bytes.
    pub total_size: u64,
    /// The size of every piece but the last in bytes.
    pub piece_length: u32,
    /// The number of pieces.
    pub pieces: u32,
    /// The files of the torrent.
    pub files: Vec<DiskFile>,
}

/// What a [`TorrentInfo`] holds.
pub ghost struct TorrentInfoData {
    pub name: Seq<char>,
    pub total_size: nat,
    pub piece_length: u32,
    pub pieces: nat,
    pub files: Seq<DiskFileData>,
}

/// What the files in `files` hold.
pub open spec fn disk_files_data(files: Seq<DiskFile>) -> Seq<DiskFileData> {
    files.map_values(|f: DiskFile| f@)
}

impl View for TorrentInfo {
    type V = TorrentInfoData;

    open spec fn view(&self) -> TorrentInfoData {
        TorrentInfoData {
            name: self.name@,
            total_size: self.total_size as nat,
            piece_length: self.piece_length,
            pieces: self.pieces as nat,
            files: disk_files_data(self.files@),
        }
    }
}

/// The files of a torrent with the offsets they start at.
pub open spec fn disk_files(info: InfoData) -> Seq<DiskFileData> {
    match info.files {
        Some(files) => Seq::new(
            files.len(),
            |i: int| DiskFileData { path: files[i].path, length: file_start(files, i) },
        ),
        None => seq![DiskFileData { path: seq![info.name], length: 0 }],
    }
}

/// The summary of `info`.
pub open spec fn torrent_info(info: InfoData) -> TorrentInfoData {
    TorrentInfoData {
        name: info.name,
        total_size: info.size(),
        piece_length: info.piece_length,
        pieces: info.piece_count(),
        files: disk_files(info),
    }
}

/// Whether the sizes in `info` fit in machine integers.
pub open spec fn info_fits(info: InfoData) -> bool {
    info.size() <= u64::MAX && info.piece_count() <= u32::MAX
}

/// Tests [`info_fits`].
pub fn test_info_fits(info: &Info) -> (res: bool)
    ensures
        res == info_fits(info@),
{
    if info.pieces.len() / PIECE_HASH_LEN > u32::MAX as usize {
        return false;
    }
    match &info.files {
        Some(files) => {
            let ghost data = files_data(files@);
            assert(data.take(0) =~= Seq::empty());
            let mut size: u64 = 0;
            let mut i: usize = 0;
            while i < files.len()
                invariant
                    i <= files.len(),
                    data == files_data(files@),
                    info@.files == Some(data),
                    size == file_start(data, i as int),
                decreases files.len() - i,
            {
                proof {
                    file_start_succ(data, i as int);
                    file_start_monotonic(data, i + 1, i + 1);
                }
                match size.checked_add(files[i].length as u64) {
                    Some(sum) => {
                        size = sum;
                    },
                    None => {
                        return false;
                    },
                }
                i += 1;
            }
            assert(data.take(i as int) =~= data);
            true
        },
        None => true,
    }
}

/// Tests [`has_files`].
pub fn test_has_files(info: &Info) -> (res: bool)
    ensures
        res == has_files(info@),
{
    info.files.is_some() || info.file_length.is_some()
}

impl TorrentInfo {
    /// Makes the summary of `info`.
    pub fn of(info: &Info) -> (res: Self)
        requires
            info_fits(info@),
        ensures
            res@ == torrent_info(info@),
    {
        let mut disk_files_list: Vec<DiskFile> = Vec::new();
        match &info.files {
            Some(files) => {
                let ghost data = files_data(files@);
                assert(data.take(0) =~= Seq::empty());
                let mut counter: u64 = 0;
                let mut i: usize = 0;
                while i < files.len()
                    invariant
                        i <= files.len(),
                        data == files_data(files@),
                        info@.files == Some(data),
                        size_of_files(data) <= u64::MAX,
                        counter == file_start(data, i as int),
                        disk_files_data(disk_files_list@) =~= disk_files(info@).take(i as int),
                    decreases files.len() - i,
                {
                    let ghost before = disk_files_list@;
                    let path = clone_texts(&files[i].path);
                    disk_files_list.push(DiskFile { path, length: counter });
                    proof {
                        assert(disk_files_data(disk_files_list@) =~= disk_files_data(before).push(
                            disk_files(info@)[i as int],
                        ));
                        file_start_succ(data, i as int);
                        file_start_monotonic(data, i + 1, i + 1);
                    }
                    counter += files[i].length as u64;
                    i += 1;
                }
                assert(disk_files(info@).take(i as int) =~= disk_files(info@));
            },
            None => {
                let mut path: Vec<String> = Vec::new();
                path.push(info.name.clone());
                assert(texts(path@) =~= seq![info@.name]);
                disk_files_list.push(DiskFile { path, length: 0 });
                assert(disk_files_data(disk_files_list@) =~= disk_files(info@));
            },
        }
        TorrentInfo {
            name: info.name.clone(),
            total_size: info.get_size(),
            piece_length: info.piece_length,
            pieces: info.pieces(),
            files: disk_files_list,
        }
    }

    /// The size of a piece in bytes.
    /// The last piece of a torrent might be smaller than the other pieces.
    pub fn piece_size(&self, piece_index: usize) -> (res: u32)
        requires
            self.pieces > 0,
            piece_index == self.pieces - 1 ==> self.piece_length > 0,
        ensures
            res == piece_size(self@, piece_index as int),
    {
        if piece_index == self.pieces as usize - 1 {
            let remainder: u64 = self.total_size % self.piece_length as u64;
            if remainder == 0 {
                self.piece_length
            } else {
                remainder as u32
            }
        } else {
            self.piece_length
        }
    }
}

/// The size of a piece in bytes.
/// The last piece has what the others leave of the torrent, but is not empty.
pub open spec fn piece_size(info: TorrentInfoData, piece_index: int) -> int {
    if piece_index == info.pieces - 1 && info.total_size as int % info.piece_length as int != 0 {
        info.total_size as int % info.piece_length as int
    } else {
        info.piece_length as int
    }
}

} // verus!
