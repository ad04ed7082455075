//! The `info` entry of a torrent file.
use crate::text::{clone_texts, texts};
use vstd::prelude::*;

verus! {

/// The number of bytes of a piece hash.
pub const PIECE_HASH_LEN: usize = 20;

/// A file of a multi-file torrent.
#[derive(Debug, PartialEq, Eq)]
pub struct File {
    /// The size of the file in bytes.
    pub length: u32,
    /// The names of the directories the file is in, then the name of the file.
    pub path: Vec<String>,
}

/// What a [`File`] holds.
pub ghost struct FileData {
    pub length: u32,
    pub path: Seq<Seq<char>>,
}

impl View for File {
    type V = FileData;

    open spec fn view(&self) -> FileData {
        FileData { length: self.length, path: texts(self.path@) }
    }
}

impl Clone for File {
    fn clone(&self) -> (res: Self)
        ensures
            res@ == self@,
    {
        File { length: self.length, path: clone_texts(&self.path) }
    }
}

/// The description of the content of a torrent.
#[derive(Debug, PartialEq, Eq)]
pub struct Info {
    /// The size of the file in bytes, in a single-file torrent.
    pub file_length: Option<u32>,
    /// The name of the file in a single-file torrent,
    /// the name of the directory of all files in a multi-file torrent.
    pub name: String,
    /// The size of every piece but the last in bytes.
    pub piece_length: u32,
    /// The concatenation of the hashes of all pieces.
    pub pieces: Vec<u8>,
    /// The files of a multi-file torrent.
    pub files: Option<Vec<File>>,
}

/// What an [`Info`] holds.
pub ghost struct InfoData {
    pub file_length: Option<u32>,
    pub name: Seq<char>,
    pub piece_length: u32,
    pub pieces: Seq<u8>,
    pub files: Option<Seq<FileData>>,
}

/// What the files in `files` hold.
pub open spec fn files_data(files: Seq<File>) -> Seq<FileData> {
    files.map_values(|f: File| f@)
}

impl View for Info {
    type V = InfoData;

    open spec fn view(&self) -> InfoData {
        InfoData {
            file_length: self.file_length,
            name: self.name@,
            piece_length: self.piece_length,
            pieces: self.pieces@,
            files: match self.files {
                Some(files) => Some(files_data(files@)),
                None => None,
            },
        }
    }
}

/// The sum of the lengths of `files`.
pub open spec fn size_of_files(files: Seq<FileData>) -> nat
    decreases files.len(),
{
    if files.len() == 0 {
        0
    } else {
        size_of_files(files.drop_last()) + files.last().length as nat
    }
}

/// The offset of the `i`-th file in the concatenation of `files`.
pub open spec fn file_start(files: Seq<FileData>, i: int) -> nat {
    size_of_files(files.take(i))
}

/// The next file starts where a file ends.
pub proof fn file_start_succ(files: Seq<FileData>, i: int)
    requires
        0 <= i < files.len(),
    ensures
        file_start(files, i + 1) == file_start(files, i) + files[i].length,
{
    assert(files.take(i + 1).drop_last() =~= files.take(i));
}

/// Files start in the order they are listed in, and inside the torrent.
pub proof fn file_start_monotonic(files: Seq<FileData>, i: int, j: int)
    requires
        0 <= i <= j <= files.len(),
    ensures
        file_start(files, i) <= file_start(files, j) <= size_of_files(files),
    decreases files.len() - i,
{
    if i < j {
        file_start_succ(files, i);
        file_start_monotonic(files, i + 1, j);
    } else if j < files.len() {
        file_start_succ(files, j);
        file_start_monotonic(files, j + 1, j + 1);
    } else {
        assert(files.take(j) =~= files);
    }
}

impl InfoData {
    /// The number of pieces.
    pub open spec fn piece_count(self) -> nat {
        self.pieces.len() / PIECE_HASH_LEN as nat
    }

    /// The size of the content of the torrent in bytes.
    pub open spec fn size(self) -> nat {
        match self.files {
            Some(files) => size_of_files(files),
            None => match self.file_length {
                Some(length) => length as nat,
                None => 0,
            },
        }
    }

    /// The hash of the piece `index`.
    pub open spec fn piece_hash(self, index: int) -> Seq<u8> {
        self.pieces.subrange(PIECE_HASH_LEN * index, PIECE_HASH_LEN * index + PIECE_HASH_LEN)
    }
}

impl Info {
    /// The number of pieces.
    pub fn pieces(&self) -> (res: u32)
        requires
            self@.piece_count() <= u32::MAX,
        ensures
            res == self@.piece_count(),
    {
        (self.pieces.len() / PIECE_HASH_LEN) as u32
    }

    /// The size of the content of the torrent in bytes.
    pub fn get_size(&self) -> (res: u64)
        requires
            self@.size() <= u64::MAX,
        ensures
            res == self@.size(),
    {
        match &self.files {
            Some(files) => {
                let ghost data = files_data(files@);
                let mut size: u64 = 0;
                let mut i: usize = 0;
                while i < files.len()
                    invariant
                        i <= files.len(),
                        data == files_data(files@),
                        size == file_start(data, i as int),
                        size_of_files(data) <= u64::MAX,
                    decreases files.len() - i,
                {
                    proof {
                        file_start_succ(data, i as int);
                        file_start_monotonic(data, i + 1, i + 1);
                    }
                    size += files[i].length as u64;
                    i += 1;
                }
                assert(data.take(i as int) =~= data);
                size
            },
            None => match self.file_length {
                Some(length) => length as u64,
                None => 0,
            },
        }
    }
}

impl Clone for Info {
    fn clone(&self) -> (res: Self)
        ensures
            res@ == self@,
    {
        let files = match &self.files {
            Some(files) => {
                let mut copy: Vec<File> = Vec::new();
                let mut i: usize = 0;
                while i < files.len()
                    invariant
                        i <= files.len(),
                        files_data(copy@) =~= files_data(files@).take(i as int),
                    decreases files.len() - i,
                {
                    let ghost before = copy@;
                    copy.push(files[i].clone());
                    assert(files_data(copy@) =~= files_data(before).push(files@[i as int]@));
                    i += 1;
                }
                assert(files_data(files@).take(i as int) =~= files_data(files@));
                Some(copy)
            },
            None => None,
        };
        let pieces = self.pieces.clone();
        assert(pieces@ =~= self.pieces@);
        Info {
            file_length: self.file_length,
            name: self.name.clone(),
            piece_length: self.piece_length,
            pieces,
            files,
        }
    }
}

} // verus!
