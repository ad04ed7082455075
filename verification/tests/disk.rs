use std::collections::HashMap;
use vincenzo::disk::layout::Place;
use vincenzo::disk::run::{DiskAction, DiskMsg};
use vincenzo::disk::slice::SliceDbError;
use vincenzo::disk::torrent::PieceStrategy;
use vincenzo::disk::{BlockRead, Disk, FileByPathR, FileId, ReadSlice, SliceError, WriteBlock};
use vincenzo::error::Error;
use vincenzo::metainfo::{File, Info};
use vincenzo::peer::PeerCtx;
use vincenzo::tcp_wire::{Block, BlockInfo, BLOCK_LEN};
use vincenzo::torrent::TorrentCtx;

const HASH: [u8; 20] = [0x99; 20];

/// Files in memory: their contents by the components of their paths.
type Files = HashMap<Vec<String>, Vec<u8>>;

fn texts(v: &[&str]) -> Vec<String> {
    v.iter().map(|s| s.to_string()).collect()
}

fn file(length: u32, path: &[&str]) -> File {
    File { length, path: texts(path) }
}

/// The blocks of a torrent whose pieces are blocks.
fn whole_pieces(info: &Info) -> Vec<BlockInfo> {
    (0..info.pieces()).map(|index| BlockInfo { index, begin: 0, len: info.piece_length }).collect()
}

fn torrent(info: &Info) -> TorrentCtx {
    TorrentCtx { info_hash: HASH, info: info.clone(), bitfield: vec![false; info.pieces() as usize] }
}

fn disk_with(info: &Info) -> Disk {
    let mut disk = Disk::new("downloads".to_string());
    disk.new_torrent(torrent(info), &whole_pieces(info)).unwrap();
    disk
}

/// A disk with a torrent of which `bits` bits tell that a piece is downloaded.
fn downloaded_disk(info: &Info, bits: usize) -> Disk {
    let mut disk = Disk::new("downloads".to_string());
    let ctx = TorrentCtx { info_hash: HASH, info: info.clone(), bitfield: vec![true; bits] };
    disk.new_torrent(ctx, &whole_pieces(info)).unwrap();
    disk
}

fn path_of(disk: &Disk, path: &[String]) -> Vec<String> {
    let mut full = disk.base_path(&HASH);
    full.extend(path.iter().cloned());
    full
}

/// Writes a block, and the piece to the files if it is complete.
fn write(disk: &mut Disk, files: &mut Files, block: Block) -> Result<(), Error> {
    let index = block.index;
    match disk.write_block(&HASH, block)? {
        WriteBlock::Complete(writes) => {
            for w in writes {
                let content = files.entry(path_of(disk, &w.path)).or_default();
                let end = w.offset as usize + w.bytes.len();
                if content.len() < end {
                    content.resize(end, 0);
                }
                content[w.offset as usize..end].copy_from_slice(&w.bytes);
            }
            disk.piece_written(&HASH, index)?;
        },
        WriteBlock::Cached | WriteBlock::Corrupted => {},
    }
    Ok(())
}

/// Reads a block from the files.
fn read(disk: &Disk, files: &Files, block_info: &BlockInfo) -> Vec<u8> {
    let read = disk.read_block(&HASH, block_info).unwrap();
    let path: Vec<String> = read.base.into_iter().chain(read.place.file.path).collect();
    let start = read.place.offset as usize;
    files[&path][start..start + read.len as usize].to_vec()
}

#[test]
fn create_file_tree() {
    let info = Info {
        file_length: None,
        name: "bla".to_owned(),
        piece_length: BLOCK_LEN,
        pieces: vec![],
        files: Some(vec![
            file(BLOCK_LEN * 2, &["foo.txt"]),
            file(BLOCK_LEN * 2, &["bar", "baz.txt"]),
            file(BLOCK_LEN * 2, &["bar", "buzz", "bee.txt"]),
        ]),
    };
    let mut disk = Disk::new("downloads".to_string());
    let todo = disk.new_torrent(torrent(&info), &vec![]).unwrap();
    let tree: Vec<(Vec<String>, Option<String>)> =
        todo.skeleton.into_iter().map(|f| (f.dir, f.name)).collect();
    assert_eq!(
        tree,
        vec![
            (texts(&["downloads", "bla"]), Some("foo.txt".to_string())),
            (texts(&["downloads", "bla", "bar"]), Some("baz.txt".to_string())),
            (texts(&["downloads", "bla", "bar", "buzz"]), Some("bee.txt".to_string())),
        ],
    );
    assert_eq!(
        todo.uri_paths,
        texts(&[
            "/mZmZmZmZmZmZmZmZmZmZmZmZmZk=/foo.txt",
            "/mZmZmZmZmZmZmZmZmZmZmZmZmZk=/bar/baz.txt",
            "/mZmZmZmZmZmZmZmZmZmZmZmZmZk=/bar/buzz/bee.txt",
        ]),
    );
    assert_eq!(todo.peers, Vec::<[u8; 20]>::new());
    // A torrent is added once.
    assert_eq!(
        disk.new_torrent(torrent(&info), &vec![]).unwrap_err(),
        Error::NoDuplicateTorrent,
    );
}

#[test]
fn get_file_from_block_info() {
    // Complex multi file torrent, 64 blocks per piece
    let info = Info {
        name: "name_of_torrent_folder".to_owned(),
        piece_length: 1048576,
        file_length: None,
        pieces: vec![0u8; 660],
        files: Some(vec![
            file(26384160, &["file_a"]),
            file(8281625, &["file_b"]),
            file(46, &["file_c"]),
        ]),
    };
    let disk = disk_with(&info);
    let files = info.files.as_ref().unwrap();
    let place = |index: u32, begin: u32, len: u32| {
        disk.get_file_from_block_info(&BlockInfo { index, begin, len }, &HASH).unwrap()
    };

    assert_eq!(place(0, 0, BLOCK_LEN), Place { file: files[0].clone(), offset: 0 });
    // first block of the last piece
    assert_eq!(place(25, 0, 16384).file, files[0]);
    // last block of the first file
    assert_eq!(place(25, 163840, 5920), Place { file: files[0].clone(), offset: 26378240 });
    // first block of second file
    assert_eq!(place(25, 169760, BLOCK_LEN), Place { file: files[1].clone(), offset: 0 });
    // second block of second file
    assert_eq!(place(25, 169760 + BLOCK_LEN, BLOCK_LEN).file, files[1]);
    // last of second file
    assert_eq!(place(33, 49152, 13625).file, files[1]);
    // last file of torrent
    assert_eq!(place(33, 62777, 46), Place { file: files[2].clone(), offset: 0 });

    assert_eq!(
        disk.get_file_from_block_info(&BlockInfo { index: 33, begin: 62823, len: 1 }, &HASH),
        Err(Error::FileOpenError("Offset exceeds file sizes".to_string())),
    );
    assert_eq!(
        disk.get_file_from_block_info(&BlockInfo { index: 0, begin: 0, len: 1 }, &[1; 20]),
        Err(Error::InfoHashInvalid),
    );
    assert_eq!(disk.get_file_from_piece(0, &HASH).unwrap(), files[0]);
    assert_eq!(disk.get_file_from_piece(25, &HASH).unwrap(), files[0]);
    assert_eq!(disk.get_file_from_piece(26, &HASH).unwrap(), files[1]);
    assert_eq!(disk.get_file_from_piece(34, &HASH), Err(Error::FileOpenError("".to_string())));
    assert_eq!(disk.get_file_from_piece(0, &[1; 20]), Err(Error::InfoHashInvalid));
}

#[test]
fn write_out_of_order() {
    let info = Info {
        file_length: None,
        name: "arch".to_owned(),
        piece_length: 3,
        pieces: vec![
            25, 24, 125, 201, 141, 206, 82, 250, 76, 78, 142, 5, 179, 65,
            169, 183, 122, 81, 253, 38, 138, 247, 91, 50, 219, 108, 241,
            131, 238, 114, 179, 138, 39, 171, 85, 195, 131, 111, 27, 237,
        ],
        files: Some(vec![file(3, &["out.txt"]), file(3, &["last.txt"])]),
    };
    let mut disk = downloaded_disk(&info, 8);
    assert!(disk.set_piece_strategy(&HASH, PieceStrategy::Sequential));
    let mut files = Files::new();

    // second file
    let block = Block { index: 1, begin: 2, block: "9".as_bytes().to_owned() };
    write(&mut disk, &mut files, block).unwrap();
    let block = Block { index: 1, begin: 1, block: "w".as_bytes().to_owned() };
    write(&mut disk, &mut files, block).unwrap();
    let block = Block { index: 1, begin: 0, block: "x".as_bytes().to_owned() };
    write(&mut disk, &mut files, block).unwrap();

    // first file
    let block = Block { index: 0, begin: 2, block: "3".as_bytes().to_owned() };
    write(&mut disk, &mut files, block).unwrap();
    let block = Block { index: 0, begin: 1, block: "1".as_bytes().to_owned() };
    write(&mut disk, &mut files, block).unwrap();
    let block = Block { index: 0, begin: 0, block: "2".as_bytes().to_owned() };
    write(&mut disk, &mut files, block).unwrap();

    assert_eq!(files[&texts(&["downloads", "arch", "out.txt"])], vec![50, 49, 51]);
    assert_eq!(files[&texts(&["downloads", "arch", "last.txt"])], vec![120, 119, 57]);
}

fn three_files() -> Info {
    Info {
        file_length: None,
        name: "qwerty".to_owned(),
        piece_length: 12,
        pieces: vec![
            38, 217, 37, 110, 112, 21, 210, 221, 197, 150, 173, 23, 34,
            152, 198, 113, 27, 205, 25, 45, 194, 40, 51, 230, 54, 11, 105,
            175, 141, 19, 33, 54, 17, 20, 203, 34, 160, 241, 116, 6, 203,
            60, 156, 40, 208, 56, 192, 60, 224, 249, 43, 30, 49, 0, 62, 13,
            220, 56, 176, 42,
        ],
        files: Some(vec![
            file(12, &["foo.txt"]),
            file(12, &["bar", "baz.txt"]),
            file(12, &["bar", "buzz", "bee.txt"]),
        ]),
    }
}

// if we can write, read blocks, and then validate the hash of the pieces
#[test]
fn read_write_blocks_and_validate_pieces() {
    let mut disk = downloaded_disk(&three_files(), 32);
    disk.set_piece_strategy(&HASH, PieceStrategy::Sequential);
    let mut files = Files::new();

    // write entire first file (foo.txt)
    let block = Block { index: 0, begin: 0, block: vec![1, 2, 3, 4, 5, 6, 7, 8, 9, 10, 11, 12] };
    assert!(write(&mut disk, &mut files, block.clone()).is_ok());
    let block_info = BlockInfo { index: 0, begin: 0, len: block.block.len() as u32 };
    assert_eq!(read(&disk, &files, &block_info), block.block);

    // write entire second file (/bar/baz.txt)
    let block = Block { index: 1, begin: 0, block: vec![13, 14, 15, 16, 17, 18, 19, 20, 21, 22, 23, 24] };
    assert!(write(&mut disk, &mut files, block.clone()).is_ok());
    let block_info = BlockInfo { index: 1, begin: 0, len: 12 };
    assert_eq!(read(&disk, &files, &block_info), block.block);

    // write entire third file (/bar/buzz/bee.txt)
    let block = Block { index: 2, begin: 0, block: vec![25, 26, 27, 28, 29, 30, 31, 32, 33, 34, 35, 36] };
    assert!(write(&mut disk, &mut files, block.clone()).is_ok());
    let block_info = BlockInfo { index: 2, begin: 0, len: 12 };
    assert_eq!(read(&disk, &files, &block_info), block.block);

    //  READ BLOCKS with offsets
    let block_info = BlockInfo { index: 0, begin: 1, len: 3 };
    assert_eq!(read(&disk, &files, &block_info), vec![2, 3, 4]);
    let block_info = BlockInfo { index: 0, begin: 9, len: 3 };
    assert_eq!(read(&disk, &files, &block_info), vec![10, 11, 12]);
    // last three bytes of file
    let block_info = BlockInfo { index: 1, begin: 9, len: 3 };
    assert_eq!(read(&disk, &files, &block_info), vec![22, 23, 24]);
    let block_info = BlockInfo { index: 1, begin: 1, len: 6 };
    assert_eq!(read(&disk, &files, &block_info), vec![14, 15, 16, 17, 18, 19]);
    let block_info = BlockInfo { index: 2, begin: 0, len: 6 };
    assert_eq!(read(&disk, &files, &block_info), vec![25, 26, 27, 28, 29, 30]);
}

#[test]
fn seek_files() {
    let info = Info {
        piece_length: 32768,
        pieces: vec![0; 5480], // 274 pieces * 20 bytes each
        name: "name".to_string(),
        file_length: None,
        files: Some(vec![
            file(5034059, &["dir", "file_a.pdf"]),
            file(62, &["file_1.txt"]),
            file(237, &["file_2.txt"]),
        ]),
    };
    let mut disk = downloaded_disk(&info, 72);
    disk.set_piece_strategy(&HASH, PieceStrategy::Sequential);
    let mut files = Files::new();

    let block = Block { index: 0, begin: 0, block: vec![0; 5034059] };
    assert!(write(&mut disk, &mut files, block).is_ok());
    let block = Block { index: 153, begin: 20555, block: vec![0; 62] };
    assert!(write(&mut disk, &mut files, block.clone()).is_ok());
    assert!(write(&mut disk, &mut files, block.clone()).is_ok());

    // The first piece is corrupted, the other block is cached once.
    let t = disk.torrent(&HASH).unwrap();
    assert_eq!(t.cache[0], vec![]);
    assert_eq!(t.cache[153], vec![block]);
}

#[test]
fn a_piece_in_two_files() {
    // The piece 0 of `write_out_of_order`, in two files.
    let info = Info {
        file_length: None,
        name: "two".to_owned(),
        piece_length: 3,
        pieces: vec![
            25, 24, 125, 201, 141, 206, 82, 250, 76, 78, 142, 5, 179, 65, 169, 183, 122, 81, 253, 38,
        ],
        files: Some(vec![file(1, &["a"]), file(0, &["empty"]), file(2, &["b"])]),
    };
    let mut disk = disk_with(&info);
    disk.set_piece_strategy(&HASH, PieceStrategy::Sequential);
    let mut files = Files::new();
    write(&mut disk, &mut files, Block { index: 0, begin: 1, block: b"13".to_vec() }).unwrap();
    write(&mut disk, &mut files, Block { index: 0, begin: 0, block: b"2".to_vec() }).unwrap();
    assert_eq!(files[&texts(&["downloads", "two", "a"])], b"2");
    assert_eq!(files[&texts(&["downloads", "two", "b"])], b"13");
    for (begin, byte) in [(0, b'2'), (1, b'1'), (2, b'3')] {
        assert_eq!(read(&disk, &files, &BlockInfo { index: 0, begin, len: 1 }), vec![byte]);
    }
}

#[test]
fn corrupted_pieces_are_downloaded_again() {
    let mut disk = disk_with(&three_files());
    let late = Block { index: 0, begin: 6, block: vec![0; 6] };
    let early = Block { index: 0, begin: 0, block: vec![0; 6] };
    disk.new_peer(PeerCtx { id: [1; 20], info_hash: HASH, pieces: vec![true, false, false] });
    assert_eq!(disk.request_blocks(&HASH, &[1; 20], 9).unwrap().len(), 1);
    assert_eq!(disk.write_block(&HASH, late), Ok(WriteBlock::Cached));
    assert_eq!(disk.validate_piece(&HASH, 0), Err(Error::PieceInvalid));
    assert_eq!(disk.write_block(&HASH, early), Ok(WriteBlock::Corrupted));
    let t = disk.torrent(&HASH).unwrap();
    assert_eq!(t.cache[0], vec![]);
    assert_eq!(t.downloaded_pieces[0], 0);
    assert_eq!(
        t.pieces_blocks[0],
        vec![BlockInfo { index: 0, begin: 0, len: 6 }, BlockInfo { index: 0, begin: 6, len: 6 }],
    );
}

#[test]
fn refused_blocks() {
    let mut disk = disk_with(&three_files());
    let block = Block { index: 3, begin: 0, block: vec![] };
    assert_eq!(disk.write_block(&HASH, block.clone()), Err(Error::PieceIndexInvalid));
    assert_eq!(disk.try_write_block(&[1; 20], block), None);
    // Bits beyond the pieces do not matter.
    let mut disk = downloaded_disk(&three_files(), 32);
    let block = Block { index: 31, begin: 0, block: vec![1] };
    assert_eq!(disk.write_block(&HASH, block), Err(Error::PieceIndexInvalid));
    assert_eq!(disk.piece_size(&HASH, 0), 12);
}

fn first_piece() -> Block {
    Block { index: 0, begin: 0, block: vec![1, 2, 3, 4, 5, 6, 7, 8, 9, 10, 11, 12] }
}

#[test]
fn downloaded_pieces_are_done() {
    let mut disk = disk_with(&three_files());
    disk.set_piece_strategy(&HASH, PieceStrategy::Sequential);
    let mut files = Files::new();
    // A piece that is downloaded a second time is written again, and counted once.
    for _ in 0..2 {
        write(&mut disk, &mut files, first_piece()).unwrap();
        let t = disk.torrent(&HASH).unwrap();
        assert_eq!(t.bitfield, vec![true, false, false]);
        assert_eq!(t.pieces.len(), 2);
        assert!(!t.pieces.contains(&0));
        assert_eq!(t.downloaded_pieces_len, 1);
        assert_eq!(t.downloaded_pieces[0], 12);
    }
    // The second time it is complete only when all of its blocks are cached.
    let half = Block { index: 0, begin: 0, block: vec![1, 2, 3, 4, 5, 6] };
    assert_eq!(disk.write_block(&HASH, half), Ok(WriteBlock::Cached));
    assert_eq!(disk.torrent(&HASH).unwrap().downloaded_pieces[0], 6);
    let rest = Block { index: 0, begin: 6, block: vec![7, 8, 9, 10, 11, 12] };
    write(&mut disk, &mut files, rest).unwrap();
    assert_eq!(files[&texts(&["downloads", "qwerty", "foo.txt"])], first_piece().block);
}

#[test]
fn pieces_without_bits_are_done() {
    let mut disk = downloaded_disk(&three_files(), 1);
    disk.set_piece_strategy(&HASH, PieceStrategy::Sequential);
    let mut files = Files::new();
    let block = Block { index: 2, begin: 0, block: vec![25, 26, 27, 28, 29, 30, 31, 32, 33, 34, 35, 36] };
    write(&mut disk, &mut files, block.clone()).unwrap();
    assert_eq!(files[&texts(&["downloads", "qwerty", "bar", "buzz", "bee.txt"])], block.block);
    let t = disk.torrent(&HASH).unwrap();
    assert_eq!(t.bitfield, vec![true, false, true]);
    assert!(!t.pieces.contains(&2));
    assert_eq!(t.downloaded_pieces_len, 1);
}

#[test]
fn duplicate_blocks_change_nothing() {
    let mut disk = disk_with(&three_files());
    let half = || Block { index: 0, begin: 0, block: vec![1, 2, 3, 4, 5, 6] };
    assert_eq!(disk.write_block(&HASH, half()), Ok(WriteBlock::Cached));
    for _ in 0..3 {
        assert_eq!(disk.write_block(&HASH, half()), Ok(WriteBlock::Cached));
        let t = disk.torrent(&HASH).unwrap();
        assert_eq!(t.cache[0], vec![half()]);
        assert_eq!(t.downloaded_pieces[0], 6);
        assert_eq!(t.pieces_blocks[0], vec![BlockInfo { index: 0, begin: 0, len: 12 }]);
    }
    let rest = Block { index: 0, begin: 6, block: vec![7, 8, 9, 10, 11, 12] };
    assert!(matches!(disk.write_block(&HASH, rest), Ok(WriteBlock::Complete(_))));
}

#[test]
fn reverting_keeps_queued_blocks() {
    let info = three_files();
    let blocks = vec![
        BlockInfo { index: 0, begin: 0, len: 4 },
        BlockInfo { index: 0, begin: 4, len: 4 },
        BlockInfo { index: 0, begin: 8, len: 4 },
    ];
    let mut disk = Disk::new("d".to_string());
    disk.add_torrent(torrent(&info), vec![0, 1, 2], &blocks).unwrap();
    disk.new_peer(PeerCtx { id: [1; 20], info_hash: HASH, pieces: vec![true; 3] });
    // One block is requested, two come beside it that were not asked for.
    assert_eq!(disk.request_blocks(&HASH, &[1; 20], 1).unwrap(), vec![blocks[0]]);
    let zeros = |begin: u32, len: usize| Block { index: 0, begin, block: vec![0; len] };
    assert_eq!(disk.write_block(&HASH, zeros(0, 4)), Ok(WriteBlock::Cached));
    assert_eq!(disk.write_block(&HASH, zeros(8, 4)), Ok(WriteBlock::Cached));
    assert_eq!(disk.write_block(&HASH, zeros(2, 4)), Ok(WriteBlock::Corrupted));
    let t = disk.torrent(&HASH).unwrap();
    assert_eq!(
        t.pieces_blocks[0],
        vec![blocks[0], BlockInfo { index: 0, begin: 2, len: 4 }, blocks[1], blocks[2]],
    );
    assert_eq!(t.downloaded_pieces[0], 0);
}

#[test]
fn blocks_out_of_order() {
    let info = three_files();
    let mut blocks = whole_pieces(&info);
    blocks.swap(0, 1);
    let mut disk = Disk::new("d".to_string());
    let msg = DiskMsg::NewTorrent { torrent_ctx: torrent(&info), blocks };
    assert!(matches!(disk.handle(msg), DiskAction::Refuse));
    assert!(!disk.has_torrent(&HASH));
}

#[test]
fn blocks_outside_the_files() {
    // The hash is that of the piece 0 of `write_out_of_order`.
    let info = Info {
        file_length: None,
        name: "short".to_owned(),
        piece_length: 3,
        pieces: vec![
            25, 24, 125, 201, 141, 206, 82, 250, 76, 78, 142, 5, 179, 65, 169, 183, 122, 81, 253, 38,
            25, 24, 125, 201, 141, 206, 82, 250, 76, 78, 142, 5, 179, 65, 169, 183, 122, 81, 253, 38,
        ],
        files: Some(vec![file(3, &["a"])]),
    };
    let mut disk = disk_with(&info);
    let block = Block { index: 1, begin: 0, block: b"213".to_vec() };
    assert_eq!(
        disk.write_block(&HASH, block),
        Err(Error::FileOpenError("Offset exceeds file sizes".to_string())),
    );
    assert_eq!(disk.torrent(&HASH).unwrap().cache[1], vec![]);
}

#[test]
fn last_pieces() {
    let mut info = three_files();
    info.files = Some(vec![file(30, &["a"])]);
    let disk = disk_with(&info);
    assert_eq!(disk.piece_size(&HASH, 0), 12);
    assert_eq!(disk.piece_size(&HASH, 1), 12);
    assert_eq!(disk.piece_size(&HASH, 2), 6);
}

#[test]
fn single_files() {
    let mut info = three_files();
    info.files = None;
    info.file_length = Some(36);
    let disk = disk_with(&info);
    let only = file(36, &["qwerty"]);
    assert_eq!(
        disk.get_file_from_block_info(&BlockInfo { index: 1, begin: 3, len: 5 }, &HASH),
        Ok(Place { file: only.clone(), offset: 15 }),
    );
    assert_eq!(disk.get_file_from_piece(2, &HASH), Ok(only));
    assert_eq!(
        disk.file_by_path_msg(&HASH, &texts(&["qwerty"])),
        Ok(FileByPathR { i: 0, len: 36 }),
    );
    assert_eq!(disk.file_by_path_msg(&HASH, &texts(&["a"])), Err(SliceError::NoFilePath));
    let block = Disk::get_block_from_block_info(&BlockInfo { index: 1, begin: 3, len: 2 }, vec![7, 8]);
    assert_eq!(block, Block { index: 1, begin: 3, block: vec![7, 8] });
}

#[test]
fn the_first_piece_switches_to_rarest_first() {
    let mut disk = disk_with(&three_files());
    // Without peers the switch fails.
    let block = Block { index: 0, begin: 0, block: vec![1, 2, 3, 4, 5, 6, 7, 8, 9, 10, 11, 12] };
    let mut files = Files::new();
    assert_eq!(write(&mut disk, &mut files, block.clone()), Err(Error::NoPeers));
    assert_eq!(disk.rarest_first(&[1; 20]), Err(Error::NoPeers));

    let mut disk = disk_with(&three_files());
    let peer = |id: u8, pieces: &[bool]| PeerCtx { id: [id; 20], info_hash: HASH, pieces: pieces.to_vec() };
    disk.new_peer(peer(1, &[true, false, true]));
    disk.new_peer(peer(2, &[true, false]));
    disk.new_peer(peer(3, &[false, true, true]));
    disk.new_peer(PeerCtx { id: [4; 20], info_hash: [1; 20], pieces: vec![false, true, false] });
    write(&mut disk, &mut files, block).unwrap();
    let t = disk.torrent(&HASH).unwrap();
    assert_eq!(t.piece_strategy, PieceStrategy::Rarest);
    // The piece 2 is at two peers, the piece 1 at one.
    assert_eq!(t.pieces, vec![2, 1]);
    assert_eq!(disk.rarest_first(&[1; 20]), Err(Error::TorrentDoesNotExist));
    // A peer has got more pieces.
    disk.new_peer(peer(2, &[true, true, false]));
    disk.new_peer(peer(1, &[true, true, false]));
    assert_eq!(disk.rarest_first(&HASH), Ok(()));
    assert_eq!(disk.torrent(&HASH).unwrap().pieces, vec![1, 2]);
}

#[test]
fn the_pieces_of_a_new_torrent() {
    let info = three_files();
    let disk = disk_with(&info);
    let t = disk.torrent(&HASH).unwrap();
    let mut pieces = t.pieces.clone();
    pieces.sort();
    assert_eq!(pieces, vec![0, 1, 2]);
    assert_eq!(t.piece_strategy, PieceStrategy::default());
    assert_eq!(t.pieces_blocks.len(), 3);

    let mut disk = Disk::new("d".to_string());
    disk.new_peer(PeerCtx { id: [1; 20], info_hash: HASH, pieces: vec![true; 3] });
    let blocks = vec![
        BlockInfo { index: 0, begin: 0, len: 6 },
        BlockInfo { index: 0, begin: 6, len: 6 },
        BlockInfo { index: 1, begin: 0, len: 12 },
    ];
    let todo = disk.add_torrent(torrent(&info), vec![2, 0, 1], &blocks).unwrap();
    assert_eq!(todo.peers, vec![[1; 20]]);
    let t = disk.torrent(&HASH).unwrap();
    assert_eq!(t.pieces, vec![2, 0, 1]);
    assert_eq!(t.pieces_blocks[0], vec![blocks[0], blocks[1]]);
    assert_eq!(t.pieces_blocks[1], vec![blocks[2]]);
}

#[test]
fn requested_blocks() {
    let info = three_files();
    let mut disk = Disk::new("d".to_string());
    let blocks: Vec<BlockInfo> = (0..3)
        .flat_map(|index| [0, 6].map(|begin| BlockInfo { index, begin, len: 6 }))
        .collect();
    disk.add_torrent(torrent(&info), vec![2, 0, 1], &blocks).unwrap();
    disk.new_peer(PeerCtx { id: [1; 20], info_hash: HASH, pieces: vec![true, false, true] });
    disk.new_peer(PeerCtx { id: [2; 20], info_hash: HASH, pieces: vec![true, true, true, true] });
    assert_eq!(disk.request_blocks(&HASH, &[3; 20], 4), Err(Error::PeerIdInvalid));
    assert_eq!(disk.request_blocks(&HASH, &[1; 20], 3).unwrap(), vec![blocks[4], blocks[5], blocks[0]]);
    // Fewer blocks than asked for, because the peer has no more pieces.
    assert_eq!(disk.request_blocks(&HASH, &[1; 20], 3).unwrap(), vec![blocks[1]]);
    disk.return_block_infos(&HASH, &vec![blocks[5], BlockInfo { index: 9, begin: 0, len: 1 }]).unwrap();
    // Slice readers have priority.
    let file_id = FileId { info_hash: HASH, i: 1 };
    disk.new_slice_msg(&file_id, 0..5).unwrap();
    assert_eq!(disk.request_blocks(&HASH, &[2; 20], 9).unwrap(), vec![blocks[2], blocks[3], blocks[5]]);
    assert_eq!(
        disk.return_block_infos(&[1; 20], &vec![blocks[0]]),
        Err(Error::TorrentDoesNotExist),
    );
}

#[test]
fn requests_that_cannot_be_answered() {
    // The torrent has three pieces, and it is known of two whether they are downloaded.
    let info = three_files();
    let mut disk = Disk::new("d".to_string());
    let mut ctx = torrent(&info);
    ctx.bitfield.pop();
    disk.add_torrent(ctx, vec![0, 1, 2], &whole_pieces(&info)).unwrap();
    disk.new_peer(PeerCtx { id: [1; 20], info_hash: HASH, pieces: vec![true, true, true] });
    disk.new_peer(PeerCtx { id: [2; 20], info_hash: HASH, pieces: vec![true, false, true] });
    // With one block the piece 2 is not reached.
    assert_eq!(disk.try_request_blocks(&HASH, &[1; 20], 1).unwrap().unwrap().len(), 1);
    assert_eq!(disk.try_request_blocks(&HASH, &[2; 20], 0).unwrap().unwrap().len(), 0);
    assert!(disk.try_request_blocks(&HASH, &[2; 20], 1).is_none());
    assert!(disk.try_request_blocks(&[1; 20], &[2; 20], 1).is_none());
    assert_eq!(disk.try_request_blocks(&HASH, &[3; 20], 1), Some(Err(Error::PeerIdInvalid)));
    assert!(matches!(
        disk.handle(DiskMsg::RequestBlocks { info_hash: HASH, peer_id: [2; 20], qnt: 1 }),
        DiskAction::Refuse,
    ));
    assert!(matches!(
        disk.handle(DiskMsg::ReturnBlockInfos([1; 20], vec![])),
        DiskAction::Refuse,
    ));
    assert!(disk.has_torrent(&HASH));
    assert!(!disk.has_torrent(&[1; 20]));
}

#[test]
fn files_by_path() {
    let disk = disk_with(&three_files());
    assert_eq!(
        disk.file_by_path_msg(&HASH, &texts(&["bar", "baz.txt"])),
        Ok(FileByPathR { i: 1, len: 12 }),
    );
    assert_eq!(disk.file_by_path_msg(&HASH, &texts(&["bar"])), Err(SliceError::NoFilePath));
    assert_eq!(disk.file_by_path_msg(&[1; 20], &texts(&["bar"])), Err(SliceError::NoTorrent));
}

#[test]
fn refused_slices() {
    let mut disk = disk_with(&three_files());
    let id = |hash: [u8; 20], i: usize| FileId { info_hash: hash, i };
    assert_eq!(disk.new_slice_msg(&id([1; 20], 0), 0..1), Err(SliceError::NoTorrent));
    assert_eq!(disk.new_slice_msg(&id(HASH, 3), 0..1), Err(SliceError::NoFileIndex));
    assert_eq!(disk.new_slice_msg(&id(HASH, 1), 0..13), Err(SliceError::FileRangeOutOfBounds));
    // A reversed range is empty.
    assert_eq!(disk.new_slice_msg(&id(HASH, 1), 13..2), Err(SliceError::FileRangeOutOfBounds));
    assert!(disk.new_slice_msg(&id(HASH, 1), 12..2).is_ok());
}

#[test]
fn slices_are_read() {
    let mut disk = disk_with(&three_files());
    disk.set_piece_strategy(&HASH, PieceStrategy::Sequential);
    let mut files = Files::new();
    let slice = disk.new_slice_msg(&FileId { info_hash: HASH, i: 1 }, 2..7).unwrap();
    assert!(disk.can_read_slice(slice));

    // The piece is not downloaded.
    let block_info = BlockInfo { index: 1, begin: 2, len: 5 };
    assert_eq!(disk.read_slice_msg(slice), Ok(Some((false, block_info))));
    assert_eq!(disk.read_slice(slice, 42), ReadSlice::Wait);
    assert_eq!(
        disk.read_slice(slice, 43),
        ReadSlice::Fail(SliceError::Db(SliceDbError::MultipleRead)),
    );

    // The request is answered when the piece is downloaded.
    let block = Block { index: 1, begin: 0, block: vec![13, 14, 15, 16, 17, 18, 19, 20, 21, 22, 23, 24] };
    let writes = match disk.write_block(&HASH, block).unwrap() {
        WriteBlock::Complete(writes) => writes,
        other => panic!("{:?}", other),
    };
    for w in writes {
        files.insert(path_of(&disk, &w.path), w.bytes);
    }
    let done = disk.piece_written(&HASH, 1).unwrap();
    assert_eq!(done.piece_size, 12);
    assert_eq!(done.read_reqs.len(), 1);
    let (id, piece, req) = &done.read_reqs[0];
    assert_eq!((*id, *piece, req.block_info, req.recipient), (slice, 1, block_info, 42));
    let place = Place { file: file(12, &["bar", "baz.txt"]), offset: 2 };
    let base = texts(&["downloads", "qwerty"]);
    assert_eq!(disk.read_slice_block(slice, &req.block_info), Ok(BlockRead { base, place, len: 5 }));
    assert_eq!(read(&disk, &files, &req.block_info), vec![15, 16, 17, 18, 19]);

    // What was read is removed from the slice.
    assert_eq!(disk.remove_slice_prefix(slice, 3), Ok(()));
    assert_eq!(
        disk.read_slice(slice, 44),
        ReadSlice::Read(BlockInfo { index: 1, begin: 5, len: 2 }),
    );
    assert_eq!(disk.remove_slice_prefix(slice, 3), Err(SliceError::RemovePrefix));
    assert_eq!(disk.remove_slice_prefix(slice, 2), Ok(()));
    assert_eq!(disk.read_slice(slice, 45), ReadSlice::Empty);
    assert_eq!(disk.drop_slice(slice), Ok(()));
    let none = SliceError::Db(SliceDbError::NoSlice);
    assert_eq!(disk.drop_slice(slice), Err(none));
    assert_eq!(
        disk.read_slice(slice, 46),
        ReadSlice::Fail(SliceError::Db(SliceDbError::NoSlice)),
    );
    assert_eq!(
        disk.remove_slice_prefix(slice, 0),
        Err(SliceError::Db(SliceDbError::NoSlice)),
    );
    assert_eq!(
        disk.read_slice_block(slice, &block_info),
        Err(SliceError::Db(SliceDbError::NoSlice)),
    );
}

#[test]
fn slices_outside_the_files() {
    let mut disk = disk_with(&three_files());
    let slice = disk.new_slice_msg(&FileId { info_hash: HASH, i: 1 }, 2..7).unwrap();
    assert_eq!(
        disk.read_slice_block(slice, &BlockInfo { index: 3, begin: 0, len: 1 }),
        Err(SliceError::ReadBlock(Error::FileOpenError("Offset exceeds file sizes".to_string()))),
    );
}

#[test]
fn messages() {
    let info = three_files();
    let mut disk = Disk::new("d".to_string());
    let new_torrent = || DiskMsg::NewTorrent { torrent_ctx: torrent(&info), blocks: whole_pieces(&info) };
    assert!(matches!(disk.handle(new_torrent()), DiskAction::CreateTorrent(_)));
    assert!(matches!(
        disk.handle(new_torrent()),
        DiskAction::Stop(Err(Error::NoDuplicateTorrent)),
    ));
    let peer = PeerCtx { id: [1; 20], info_hash: HASH, pieces: vec![true; 3] };
    assert!(matches!(disk.handle(DiskMsg::NewPeer(peer)), DiskAction::Continue));
    let block_info = BlockInfo { index: 1, begin: 2, len: 3 };
    match disk.handle(DiskMsg::ReadBlock { info_hash: HASH, block_info }) {
        DiskAction::Read(read) => {
            let place = Place { file: file(12, &["bar", "baz.txt"]), offset: 2 };
            assert_eq!(read, BlockRead { base: texts(&["d", "qwerty"]), place, len: 3 });
        },
        other => panic!("{:?}", other),
    }
    assert!(matches!(
        disk.handle(DiskMsg::ReadBlock { info_hash: [1; 20], block_info }),
        DiskAction::Stop(Err(Error::InfoHashInvalid)),
    ));
    assert!(matches!(
        disk.handle(DiskMsg::ValidatePiece { info_hash: HASH, piece: 0 }),
        DiskAction::AnswerValidation(Err(Error::PieceInvalid)),
    ));
    assert!(matches!(
        disk.handle(DiskMsg::ValidatePiece { info_hash: HASH, piece: 3 }),
        DiskAction::Refuse,
    ));
    assert!(matches!(disk.handle(DiskMsg::OpenFile("a".to_string())), DiskAction::Open(_)));
    match disk.handle(DiskMsg::RequestBlocks { info_hash: HASH, peer_id: [1; 20], qnt: 2 }) {
        DiskAction::AnswerBlocks(blocks) => {
            assert_eq!(blocks.len(), 2);
            let back = DiskMsg::ReturnBlockInfos(HASH, blocks.into_iter().collect());
            assert!(matches!(disk.handle(back), DiskAction::BlockAvailable(HASH)));
        },
        other => panic!("{:?}", other),
    }
    match disk.handle(DiskMsg::RequestBlocks { info_hash: HASH, peer_id: [7; 20], qnt: 2 }) {
        DiskAction::AnswerBlocks(blocks) => assert!(blocks.is_empty()),
        other => panic!("{:?}", other),
    }
    let block = Block { index: 0, begin: 0, block: vec![1, 2, 3, 4, 5, 6, 7, 8, 9, 10, 11, 12] };
    match disk.handle(DiskMsg::WriteBlock { info_hash: HASH, block: block.clone() }) {
        DiskAction::Write { info_hash, index, base, writes } => {
            assert_eq!((info_hash, index), (HASH, 0));
            assert_eq!(base, texts(&["d", "qwerty"]));
            assert_eq!(writes.len(), 1);
            assert_eq!(writes[0].bytes, block.block);
            disk.piece_written(&info_hash, index).unwrap();
        },
        other => panic!("{:?}", other),
    }
    assert!(matches!(
        disk.handle(DiskMsg::WriteBlock { info_hash: HASH, block }),
        DiskAction::Write { index: 0, .. },
    ));
    let block = Block { index: 3, begin: 0, block: vec![1] };
    assert!(matches!(
        disk.handle(DiskMsg::WriteBlock { info_hash: HASH, block }),
        DiskAction::Stop(Err(Error::PieceIndexInvalid)),
    ));
    let path = texts(&["foo.txt"]);
    assert!(matches!(
        disk.handle(DiskMsg::FileByPath { info_hash: HASH, path }),
        DiskAction::AnswerFile(Ok(FileByPathR { i: 0, len: 12 })),
    ));
    let file_id = FileId { info_hash: HASH, i: 0 };
    let slice_id = match disk.handle(DiskMsg::NewSlice { file_id, range_in_file: 0..4 }) {
        DiskAction::AnswerSlice(Ok(slice_id)) => slice_id,
        other => panic!("{:?}", other),
    };
    assert!(matches!(
        disk.handle(DiskMsg::ReadSlice { slice_id, recipient: 1 }),
        DiskAction::ReadSlice(ReadSlice::Read(BlockInfo { index: 0, begin: 0, len: 4 })),
    ));
    assert!(matches!(
        disk.handle(DiskMsg::DropSlice { slice_id }),
        DiskAction::AnswerDrop(Ok(())),
    ));
    assert!(matches!(disk.handle(DiskMsg::Quit), DiskAction::Stop(Ok(()))));
}

#[test]
fn slices_are_read_to_their_end() {
    let info = Info {
        file_length: Some(36),
        name: "one".to_owned(),
        piece_length: 12,
        pieces: vec![0; 60],
        files: None,
    };
    let mut disk = Disk::new("d".to_string());
    let ctx = TorrentCtx { info_hash: HASH, info: info.clone(), bitfield: vec![true; 3] };
    disk.new_torrent(ctx, &whole_pieces(&info)).unwrap();
    let slice = disk.new_slice_msg(&FileId { info_hash: HASH, i: 0 }, 5..30).unwrap();
    let mut offset = 5;
    for (index, begin, len) in [(0, 5, 7), (1, 0, 12), (2, 0, 6)] {
        let block_info = BlockInfo { index, begin, len };
        assert_eq!(disk.read_slice(slice, 1), ReadSlice::Read(block_info));
        let read = disk.read_slice_block(slice, &block_info).unwrap();
        assert_eq!((read.place.offset, read.len), (offset, len));
        disk.remove_slice_prefix(slice, len).unwrap();
        offset += len as u64;
    }
    assert_eq!(offset, 30);
    assert_eq!(disk.read_slice(slice, 1), ReadSlice::Empty);
}

#[test]
fn returned_blocks_are_requested_again() {
    let info = three_files();
    let mut disk = Disk::new("d".to_string());
    let blocks: Vec<BlockInfo> = (0..3)
        .flat_map(|index| [0, 6].map(|begin| BlockInfo { index, begin, len: 6 }))
        .collect();
    disk.add_torrent(torrent(&info), vec![0, 1, 2], &blocks).unwrap();
    disk.new_peer(PeerCtx { id: [1; 20], info_hash: HASH, pieces: vec![true; 3] });
    let first: Vec<BlockInfo> = disk.request_blocks(&HASH, &[1; 20], 6).unwrap().into();
    assert_eq!(first, blocks);
    assert!(disk.request_blocks(&HASH, &[1; 20], 6).unwrap().is_empty());
    disk.return_block_infos(&HASH, &first).unwrap();
    assert_eq!(disk.request_blocks(&HASH, &[1; 20], 6).unwrap(), blocks);
}

#[test]
fn blocks_are_queued_once() {
    let info = three_files();
    let block = |begin: u32| BlockInfo { index: 0, begin, len: 6 };
    let mut disk = Disk::new("d".to_string());
    disk.add_torrent(torrent(&info), vec![0, 1, 2], &vec![block(0), block(6)]).unwrap();
    // A block is given back that is still queued.
    disk.return_block_infos(&HASH, &vec![block(6)]).unwrap();
    assert_eq!(disk.torrent(&HASH).unwrap().pieces_blocks[0], vec![block(0), block(6), block(6)]);
    let zeros = |begin: u32| Block { index: 0, begin, block: vec![0; 6] };
    assert_eq!(disk.write_block(&HASH, zeros(6)), Ok(WriteBlock::Cached));
    assert_eq!(disk.write_block(&HASH, zeros(0)), Ok(WriteBlock::Corrupted));
    assert_eq!(disk.torrent(&HASH).unwrap().pieces_blocks[0], vec![block(0), block(6)]);
}

#[test]
fn only_given_pieces_are_recorded() {
    let mut disk = disk_with(&three_files());
    disk.set_piece_strategy(&HASH, PieceStrategy::Sequential);
    assert!(!disk.can_record_piece(&HASH, 0));
    assert_eq!(
        disk.write_block(&HASH, Block { index: 0, begin: 0, block: vec![0; 12] }),
        Ok(WriteBlock::Corrupted),
    );
    assert!(!disk.can_record_piece(&HASH, 0));
    assert!(matches!(disk.write_block(&HASH, first_piece()), Ok(WriteBlock::Complete(_))));
    assert!(disk.can_record_piece(&HASH, 0));
    assert!(!disk.can_record_piece(&HASH, 1));
    assert!(!disk.can_record_piece(&HASH, 3));
    disk.piece_written(&HASH, 0).unwrap();
    assert!(!disk.can_record_piece(&HASH, 0));
    assert_eq!(disk.torrent(&HASH).unwrap().bitfield, vec![true, false, false]);
}

#[test]
fn files_with_the_same_path() {
    // The piece 0 of `write_out_of_order`, in two files with the same path.
    let info = Info {
        file_length: None,
        name: "same".to_owned(),
        piece_length: 3,
        pieces: vec![
            25, 24, 125, 201, 141, 206, 82, 250, 76, 78, 142, 5, 179, 65, 169, 183, 122, 81, 253, 38,
        ],
        files: Some(vec![file(1, &["a/b"]), file(2, &["a", "b"])]),
    };
    let mut disk = disk_with(&info);
    let early = Block { index: 0, begin: 0, block: b"2".to_vec() };
    let late = Block { index: 0, begin: 1, block: b"13".to_vec() };
    assert_eq!(disk.write_block(&HASH, late), Ok(WriteBlock::Cached));
    match disk.write_block(&HASH, early) {
        Ok(WriteBlock::Complete(writes)) => {
            assert_eq!(writes.len(), 1);
            assert_eq!(writes[0].path, texts(&["a/b"]));
            assert_eq!((writes[0].offset, writes[0].bytes.as_slice()), (0, b"213".as_slice()));
        },
        other => panic!("{:?}", other),
    }
}
