//! What holds of the plan to write a piece to files.
use crate::disk::block_laws::{data_of, data_of_push};
use crate::disk::layout::{block_place, disk_files};
use crate::disk::layout_laws::{size_is_total_length, total_length};
use crate::disk::write_plan::{
    first_same_path, piece_offset_in_file, write_plan, writes_to, WriteData,
};
use crate::metainfo::{FileData, InfoData};
use crate::paths::{path_data, same_path, PathData};
use crate::tcp_wire::BlockData;
use vstd::prelude::*;

verus! {

/// The blocks of `blocks` that start in a file whose path is the same as `path`.
pub open spec fn blocks_in(info: InfoData, blocks: Seq<BlockData>, path: Seq<Seq<char>>) -> Seq<
    BlockData,
> {
    blocks.filter(|b: BlockData| same_path(start_path(info, b), path))
}

/// The path of the file that `block` starts in.
pub open spec fn start_path(info: InfoData, block: BlockData) -> Seq<Seq<char>> {
    block_place(info, block.info())->0.file.path
}

/// The data of the blocks with the key `key`.
spec fn group<K>(blocks: Seq<BlockData>, of: spec_fn(BlockData) -> K, key: K) -> Seq<u8> {
    data_of(blocks.filter(|b: BlockData| of(b) == key))
}

/// Whether `bytes` are the data of `blocks`, grouped by the keys of the blocks.
spec fn is_grouped<K>(
    blocks: Seq<BlockData>,
    of: spec_fn(BlockData) -> K,
    keys: Seq<K>,
    bytes: Seq<Seq<u8>>,
) -> bool {
    &&& keys.len() == bytes.len()
    &&& keys.no_duplicates()
    &&& forall|v: int| 0 <= v < keys.len() ==> bytes[v] == group(blocks, of, #[trigger] keys[v])
    &&& forall|k: int| 0 <= k < blocks.len() ==> keys.contains(of(#[trigger] blocks[k]))
}

proof fn no_group<K>(blocks: Seq<BlockData>, of: spec_fn(BlockData) -> K, key: K)
    requires
        forall|k: int| 0 <= k < blocks.len() ==> of(#[trigger] blocks[k]) != key,
    ensures
        group(blocks, of, key) == Seq::<u8>::empty(),
    decreases blocks.len(),
{
    reveal(Seq::filter);
    if blocks.len() > 0 {
        let front = blocks.drop_last();
        assert forall|k: int| 0 <= k < front.len() implies of(#[trigger] front[k]) != key by {
            assert(blocks[k] == front[k]);
        }
        no_group(front, of, key);
        assert(of(blocks[blocks.len() - 1]) != key);
    } else {
        assert(data_of(Seq::<BlockData>::empty()) =~= Seq::<u8>::empty());
    }
}

proof fn group_push<K>(
    blocks: Seq<BlockData>,
    of: spec_fn(BlockData) -> K,
    key: K,
    block: BlockData,
)
    ensures
        group(blocks.push(block), of, key) == if of(block) == key {
            group(blocks, of, key) + block.block
        } else {
            group(blocks, of, key)
        },
{
    reveal(Seq::filter);
    let pred = |b: BlockData| of(b) == key;
    assert(blocks.push(block).drop_last() =~= blocks);
    if of(block) == key {
        data_of_push(blocks.filter(pred), block);
    }
}

/// A block with a key of a group joins this group.
proof fn block_joins_group<K>(
    blocks: Seq<BlockData>,
    of: spec_fn(BlockData) -> K,
    keys: Seq<K>,
    bytes: Seq<Seq<u8>>,
    block: BlockData,
    w: int,
)
    requires
        is_grouped(blocks, of, keys, bytes),
        0 <= w < keys.len(),
        keys[w] == of(block),
    ensures
        is_grouped(blocks.push(block), of, keys, bytes.update(w, bytes[w] + block.block)),
{
    let after = bytes.update(w, bytes[w] + block.block);
    assert forall|v: int| 0 <= v < keys.len() implies after[v] == group(
        blocks.push(block),
        of,
        #[trigger] keys[v],
    ) by {
        group_push(blocks, of, keys[v], block);
    }
    assert forall|k: int| 0 <= k < blocks.push(block).len() implies keys.contains(
        of(#[trigger] blocks.push(block)[k]),
    ) by {
        if k < blocks.len() {
            assert(blocks.push(block)[k] == blocks[k]);
        }
    }
}

/// A block with another key starts a group.
proof fn block_starts_group<K>(
    blocks: Seq<BlockData>,
    of: spec_fn(BlockData) -> K,
    keys: Seq<K>,
    bytes: Seq<Seq<u8>>,
    block: BlockData,
)
    requires
        is_grouped(blocks, of, keys, bytes),
        !keys.contains(of(block)),
    ensures
        is_grouped(blocks.push(block), of, keys.push(of(block)), bytes.push(block.block)),
{
    let all = keys.push(of(block));
    let after = bytes.push(block.block);
    assert forall|v: int| 0 <= v < all.len() implies after[v] == group(
        blocks.push(block),
        of,
        #[trigger] all[v],
    ) by {
        group_push(blocks, of, all[v], block);
        if v < keys.len() {
            assert(all[v] == keys[v]);
            assert(keys.contains(keys[v]));
        } else {
            assert forall|k: int| 0 <= k < blocks.len() implies of(#[trigger] blocks[k]) != all[v] by {
                assert(keys.contains(of(blocks[k])));
            }
            no_group(blocks, of, all[v]);
            assert(Seq::<u8>::empty() + block.block =~= block.block);
        }
    }
    assert forall|k: int| 0 <= k < blocks.push(block).len() implies all.contains(
        of(#[trigger] blocks.push(block)[k]),
    ) by {
        if k < blocks.len() {
            assert(blocks.push(block)[k] == blocks[k]);
            let i = keys.index_of(of(blocks[k]));
            assert(all[i] == of(blocks[k]));
        } else {
            assert(all[keys.len() as int] == of(block));
        }
    }
    assert(all.no_duplicates()) by {
        assert forall|i: int, j: int|
            0 <= i < all.len() && 0 <= j < all.len() && i != j implies all[i] != all[j] by {
            if i == keys.len() {
                assert(keys.contains(keys[j]));
            } else if j == keys.len() {
                assert(keys.contains(keys[i]));
            }
        }
    }
}

/// The keys of the paths of `writes`.
spec fn keys_of(writes: Seq<WriteData>) -> Seq<PathData> {
    writes.map_values(|w: WriteData| path_data(w.path))
}

/// The bytes of `writes`.
spec fn bytes_of(writes: Seq<WriteData>) -> Seq<Seq<u8>> {
    writes.map_values(|w: WriteData| w.bytes)
}

proof fn plan_is_grouped(
    info: InfoData,
    piece: int,
    blocks: Seq<BlockData>,
    writes: Seq<WriteData>,
    of: spec_fn(BlockData) -> PathData,
)
    requires
        write_plan(info, piece, blocks) == Some(writes),
        of == (|b: BlockData| path_data(start_path(info, b))),
    ensures
        is_grouped(blocks, of, keys_of(writes), bytes_of(writes)),
    decreases blocks.len(),
{
    if blocks.len() > 0 {
        let front = blocks.drop_last();
        let block = blocks.last();
        let before = write_plan(info, piece, front)->0;
        let path = start_path(info, block);
        plan_is_grouped(info, piece, front, before, of);
        let keys = keys_of(before);
        assert(blocks =~= front.push(block));
        assert(of(block) == path_data(path));
        if exists|i: int| writes_to(before, path, i) {
            let w = choose|i: int| writes_to(before, path, i);
            assert(keys[w] == of(block));
            block_joins_group(front, of, keys, bytes_of(before), block, w);
            assert(keys_of(writes) =~= keys);
            assert(bytes_of(writes) =~= bytes_of(before).update(
                w,
                bytes_of(before)[w] + block.block,
            ));
        } else {
            assert(!keys.contains(of(block))) by {
                if keys.contains(of(block)) {
                    let i = keys.index_of(of(block));
                    assert(writes_to(before, path, i));
                }
            }
            block_starts_group(front, of, keys, bytes_of(before), block);
            assert(keys_of(writes) =~= keys.push(of(block)));
            assert(bytes_of(writes) =~= bytes_of(before).push(block.block));
        }
    }
}

/// Every file that a block starts in is written to once.
/// The bytes to write to a file are the data of the blocks that start in it,
/// in the order of the blocks.
pub proof fn plan_groups_blocks(
    info: InfoData,
    piece: int,
    blocks: Seq<BlockData>,
    writes: Seq<WriteData>,
)
    requires
        write_plan(info, piece, blocks) == Some(writes),
    ensures
        forall|v: int, w: int|
            0 <= v < writes.len() && 0 <= w < writes.len() && v != w ==> !same_path(
                (#[trigger] writes[v]).path,
                (#[trigger] writes[w]).path,
            ),
        forall|w: int|
            0 <= w < writes.len() ==> (#[trigger] writes[w]).bytes == data_of(
                blocks_in(info, blocks, writes[w].path),
            ),
        forall|k: int|
            0 <= k < blocks.len() ==> exists|w: int|
                0 <= w < writes.len() && same_path(
                    start_path(info, #[trigger] blocks[k]),
                    (#[trigger] writes[w]).path,
                ),
{
    let of = |b: BlockData| path_data(start_path(info, b));
    plan_is_grouped(info, piece, blocks, writes, of);
    let keys = keys_of(writes);
    assert forall|v: int, w: int|
        0 <= v < writes.len() && 0 <= w < writes.len() && v != w implies !same_path(
        (#[trigger] writes[v]).path,
        (#[trigger] writes[w]).path,
    ) by {
        assert(keys[v] != keys[w]);
    }
    assert forall|w: int| 0 <= w < writes.len() implies (#[trigger] writes[w]).bytes == data_of(
        blocks_in(info, blocks, writes[w].path),
    ) by {
        let path = writes[w].path;
        assert(bytes_of(writes)[w] == group(blocks, of, keys[w]));
        assert((|b: BlockData| same_path(start_path(info, b), path)) =~= (|b: BlockData|
            of(b) == keys[w]));
    }
    assert forall|k: int| 0 <= k < blocks.len() implies exists|w: int|
        0 <= w < writes.len() && same_path(
            start_path(info, #[trigger] blocks[k]),
            (#[trigger] writes[w]).path,
        ) by {
        assert(keys.contains(of(blocks[k])));
        let w = keys.index_of(of(blocks[k]));
        assert(same_path(start_path(info, blocks[k]), writes[w].path));
    }
}

/// A file is written to from where the piece starts in it,
/// and only files that a block starts in are written to.
pub proof fn plan_writes_to_files_of_blocks(
    info: InfoData,
    piece: int,
    blocks: Seq<BlockData>,
    writes: Seq<WriteData>,
)
    requires
        write_plan(info, piece, blocks) == Some(writes),
    ensures
        forall|w: int|
            0 <= w < writes.len() ==> (#[trigger] writes[w]).offset == piece_offset_in_file(
                info,
                piece,
                writes[w].path,
            ) && exists|k: int|
                0 <= k < blocks.len() && start_path(info, #[trigger] blocks[k]) == writes[w].path,
    decreases blocks.len(),
{
    if blocks.len() > 0 {
        let front = blocks.drop_last();
        let before = write_plan(info, piece, front)->0;
        plan_writes_to_files_of_blocks(info, piece, front, before);
        assert forall|w: int| 0 <= w < writes.len() implies (#[trigger] writes[w]).offset
            == piece_offset_in_file(info, piece, writes[w].path) && exists|k: int|
            0 <= k < blocks.len() && start_path(info, #[trigger] blocks[k]) == writes[w].path by {
            if w < before.len() {
                assert(writes[w].path == before[w].path && writes[w].offset == before[w].offset);
                let k = choose|k: int|
                    0 <= k < front.len() && start_path(info, #[trigger] front[k])
                        == before[w].path;
                assert(blocks[k] == front[k]);
            } else {
                assert(start_path(info, blocks[blocks.len() - 1]) == writes[w].path);
            }
        }
    }
}

/// The data of a piece in a file are written where the piece starts in this file,
/// or at the beginning of the file if the piece starts before it.
pub proof fn piece_is_written_where_it_starts(
    info: InfoData,
    files: Seq<FileData>,
    piece: int,
    i: int,
)
    requires
        info.files == Some(files),
        0 <= i < files.len(),
        forall|j: int, k: int|
            0 <= j < files.len() && 0 <= k < files.len() && j != k ==> !same_path(
                (#[trigger] files[j]).path,
                (#[trigger] files[k]).path,
            ),
    ensures
        ({
            let from = piece * info.piece_length - total_length(files.take(i));
            piece_offset_in_file(info, piece, files[i].path) == if from >= 0 {
                from
            } else {
                0
            }
        }),
{
    let all = disk_files(info);
    let path = files[i].path;
    size_is_total_length(files.take(i));
    assert forall|j: int| 0 <= j < i implies !same_path((#[trigger] all[j]).path, path) by {
        assert(!same_path(files[j].path, files[i].path));
    }
    assert(first_same_path(all, path, i));
    let k = choose|k: int| first_same_path(all, path, k);
    if k != i {
        assert(same_path(files[k].path, files[i].path));
    }
}

/// The data of a piece of a single-file torrent are written where the piece starts.
pub proof fn piece_is_written_to_only_file(info: InfoData, piece: int)
    requires
        info.files is None,
        0 <= piece,
    ensures
        piece_offset_in_file(info, piece, seq![info.name]) == piece * info.piece_length,
{
    let all = disk_files(info);
    assert(0 <= piece * info.piece_length) by (nonlinear_arith)
        requires
            0 <= piece,
    ;
    assert(first_same_path(all, seq![info.name], 0));
    let k = choose|k: int| first_same_path(all, seq![info.name], k);
}

} // verus!
