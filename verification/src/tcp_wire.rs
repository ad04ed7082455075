//! Blocks: the pieces of data that peers exchange.
use crate::order::Sortable;
use vstd::prelude::*;
use vstd::relations::*;

verus! {

/// The usual length of a block in bytes.
pub const BLOCK_LEN: u32 = 16384;

/// The place of a block in a torrent.
#[derive(Clone, Copy, Debug, PartialEq, Eq, Hash, PartialOrd, Ord, Structural)]
pub struct BlockInfo {
    /// The index of the piece the block belongs to.
    pub index: u32,
    /// The offset of the block in the piece in bytes.
    pub begin: u32,
    /// The length of the block in bytes.
    pub len: u32,
}

/// A block with its data.
#[derive(Debug, PartialEq, Eq)]
pub struct Block {
    /// The index of the piece the block belongs to.
    pub index: usize,
    /// The offset of the block in the piece in bytes.
    pub begin: u32,
    /// The data of the block.
    pub block: Vec<u8>,
}

/// What a [`Block`] holds.
pub ghost struct BlockData {
    pub index: usize,
    pub begin: u32,
    pub block: Seq<u8>,
}

impl View for Block {
    type V = BlockData;

    open spec fn view(&self) -> BlockData {
        BlockData { index: self.index, begin: self.begin, block: self.block@ }
    }
}

impl Clone for Block {
    fn clone(&self) -> (res: Self)
        ensures
            res@ == self@,
    {
        let block = self.block.clone();
        assert(block@ =~= self.block@);
        Block { index: self.index, begin: self.begin, block }
    }
}

impl BlockData {
    /// The place of the block. A piece index and a length that exceed 32 bits are truncated.
    pub open spec fn info(self) -> BlockInfo {
        BlockInfo {
            index: self.index as u32,
            begin: self.begin,
            len: self.block.len() as u32,
        }
    }
}

impl BlockInfo {
    /// The place of `block`. A piece index and a length that exceed 32 bits are truncated.
    pub fn of(block: &Block) -> (res: Self)
        ensures
            res == block@.info(),
    {
        BlockInfo {
            index: block.index as u32,
            begin: block.begin,
            len: block.block.len() as u32,
        }
    }
}

impl Sortable for BlockInfo {
    type Key = BlockInfo;

    open spec fn key(self) -> BlockInfo {
        self
    }

    open spec fn leq(a: BlockInfo, b: BlockInfo) -> bool {
        a.index < b.index || (a.index == b.index && (a.begin < b.begin || (a.begin == b.begin
            && a.len <= b.len)))
    }

    proof fn leq_is_total_ordering() {
    }

    fn at_most(&self, other: &Self) -> (r: bool) {
        self.index < other.index || (self.index == other.index && (self.begin < other.begin || (
        self.begin == other.begin && self.len <= other.len)))
    }
}

/// Whether the byte string `a` is at most `b` in the lexicographic order.
pub open spec fn bytes_leq(a: Seq<u8>, b: Seq<u8>) -> bool
    decreases a.len(),
{
    a.len() == 0 || (b.len() > 0 && (a[0] < b[0] || (a[0] == b[0] && bytes_leq(
        a.skip(1),
        b.skip(1),
    ))))
}

proof fn bytes_leq_reflexive(a: Seq<u8>)
    ensures
        bytes_leq(a, a),
    decreases a.len(),
{
    if a.len() > 0 {
        bytes_leq_reflexive(a.skip(1));
    }
}

proof fn bytes_leq_antisymmetric(a: Seq<u8>, b: Seq<u8>)
    requires
        bytes_leq(a, b),
        bytes_leq(b, a),
    ensures
        a == b,
    decreases a.len(),
{
    if a.len() > 0 {
        bytes_leq_antisymmetric(a.skip(1), b.skip(1));
        assert(a =~= seq![a[0]] + a.skip(1));
        assert(b =~= seq![b[0]] + b.skip(1));
    } else {
        assert(a =~= b);
    }
}

proof fn bytes_leq_transitive(a: Seq<u8>, b: Seq<u8>, c: Seq<u8>)
    requires
        bytes_leq(a, b),
        bytes_leq(b, c),
    ensures
        bytes_leq(a, c),
    decreases a.len(),
{
    if a.len() > 0 && a[0] == b[0] && b[0] == c[0] {
        bytes_leq_transitive(a.skip(1), b.skip(1), c.skip(1));
    }
}

proof fn bytes_leq_connected(a: Seq<u8>, b: Seq<u8>)
    ensures
        bytes_leq(a, b) || bytes_leq(b, a),
    decreases a.len(),
{
    if a.len() > 0 && b.len() > 0 {
        bytes_leq_connected(a.skip(1), b.skip(1));
    }
}

/// Compares `a` with `b` in the lexicographic order.
fn bytes_at_most(a: &Vec<u8>, b: &Vec<u8>) -> (r: bool)
    ensures
        r == bytes_leq(a@, b@),
{
    let mut i: usize = 0;
    assert(a@.skip(0) =~= a@ && b@.skip(0) =~= b@);
    while i < a.len() && i < b.len() && a[i] == b[i]
        invariant
            i <= a.len(),
            i <= b.len(),
            bytes_leq(a@, b@) == bytes_leq(a@.skip(i as int), b@.skip(i as int)),
        decreases a.len() - i,
    {
        assert(a@.skip(i as int).skip(1) =~= a@.skip(i + 1));
        assert(b@.skip(i as int).skip(1) =~= b@.skip(i + 1));
        i += 1;
    }
    i == a.len() || (i < b.len() && a[i] < b[i])
}

impl Sortable for Block {
    type Key = BlockData;

    open spec fn key(self) -> BlockData {
        self@
    }

    /// Blocks are ordered by their piece index, then by their offset, then by their data.
    open spec fn leq(a: BlockData, b: BlockData) -> bool {
        a.index < b.index || (a.index == b.index && (a.begin < b.begin || (a.begin == b.begin
            && bytes_leq(a.block, b.block))))
    }

    proof fn leq_is_total_ordering() {
        let r = |a: BlockData, b: BlockData| Self::leq(a, b);
        assert forall|x: BlockData| #[trigger] r(x, x) by {
            bytes_leq_reflexive(x.block);
        }
        assert forall|x: BlockData, y: BlockData| #[trigger] r(x, y) && #[trigger] r(y, x) implies x
            == y by {
            bytes_leq_antisymmetric(x.block, y.block);
        }
        assert forall|x: BlockData, y: BlockData, z: BlockData| #[trigger]
            r(x, y) && #[trigger] r(y, z) implies r(x, z) by {
            if x.index == y.index && y.index == z.index && x.begin == y.begin && y.begin
                == z.begin {
                bytes_leq_transitive(x.block, y.block, z.block);
            }
        }
        assert forall|x: BlockData, y: BlockData| #[trigger] r(x, y) || #[trigger] r(y, x) by {
            bytes_leq_connected(x.block, y.block);
        }
    }

    fn at_most(&self, other: &Self) -> (r: bool) {
        self.index < other.index || (self.index == other.index && (self.begin < other.begin || (
        self.begin == other.begin && bytes_at_most(&self.block, &other.block))))
    }
}

/// The place of a block is told by its piece, its offset and the number of its bytes.
pub proof fn place_of_block(block: BlockData)
    requires
        block.index <= u32::MAX,
        block.block.len() <= u32::MAX,
    ensures
        block.info().index == block.index,
        block.info().begin == block.begin,
        block.info().len == block.block.len(),
{
}

/// Blocks are ordered by their pieces, then by their offsets; of blocks at one place
/// the one with the smaller byte stands first where their data differ first,
/// and one whose data the other starts with.
pub proof fn blocks_are_ordered(a: BlockData, b: BlockData, start: Seq<u8>, x: Seq<u8>, y: Seq<u8>)
    requires
        a.block == start + x,
        b.block == start + y,
        x.len() > 0 && y.len() > 0 ==> x[0] != y[0],
    ensures
        a.index < b.index ==> Block::leq(a, b) && !Block::leq(b, a),
        a.index == b.index && a.begin < b.begin ==> Block::leq(a, b) && !Block::leq(b, a),
        a.index == b.index && a.begin == b.begin ==> (Block::leq(a, b) <==> x.len() == 0 || (
        y.len() > 0 && x[0] < y[0])),
{
    common_start(start, x, y);
}

proof fn common_start(start: Seq<u8>, x: Seq<u8>, y: Seq<u8>)
    requires
        x.len() > 0 && y.len() > 0 ==> x[0] != y[0],
    ensures
        bytes_leq(start + x, start + y) <==> x.len() == 0 || (y.len() > 0 && x[0] < y[0]),
    decreases start.len(),
{
    let a = start + x;
    let b = start + y;
    if start.len() > 0 {
        common_start(start.skip(1), x, y);
        assert(a.skip(1) =~= start.skip(1) + x);
        assert(b.skip(1) =~= start.skip(1) + y);
    } else {
        assert(a =~= x && b =~= y);
    }
}

/// Places are ordered by their pieces, then by their offsets, then by their lengths.
pub proof fn places_are_ordered(a: BlockInfo, b: BlockInfo)
    ensures
        BlockInfo::leq(a, b) && BlockInfo::leq(b, a) <==> a == b,
        a.index < b.index ==> BlockInfo::leq(a, b) && !BlockInfo::leq(b, a),
        a.index == b.index && a.begin < b.begin ==> BlockInfo::leq(a, b) && !BlockInfo::leq(b, a),
        a.index == b.index && a.begin == b.begin && a.len < b.len ==> BlockInfo::leq(a, b)
            && !BlockInfo::leq(b, a),
{
}

} // verus!
