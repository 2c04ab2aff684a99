//! The shape of the tree over a blob: which node covers which bytes.
use vstd::arithmetic::power2::*;
use vstd::prelude::*;

use crate::node;
use crate::node::{LeafNode, TreeNode};
use crate::num;
use crate::num::{BlockSize, ByteNum, ChunkNum};
use crate::pow;

verus! {

/// A tree over the blocks of a blob. It knows sizes, and no data.
#[derive(Clone, Copy, Debug, PartialEq, Eq, Structural)]
pub struct BaoTree {
    /// The length of the blob.
    pub size: ByteNum,
    /// The size of the blocks at the leaves.
    pub block_size: BlockSize,
    /// The number of the first chunk; zero unless the blob is a part of another.
    pub start_chunk: ChunkNum,
}

/// The number of levels above the lowest in a tree of `blocks` blocks.
pub open spec fn tree_level(blocks: nat) -> nat
    decreases blocks,
{
    if blocks <= 2 {
        0
    } else {
        1 + tree_level((blocks + 1) / 2)
    }
}

/// The smaller of two numbers.
pub open spec fn min(a: nat, b: nat) -> nat {
    if a <= b {
        a
    } else {
        b
    }
}

impl BaoTree {
    /// The sizes are ones that the arithmetic of this crate can hold.
    pub open spec fn valid(self) -> bool {
        &&& self.block_size.valid()
        &&& self.start_chunk.0 + self.size.0 / 1024 < u64::MAX
    }

    /// The tree is valid and that of a whole blob.
    pub open spec fn self_contained(self) -> bool {
        &&& self.valid()
        &&& self.start_chunk.0 == 0
    }

    /// The number of blocks; an empty blob has one, which is empty.
    pub open spec fn spec_blocks(self) -> nat {
        if self.size.0 == 0 {
            1
        } else {
            ((self.size.0 - 1) / self.block_size.spec_bytes() as int + 1) as nat
        }
    }

    /// The number of nodes.
    pub open spec fn spec_filled_size(self) -> nat {
        (2 * ((self.spec_blocks() + 1) / 2) - 1) as nat
    }

    /// The number of chunks; an empty blob has one, which is empty.
    pub open spec fn chunk_end(self) -> nat {
        if self.size.0 == 0 {
            1
        } else {
            num::chunks_of(self.size.0 as nat)
        }
    }

    /// The level of the root.
    pub open spec fn root_level(self) -> nat {
        tree_level(self.spec_blocks())
    }

    /// The root.
    pub open spec fn spec_root(self) -> TreeNode {
        TreeNode(node::node_at(0, self.root_level()) as u64)
    }

    /// The offset at which block `block` starts, or the end of the blob.
    pub open spec fn byte_at(self, block: nat) -> nat {
        min(block * self.block_size.spec_bytes(), self.size.0 as nat)
    }

    /// The number, within the blob, of the first chunk of block `block`, or of
    /// the chunk after the last.
    pub open spec fn chunk_at(self, block: nat) -> nat {
        min(block * self.block_size.spec_chunks(), self.chunk_end())
    }

    /// Whether the tree has a node of level `level` whose first block is `start`.
    pub open spec fn has_node(self, start: nat, level: nat) -> bool {
        &&& start % pow2(level + 1) == 0
        &&& start < self.spec_blocks()
        &&& level > 0 ==> start + pow2(level) < self.spec_blocks()
    }

    /// Whether the second block that a leaf covers is missing.
    pub open spec fn half_leaf(self, start: nat) -> bool {
        start + 1 >= self.spec_blocks()
    }

    /// Whether a node has two children, or two blocks, and so a hash pair.
    pub open spec fn has_pair(self, start: nat, level: nat) -> bool {
        level > 0 || !self.half_leaf(start)
    }

    /// The level of the right child of a node.
    pub open spec fn right_level(self, start: nat, level: nat) -> nat {
        node::fit_level(
            start + pow2(level),
            (level - 1) as nat,
            self.spec_filled_size(),
        )
    }

    /// Whether a node is the root.
    pub open spec fn is_root(self, start: nat, level: nat) -> bool {
        start == 0 && level == self.root_level()
    }

    /// A tree over a blob of its own.
    pub fn new(size: ByteNum, block_size: BlockSize) -> (r: BaoTree)
        ensures
            r == (BaoTree { size, block_size, start_chunk: ChunkNum(0) }),
    {
        Self::new_with_start_chunk(size, block_size, ChunkNum(0))
    }

    /// A tree over a part of a blob.
    pub fn new_with_start_chunk(size: ByteNum, block_size: BlockSize, start_chunk: ChunkNum) -> (r:
        BaoTree)
        ensures
            r == (BaoTree { size, block_size, start_chunk }),
    {
        BaoTree { size, block_size, start_chunk }
    }

    /// The number of blocks.
    pub fn blocks(&self) -> (r: u64)
        requires
            self.valid(),
        ensures
            r == self.spec_blocks(),
            1 <= r <= 0x40_0000_0000_0000,
    {
        proof {
            self.lemma_blocks();
        }
        if self.size.0 == 0 {
            1
        } else {
            (self.size.0 - 1) / self.block_size.bytes() as u64 + 1
        }
    }

    /// The number of chunks.
    pub fn chunks(&self) -> (r: ChunkNum)
        ensures
            r.0 == num::chunks_of(self.size.0 as nat),
    {
        self.size.chunks()
    }

    /// The number of nodes.
    pub fn filled_size(&self) -> (r: TreeNode)
        requires
            self.valid(),
        ensures
            r.0 == self.spec_filled_size(),
            r.0 <= 0x40_0000_0000_0001,
    {
        let n: u64 = (self.blocks() + 1) / 2;
        TreeNode(n + (n - 1))
    }

    /// The root.
    pub fn root(&self) -> (r: TreeNode)
        requires
            self.valid(),
        ensures
            r == self.spec_root(),
            r.spec_start() == 0,
            r.spec_level() == self.root_level(),
            self.has_node(0, self.root_level()),
            r.0 < self.spec_filled_size(),
    {
        let blocks: u64 = self.blocks();
        let mut n: u64 = blocks;
        let mut p: u64 = 1;
        let ghost mut l: nat = 0;
        proof {
            pow::lemma_pow2_step(0);
        }
        while n > 2
            invariant
                blocks == self.spec_blocks(),
                blocks <= 0x40_0000_0000_0000,
                self.root_level() == l + tree_level(n as nat),
                p == pow2(l),
                p >= 1,
                (n - 1) * p < blocks <= n * p,
                1 <= n <= blocks,
            decreases n,
        {
            proof {
                pow::lemma_pow2_step(l);
                let m = (n + 1) / 2;
                assert((m - 1) * (2 * p) < blocks <= m * (2 * p)) by (nonlinear_arith)
                    requires
                        m == (n + 1) / 2,
                        n >= 1,
                        p >= 1,
                        (n - 1) * p < blocks <= n * p,
                ;
                assert(2 * p < blocks) by (nonlinear_arith)
                    requires
                        n > 2,
                        p >= 1,
                        (n - 1) * p < blocks,
                ;
                l = l + 1;
            }
            n = (n + 1) / 2;
            p = 2 * p;
        }
        proof {
            self.lemma_root();
            node::lemma_node_at(0, self.root_level());
            pow::lemma_pow2_step(self.root_level());
        }
        TreeNode(p - 1)
    }

    /// The number of chunks in a block.
    pub fn chunk_group_chunks(&self) -> (r: ChunkNum)
        requires
            self.valid(),
        ensures
            r.0 == self.block_size.spec_chunks(),
            r.0 <= isize::MAX / 1024,
    {
        ChunkNum(self.block_size.chunks())
    }

    /// The number of bytes in a block.
    pub fn chunk_group_bytes(&self) -> (r: ByteNum)
        requires
            self.valid(),
        ensures
            r.0 == self.block_size.spec_bytes(),
            r.0 <= isize::MAX,
    {
        ByteNum(self.block_size.bytes() as u64)
    }

    /// The number of the first chunk that a leaf covers.
    pub fn chunk_num(&self, leaf: LeafNode) -> (r: ChunkNum)
        requires
            self.valid(),
            leaf.0 < self.spec_blocks(),
        ensures
            r.0 == self.start_chunk.0 + leaf.0 * self.block_size.spec_chunks(),
            r.0 <= self.start_chunk.0 + self.size.0 / 1024,
    {
        proof {
            self.lemma_block_start(leaf.0 as nat);
        }
        ChunkNum(self.start_chunk.0 + leaf.0 * self.block_size.chunks())
    }

    /// The offsets of the start, the middle and the end of what a leaf covers.
    pub fn leaf_byte_ranges3(&self, leaf: LeafNode) -> (r: (ByteNum, ByteNum, ByteNum))
        requires
            self.valid(),
            leaf.0 < self.spec_blocks(),
        ensures
            r.0.0 == self.byte_at(leaf.0 as nat),
            r.0.0 == leaf.0 * self.block_size.spec_bytes(),
            r.1.0 == self.byte_at(leaf.0 as nat + 1),
            r.2.0 == self.byte_at(leaf.0 as nat + 2),
            r.0.0 <= r.1.0 <= r.2.0 <= self.size.0,
            r.1.0 - r.0.0 <= self.block_size.spec_bytes(),
            r.2.0 - r.1.0 <= self.block_size.spec_bytes(),
            r.1.0 == r.2.0 <==> self.half_leaf(leaf.0 as nat),
    {
        let block: u64 = self.block_size.bytes() as u64;
        proof {
            self.lemma_block_start(leaf.0 as nat);
            self.lemma_blocks();
            assert(leaf.0 * block + block == (leaf.0 + 1) * block) by (nonlinear_arith);
            assert(leaf.0 * block + 2 * block == (leaf.0 + 2) * block) by (nonlinear_arith);
            if leaf.0 + 1 < self.spec_blocks() {
                self.lemma_block_start(leaf.0 as nat + 1);
            } else {
                self.lemma_past_end(leaf.0 as nat + 1);
            }
        }
        let start: u64 = leaf.0 * block;
        let mid: u64 = if self.size.0 - start <= block {
            self.size.0
        } else {
            start + block
        };
        let end: u64 = if self.size.0 - mid <= block {
            self.size.0
        } else {
            mid + block
        };
        (ByteNum(start), ByteNum(mid), ByteNum(end))
    }

    /// The number of blocks is the least that holds the blob.
    pub proof fn lemma_blocks(self)
        requires
            self.valid(),
        ensures
            self.block_size.spec_bytes() >= 1024,
            self.spec_blocks() >= 1,
            self.size.0 <= self.spec_blocks() * self.block_size.spec_bytes(),
            self.spec_blocks() > 1 ==> (self.spec_blocks() - 1) * self.block_size.spec_bytes()
                < self.size.0,
            self.spec_blocks() <= 0x40_0000_0000_0000,
    {
        let bb = self.block_size.spec_bytes() as int;
        let n = self.size.0 - 1;
        pow::lemma_pow2_step(self.block_size.0 as nat);
        if self.size.0 > 0 {
            vstd::arithmetic::div_mod::lemma_fundamental_div_mod(n, bb);
            vstd::arithmetic::div_mod::lemma_div_pos_is_pos(n, bb);
            let q = n / bb;
            assert(q * bb == bb * q) by (nonlinear_arith);
            assert((q + 1) * bb == q * bb + bb) by (nonlinear_arith);
            vstd::arithmetic::div_mod::lemma_div_is_ordered_by_denominator(n, 1024, bb);
        }
    }

    /// A block of the blob starts within it.
    pub proof fn lemma_block_start(self, block: nat)
        requires
            self.valid(),
            block < self.spec_blocks(),
        ensures
            block * self.block_size.spec_bytes() == 1024 * (block * self.block_size.spec_chunks()),
            block * self.block_size.spec_bytes() <= self.size.0,
            block > 0 ==> block * self.block_size.spec_bytes() < self.size.0,
            block * self.block_size.spec_chunks() <= self.size.0 / 1024,
            block * self.block_size.spec_chunks() < self.chunk_end(),
            self.chunk_at(block) == block * self.block_size.spec_chunks(),
            self.byte_at(block) == block * self.block_size.spec_bytes(),
    {
        self.lemma_blocks();
        let bb = self.block_size.spec_bytes();
        let g = self.block_size.spec_chunks();
        assert(block * bb == 1024 * (block * g)) by (nonlinear_arith)
            requires
                bb == 1024 * g,
        ;
        if block > 0 {
            let last = self.spec_blocks() - 1;
            assert(block * bb <= last * bb) by (nonlinear_arith)
                requires
                    block <= last,
                    bb >= 0,
            ;
        } else {
            assert(block * g == 0) by (nonlinear_arith)
                requires
                    block == 0,
            ;
        }
    }

    /// Past the last block lies nothing.
    pub proof fn lemma_past_end(self, block: nat)
        requires
            self.valid(),
            block >= self.spec_blocks(),
        ensures
            block * self.block_size.spec_bytes() >= self.size.0,
            self.byte_at(block) == self.size.0,
            self.chunk_at(block) == self.chunk_end(),
    {
        self.lemma_blocks();
        let bb = self.block_size.spec_bytes();
        let g = self.block_size.spec_chunks();
        let b = self.spec_blocks();
        pow::lemma_pow2_step(self.block_size.0 as nat);
        assert(block * bb >= b * bb) by (nonlinear_arith)
            requires
                block >= b,
                bb >= 0,
        ;
        assert(block * bb == 1024 * (block * g)) by (nonlinear_arith)
            requires
                bb == 1024 * g,
        ;
        assert(block * g >= 1) by (nonlinear_arith)
            requires
                block >= 1,
                g >= 1,
        ;
    }

    /// The root covers the whole blob.
    pub proof fn lemma_root(self)
        requires
            self.valid(),
        ensures
            self.has_node(0, self.root_level()),
            self.spec_blocks() <= 2 * pow2(self.root_level()),
            node::node_at(0, self.root_level()) < self.spec_filled_size(),
            self.spec_filled_size() <= 0x40_0000_0000_0001,
    {
        self.lemma_blocks();
        lemma_tree_level(self.spec_blocks());
        let l = self.root_level();
        pow::lemma_pow2_step(l);
        pow::lemma_pow2_step(l + 1);
        vstd::arithmetic::div_mod::lemma_small_mod(0, pow2(l + 1));
    }

    /// The children of a node are nodes, and cover together what it covers.
    pub proof fn lemma_children(self, start: nat, level: nat)
        requires
            self.valid(),
            self.has_node(start, level),
            level > 0,
        ensures
            self.has_node(start, (level - 1) as nat),
            2 * pow2((level - 1) as nat) == pow2(level),
            self.right_level(start, level) < level,
            self.has_node(start + pow2(level), self.right_level(start, level)),
            self.byte_at(start + pow2(level) + 2 * pow2(self.right_level(start, level)))
                == self.byte_at(start + 2 * pow2(level)),
            self.chunk_at(start + pow2(level) + 2 * pow2(self.right_level(start, level)))
                == self.chunk_at(start + 2 * pow2(level)),
            node::node_at(start + pow2(level), self.right_level(start, level))
                < self.spec_filled_size(),
            !self.is_root(start, (level - 1) as nat),
            !self.is_root(start + pow2(level), self.right_level(start, level)),
            min(start + pow2(level) + 2 * pow2(self.right_level(start, level)), self.spec_blocks())
                == min(start + 2 * pow2(level), self.spec_blocks()),
    {
        let mid = start + pow2(level);
        let r = self.right_level(start, level);
        let l = (level - 1) as nat;
        let filled = self.spec_filled_size();
        self.lemma_blocks();
        pow::lemma_pow2_step(l);
        pow::lemma_pow2_step(level);
        lemma_fit_level(mid, l, filled);
        pow::lemma_multiple_of_smaller(start, level, level + 1);
        pow::lemma_multiple_of_smaller(start, r + 1, level);
        pow::lemma_pow2_divides(r + 1, level);
        pow::lemma_pow2_step(r);
        pow::lemma_sum_of_multiples(start, pow2(level), pow2(r + 1));
        pow::lemma_pow2_step(0);
        pow::lemma_multiple_of_smaller(mid, 1, r + 1);
        if r > 0 {
            pow::lemma_pow2_step((r - 1) as nat);
        }
        if r < l {
            self.lemma_past_end(mid + 2 * pow2(r));
            pow::lemma_pow2_mono(r, l);
            self.lemma_past_end(start + 2 * pow2(level));
        }
        if start == 0 {
            lemma_tree_level(self.spec_blocks());
        }
    }
}

/// The root is the lowest node at zero that covers all blocks.
pub proof fn lemma_tree_level(blocks: nat)
    requires
        blocks >= 1,
    ensures
        blocks <= 2 * pow2(tree_level(blocks)),
        tree_level(blocks) > 0 ==> pow2(tree_level(blocks)) < blocks,
    decreases blocks,
{
    pow::lemma_pow2_step(0);
    if blocks > 2 {
        lemma_tree_level((blocks + 1) / 2);
        pow::lemma_pow2_step(tree_level((blocks + 1) / 2));
        if tree_level((blocks + 1) / 2) > 0 {
            pow::lemma_pow2_step((tree_level((blocks + 1) / 2) - 1) as nat);
        }
    }
}

/// The level that fits is at most the one asked for, and the next does not fit.
pub proof fn lemma_fit_level(start: nat, max: nat, filled: nat)
    ensures
        node::fit_level(start, max, filled) <= max,
        node::fit_level(start, max, filled) > 0 ==> node::node_at(
            start,
            node::fit_level(start, max, filled),
        ) < filled,
        node::fit_level(start, max, filled) < max ==> node::node_at(
            start,
            node::fit_level(start, max, filled) + 1,
        ) >= filled,
    decreases max,
{
    if max > 0 && node::node_at(start, max) >= filled {
        lemma_fit_level(start, (max - 1) as nat, filled);
    }
}

} // verus!
