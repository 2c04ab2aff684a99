//! What the numbers and the sets of this crate count.
use vstd::arithmetic::power2::*;
use vstd::prelude::*;

use crate::hash::{Digest, HashStack};
use crate::hash;
use crate::io;
use crate::node::TreeNode;
use crate::num;
use crate::num::BlockSize;
use crate::pow;
use crate::ranges;
use crate::tree::BaoTree;

verus! {

/// As many chunks of 1024 bytes as are needed to hold some bytes, and no more.
pub proof fn law_number_of_chunks(len: nat)
    ensures
        len <= 1024 * num::chunks_of(len) < len + 1024,
{
}

/// A header has eight bytes, of which each has 256 times the weight of the one before.
pub proof fn law_header_digits(x: u64, i: nat)
    requires
        i < 8,
    ensures
        num::le_bytes(x).len() == 8,
        num::le_bytes(x)[i as int] == (x as nat / pow2(8 * i)) % 256,
        num::le_value(num::le_bytes(x)) == x,
{
    lemma2_to64();
    lemma2_to64_rest();
    num::law_le_bytes_read_back(x);
    assert(pow2(0) == 1 && pow2(8) == 0x100 && pow2(16) == 0x1_0000 && pow2(24) == 0x100_0000);
    assert(pow2(32) == 0x1_0000_0000 && pow2(40) == 0x100_0000_0000);
    assert(pow2(48) == 0x1_0000_0000_0000 && pow2(56) == 0x100_0000_0000_0000);
    assert(x / 0x100_0000_0000_0000 < 0x100);
    if i == 0 {
        assert(pow2(8 * i) == 1);
        vstd::arithmetic::div_mod::lemma_div_basics(x as int);
    } else if i == 1 {
    } else if i == 2 {
    } else if i == 3 {
    } else if i == 4 {
    } else if i == 5 {
    } else if i == 6 {
    } else {
        assert(i == 7);
    }
}

/// A number is told by its header.
pub proof fn law_header_told_by_digits(a: Seq<u8>)
    requires
        a.len() == 8,
    ensures
        num::le_value(a) <= u64::MAX,
        num::le_bytes(num::le_value(a) as u64) == a,
{
    num::law_le_value_written_back(a);
}

/// A block has `1 << n` chunks of 1024 bytes, for every `n` for which it fits into memory.
pub proof fn law_length_of_blocks(block_size: BlockSize)
    ensures
        block_size.spec_chunks() == pow2(block_size.0 as nat),
        block_size.spec_bytes() == 1024 * pow2(block_size.0 as nat),
        block_size.valid() <==> 1024 * pow2(block_size.0 as nat) <= isize::MAX,
{
}

/// Trees are bounded only by the length of a block and by the number of the last chunk.
pub proof fn law_trees_have_any_size(tree: BaoTree)
    ensures
        tree.valid() <==> 1024 * pow2(tree.block_size.0 as nat) <= isize::MAX
            && tree.start_chunk.0 + tree.size.0 / 1024 < u64::MAX,
        tree.self_contained() <==> 1024 * pow2(tree.block_size.0 as nat) <= isize::MAX
            && tree.start_chunk.0 == 0,
{
}

/// Only a single chunk that is not the first cannot be the root.
pub proof fn law_what_can_be_the_root(chunk: nat, len: nat)
    ensures
        hash::root_possible(chunk, len, false),
        len > 1024 || chunk == 0 ==> hash::root_possible(chunk, len, true),
{
}

/// A blob has as many blocks as are needed to hold it, and at least one. A block starts
/// and ends at multiples of the length of a block, but not past the end of the blob.
pub proof fn law_blocks_of_a_tree(tree: BaoTree, block: nat)
    requires
        tree.valid(),
    ensures
        ({
            let len = 1024 * pow2(tree.block_size.0 as nat);
            let n = tree.spec_blocks();
            &&& n >= 1
            &&& tree.size.0 <= n * len
            &&& n > 1 ==> (n - 1) * len < tree.size.0
            &&& tree.byte_at(block) == if block * len <= tree.size.0 {
                block * len
            } else {
                tree.size.0 as nat
            }
        }),
{
    tree.lemma_blocks();
}

/// The root is the lowest node from the first block on that covers all blocks.
pub proof fn law_root_of_a_tree(tree: BaoTree)
    requires
        tree.valid(),
    ensures
        ({
            let level = tree.root_level();
            &&& tree.spec_blocks() <= 2 * pow2(level)
            &&& level > 0 ==> pow2(level) < tree.spec_blocks()
            &&& tree.spec_root() == TreeNode((pow2(level) - 1) as u64)
        }),
{
    tree.lemma_blocks();
    crate::tree::lemma_tree_level(tree.spec_blocks());
}

/// The number of a node tells its level, by the ones at its end, and the first of its
/// blocks.
pub proof fn law_number_of_a_node(start: nat, level: nat)
    requires
        start % pow2(level + 1) == 0,
        start + pow2(level) <= u64::MAX,
    ensures
        ({
            let node = TreeNode((start + pow2(level) - 1) as u64);
            node.spec_level() == level && node.spec_start() == start
        }),
{
    pow::lemma_pow2_step(level);
    crate::node::lemma_node_at(start, level);
}

/// A tree has the nodes that start at a multiple of the blocks that they cover and have
/// something to cover in their right half; of the lowest ones also one with a single block,
/// which has no hash pair. The root starts with the first block and covers all blocks.
pub proof fn law_nodes_of_a_tree(tree: BaoTree, start: nat, level: nat)
    requires
        tree.valid(),
    ensures
        ({
            let len = 1024 * pow2(tree.block_size.0 as nat);
            let mid = start + pow2(level);
            let two = mid * len < tree.size.0;
            let one = level == 0 && (start == 0 || start * len < tree.size.0);
            &&& tree.has_node(start, level) <==> start % pow2(level + 1) == 0 && (two || one)
            &&& tree.has_node(start, level) ==> (tree.has_pair(start, level) <==> two)
            &&& tree.half_leaf(start) <==> (start + 1) * len >= tree.size.0
            &&& tree.has_node(start, level) && two ==> (tree.is_root(start, level) <==> start == 0
                && tree.size.0 <= 2 * pow2(level) * len)
            &&& tree.node_of(start, level) == TreeNode((start + pow2(level) - 1) as u64)
            &&& tree.node_chunk(start) == tree.start_chunk.0 + start * pow2(
                tree.block_size.0 as nat,
            )
        }),
{
    let place = crate::laws::traversals::Place { first: start, height: level + 1 };
    let block = crate::laws::traversals::Place { first: start, height: 0 };
    let next = crate::laws::traversals::Place { first: start + 1, height: 0 };
    let len = 1024 * pow2(tree.block_size.0 as nat);
    pow::lemma_pow2_step(level);
    pow::lemma_pow2_step(0);
    crate::laws::traversals::lemma_node_there(tree, start, level);
    crate::laws::traversals::lemma_block_there(tree, start);
    crate::laws::traversals::lemma_block_there(tree, start + 1);
    assert(place.is_there(tree.size.0 as nat, tree.block_size.0 as nat) ==> tree.has_node(
        start,
        level,
    ));
    assert(block.is_there(tree.size.0 as nat, tree.block_size.0 as nat) <==> start
        < tree.spec_blocks());
    assert(next.is_there(tree.size.0 as nat, tree.block_size.0 as nat) <==> start + 1
        < tree.spec_blocks());
    assert((start + pow2(level)) * len >= start * len) by (nonlinear_arith);
    tree.lemma_blocks();
    if start + pow2(level) < tree.spec_blocks() {
        tree.lemma_block_start(start + pow2(level));
    } else {
        tree.lemma_past_end(start + pow2(level));
    }
}

/// The right child of a node starts in the middle of the node. It is the highest node
/// from there on, below the node, that has something to cover in its own right half, or a
/// leaf.
pub proof fn law_right_child(tree: BaoTree, start: nat, level: nat)
    requires
        tree.valid(),
        level > 0,
        start % pow2(level + 1) == 0,
        start + pow2(level) < tree.spec_blocks(),
    ensures
        ({
            let mid = start + pow2(level);
            let r = tree.right_level(start, level);
            &&& r < level
            &&& r > 0 ==> mid + pow2(r) < tree.spec_blocks()
            &&& r + 1 < level ==> mid + pow2(r + 1) >= tree.spec_blocks()
        }),
{
    let mid = start + pow2(level);
    let r = tree.right_level(start, level);
    tree.lemma_children(start, level);
    pow::lemma_pow2_step(level);
    pow::lemma_pow2_step(r);
    if r + 1 < level {
        pow::lemma_pow2_mono(r + 1, level);
    }
}

/// A number is in the set with some boundaries if an odd number of them is no larger.
pub proof fn law_boundaries_of_a_set(b: Seq<u64>, x: int, count: int)
    requires
        forall|i: int, j: int| 0 <= i < j < b.len() ==> b[i] < b[j],
        0 <= count <= b.len(),
        forall|i: int| 0 <= i < count ==> b[i] <= x,
        forall|i: int| count <= i < b.len() ==> x < b[i],
    ensures
        ranges::strictly_sorted(b),
        ranges::in_ranges(b, x) <==> count % 2 == 1,
{
    if count % 2 == 1 {
        assert(b[count - 1] <= x);
    }
    if ranges::in_ranges(b, x) {
        let i = choose|i: int|
            0 <= i < b.len() && i % 2 == 0 && #[trigger] b[i] <= x && (i + 1 < b.len() ==> x
                < b[i + 1]);
        assert(i < count);
        assert(!(i + 1 < count));
    }
}

/// A set meets a range if it has a number of the range.
pub proof fn law_sets_meet_ranges(b: Seq<u64>, lo: int, hi: int, x: int)
    ensures
        lo <= x < hi && ranges::in_ranges(b, x) ==> ranges::meets(b, lo, hi),
        (forall|y: int| lo <= y < hi ==> !ranges::in_ranges(b, y)) ==> !ranges::meets(b, lo, hi),
{
}

/// A query of any number of ranges is in canonical form for a blob if its boundaries are
/// chunks of the blob, or zero.
pub proof fn law_canonical_queries(b: Seq<u64>, len: nat)
    ensures
        ranges::ranges_canonical(b, num::chunks_of(len)) <==> (forall|i: int|
            0 <= i < b.len() ==> (#[trigger] b[i] == 0 || 1024 * b[i] < len)),
{
    assert forall|i: int| 0 <= i < b.len() implies (#[trigger] b[i] < num::chunks_of(len)
        <==> 1024 * b[i] < len) by {}
}

/// The bytes of a hash, and the hashes on a stack.
pub proof fn law_views_of_hashes(digest: Digest, stack: HashStack, bytes: Seq<u8>)
    requires
        bytes.len() == 32,
    ensures
        digest@ == digest.0@,
        hash::digest_of(bytes).0@ == bytes,
        stack@ == hash::stack_hashes(stack),
{
    hash::lemma_digest_bytes(bytes);
}

/// The chunks of a set, by its boundaries.
pub proof fn law_chunks_of_a_set(set: ranges::ChunkRanges, x: int)
    ensures
        set.chunks().contains(x) <==> ranges::in_ranges(ranges::chunk_boundaries(set), x),
        set.valid() <==> (forall|i: int, j: int|
            0 <= i < j < ranges::chunk_boundaries(set).len() ==> ranges::chunk_boundaries(set)[i]
                < ranges::chunk_boundaries(set)[j]),
{
}

/// A result is an error, or none.
pub proof fn law_errors_of_results(r: Result<(), std::io::Error>)
    ensures
        r is Ok ==> io::error_of(r) is None,
        r matches Err(e) ==> io::error_of(r) == Some(e),
{
}

/// A store has a hash pair for a node, or none.
pub proof fn law_stored_pairs(pairs: Map<TreeNode, (Digest, Digest)>, node: TreeNode)
    ensures
        pairs.contains_key(node) ==> io::pair_at(pairs, node) == Some(pairs[node]),
        !pairs.contains_key(node) ==> io::pair_at(pairs, node) is None,
{
}

} // verus!
