//! How what is found below a node comes from what is found below its halves.
use vstd::arithmetic::power2::*;
use vstd::prelude::*;

use crate::hash;
use crate::hash::Digest;
use crate::io::Outboard;
use crate::node;
use crate::node::TreeNode;
use crate::pow;
use crate::tree::BaoTree;
use crate::validate;
use crate::validate::Access;

verus! {

/// Whether a tree has a node from a block on, and `right` is the level of its right child:
/// the highest below the node with something to cover in its own right half, or zero.
pub open spec fn is_node(tree: BaoTree, start: nat, level: nat, right: nat) -> bool {
    let size = tree.size.0;
    let block = 1024 * pow2(tree.block_size.0 as nat);
    let mid = start + pow2(level);
    &&& start % pow2(level + 1) == 0
    &&& start == 0 || start * block < size
    &&& level > 0 ==> {
        &&& mid * block < size
        &&& right < level
        &&& right > 0 ==> (mid + pow2(right)) * block < size
        &&& right + 1 < level ==> (mid + pow2(right + 1)) * block >= size
    }
}

/// The number of a node.
pub open spec fn number(start: nat, level: nat) -> TreeNode {
    TreeNode((start + pow2(level) - 1) as u64)
}

proof fn lemma_is_node(tree: BaoTree, start: nat, level: nat, right: nat)
    requires
        tree.valid(),
        is_node(tree, start, level, right),
    ensures
        tree.has_node(start, level),
        tree.node_of(start, level) == number(start, level),
        level > 0 ==> tree.right_level(start, level) == right,
{
    let mid = start + pow2(level);
    pow::lemma_pow2_step(level);
    lemma_is_block(tree, start);
    if level > 0 {
        let r = tree.right_level(start, level);
        lemma_is_block(tree, mid);
        lemma_is_block(tree, mid + pow2(right));
        lemma_is_block(tree, mid + pow2(right + 1));
        crate::laws::numbers::law_right_child(tree, start, level);
        if right < r {
            pow::lemma_pow2_mono(right + 1, r);
        } else if r < right {
            pow::lemma_pow2_mono(r + 1, right);
        }
    }
}

proof fn lemma_is_block(tree: BaoTree, block: nat)
    requires
        tree.valid(),
    ensures
        block < tree.spec_blocks() <==> block == 0 || block * (1024 * pow2(
            tree.block_size.0 as nat,
        )) < tree.size.0,
{
    tree.lemma_blocks();
    if block < tree.spec_blocks() {
        tree.lemma_block_start(block);
    } else {
        tree.lemma_past_end(block);
    }
}

/// Whether a hash pair is stored for a node.
pub open spec fn stored(pairs: Map<TreeNode, (Digest, Digest)>, start: nat, level: nat) -> bool {
    pairs.contains_key(number(start, level))
}

/// Whether the hash pair that is stored for a node has a hash.
pub open spec fn matches(
    pairs: Map<TreeNode, (Digest, Digest)>,
    start: nat,
    level: nat,
    hash: Seq<u8>,
    is_root: bool,
) -> bool {
    let pair = pairs[number(start, level)];
    hash::parent_bytes(pair.0.0@, pair.1.0@, is_root)@ == hash
}

/// The hashes that the halves of a node have to have: the stored ones, or, without a hash
/// pair, that of the node for the left and zeros for the right.
pub open spec fn halves(
    pairs: Map<TreeNode, (Digest, Digest)>,
    start: nat,
    level: nat,
    hash: Seq<u8>,
) -> (Seq<u8>, Seq<u8>) {
    let pair = pairs[number(start, level)];
    if stored(pairs, start, level) {
        (pair.0.0@, pair.1.0@)
    } else {
        (hash, Seq::new(32, |i: int| 0u8))
    }
}

/// A stored hash pair that does not match makes all that is below it invalid. Otherwise
/// what is valid below the two halves is valid, and at the lowest level the chunks of both
/// blocks.
pub proof fn law_valid_chunks_of_a_node(
    tree: BaoTree,
    pairs: Map<TreeNode, (Digest, Digest)>,
    start: nat,
    level: nat,
    right: nat,
    hash: Seq<u8>,
    is_root: bool,
    c: int,
)
    requires
        tree.valid(),
        is_node(tree, start, level, right),
    ensures
        ({
            let valid = tree.valid_chunks(pairs, start, level, hash, is_root).contains(c);
            let (l, r) = halves(pairs, start, level, hash);
            let g = pow2(tree.block_size.0 as nat);
            let first = tree.start_chunk.0 + start * g;
            if stored(pairs, start, level) && !matches(pairs, start, level, hash, is_root) {
                !valid
            } else if level == 0 {
                valid <==> first <= c < first + 2 * g && 1024 * c < tree.size.0
            } else {
                valid <==> tree.valid_chunks(
                    pairs,
                    start,
                    (level - 1) as nat,
                    l,
                    false,
                ).contains(c) || tree.valid_chunks(
                    pairs,
                    start + pow2(level),
                    right,
                    r,
                    false,
                ).contains(c)
            }
        }),
{
    lemma_is_node(tree, start, level, right);
    assert(validate::zeros() =~= Seq::new(32, |i: int| 0u8));
}

/// The nodes are looked at from the top and from the left, but not below a hash pair that
/// does not match.
pub proof fn law_nodes_looked_at(
    tree: BaoTree,
    pairs: Map<TreeNode, (Digest, Digest)>,
    start: nat,
    level: nat,
    right: nat,
    hash: Seq<u8>,
    is_root: bool,
)
    requires
        tree.valid(),
        is_node(tree, start, level, right),
    ensures
        ({
            let nodes = tree.looked_at(pairs, start, level, hash, is_root);
            let (l, r) = halves(pairs, start, level, hash);
            if level == 0 || stored(pairs, start, level) && !matches(
                pairs,
                start,
                level,
                hash,
                is_root,
            ) {
                nodes == seq![number(start, level)]
            } else {
                nodes == seq![number(start, level)] + (tree.looked_at(
                    pairs,
                    start,
                    (level - 1) as nat,
                    l,
                    false,
                ) + tree.looked_at(pairs, start + pow2(level), right, r, false))
            }
        }),
{
    lemma_is_node(tree, start, level, right);
    assert(validate::zeros() =~= Seq::new(32, |i: int| 0u8));
}

/// Where a block starts, or the end of the blob.
pub open spec fn offset_of(tree: BaoTree, block: nat) -> int {
    let at = block * (1024 * pow2(tree.block_size.0 as nat));
    if at <= tree.size.0 {
        at as int
    } else {
        tree.size.0 as int
    }
}

/// Whether a file has the bytes of a block, of which an empty one has none.
pub open spec fn is_in_file(tree: BaoTree, file: Seq<u8>, block: nat) -> bool {
    offset_of(tree, block) == offset_of(tree, block + 1) || offset_of(tree, block + 1) <= file.len()
}

/// Whether a chunk is one of a block whose bytes in a file have a hash.
pub open spec fn is_valid_in_block(
    tree: BaoTree,
    file: Seq<u8>,
    block: nat,
    hash: Seq<u8>,
    is_root: bool,
    c: int,
) -> bool {
    let (s, e) = (offset_of(tree, block), offset_of(tree, block + 1));
    let bytes = if s == e {
        Seq::empty()
    } else {
        file.subrange(s, e)
    };
    &&& hash::subtree_hash(bytes, ((s + 1023) / 1024) as nat, is_root) == hash
    &&& (s + 1023) / 1024 <= c < (e + 1023) / 1024
}

/// A chunk of a file is valid if the stored hash pair matches and the chunk is valid below
/// one of the halves: at the lowest level, if it is in a block that has its half of the
/// hash pair. Without a hash pair only the first block of the lowest level can be valid,
/// with the hash of the node.
pub proof fn law_valid_file_chunks_of_a_node(
    tree: BaoTree,
    pairs: Map<TreeNode, (Digest, Digest)>,
    file: Seq<u8>,
    start: nat,
    level: nat,
    right: nat,
    hash: Seq<u8>,
    is_root: bool,
    c: int,
)
    requires
        tree.valid(),
        is_node(tree, start, level, right),
    ensures
        ({
            let valid = tree.valid_file_chunks(pairs, file, start, level, hash, is_root).contains(c);
            let (l, r) = halves(pairs, start, level, hash);
            if !stored(pairs, start, level) {
                valid <==> level == 0 && is_valid_in_block(tree, file, start, hash, is_root, c)
            } else if !matches(pairs, start, level, hash, is_root) {
                !valid
            } else if level == 0 {
                valid <==> is_valid_in_block(tree, file, start, l, false, c) || is_valid_in_block(
                    tree,
                    file,
                    start + 1,
                    r,
                    false,
                    c,
                )
            } else {
                valid <==> tree.valid_file_chunks(
                    pairs,
                    file,
                    start,
                    (level - 1) as nat,
                    l,
                    false,
                ).contains(c) || tree.valid_file_chunks(
                    pairs,
                    file,
                    start + pow2(level),
                    right,
                    r,
                    false,
                ).contains(c)
            }
        }),
{
    lemma_is_node(tree, start, level, right);
    lemma_block_valid(tree, file, start, hash, is_root, c);
    let (l, r) = halves(pairs, start, level, hash);
    lemma_block_valid(tree, file, start, l, false, c);
    lemma_block_valid(tree, file, start + 1, r, false, c);
}

proof fn lemma_block_valid(
    tree: BaoTree,
    file: Seq<u8>,
    block: nat,
    hash: Seq<u8>,
    is_root: bool,
    c: int,
)
    requires
        tree.valid(),
    ensures
        tree.valid_block(file, block, hash, is_root).contains(c) <==> is_valid_in_block(
            tree,
            file,
            block,
            hash,
            is_root,
            c,
        ),
        tree.has_block(file, block) <==> is_in_file(tree, file, block),
        tree.byte_at(block) == offset_of(tree, block),
        tree.byte_at(block + 1) == offset_of(tree, block + 1),
{
    tree.lemma_chunk_at_mono(block, block + 1);
}

/// A file has to have the blocks that are read below a node: those of its halves if its
/// hash pair is stored and matches, at the lowest level both blocks, and without a hash
/// pair only the first block of the lowest level.
pub proof fn law_blocks_needed_for_a_node(
    tree: BaoTree,
    pairs: Map<TreeNode, (Digest, Digest)>,
    file: Seq<u8>,
    start: nat,
    level: nat,
    right: nat,
    hash: Seq<u8>,
    is_root: bool,
)
    requires
        tree.valid(),
        is_node(tree, start, level, right),
    ensures
        ({
            let there = tree.has_blocks(pairs, file, start, level, hash, is_root);
            let (l, r) = halves(pairs, start, level, hash);
            if !stored(pairs, start, level) {
                there <==> level > 0 || is_in_file(tree, file, start)
            } else if !matches(pairs, start, level, hash, is_root) {
                there
            } else if level == 0 {
                there <==> is_in_file(tree, file, start) && is_in_file(tree, file, start + 1)
            } else {
                there <==> tree.has_blocks(pairs, file, start, (level - 1) as nat, l, false)
                    && tree.has_blocks(pairs, file, start + pow2(level), right, r, false)
            }
        }),
{
    lemma_is_node(tree, start, level, right);
    lemma_block_valid(tree, file, start, hash, is_root, 0);
    lemma_block_valid(tree, file, start + 1, hash, is_root, 0);
}

/// Reading a block.
pub open spec fn reads(tree: BaoTree, block: nat) -> Access {
    Access::Read {
        offset: offset_of(tree, block) as nat,
        len: (offset_of(tree, block + 1) - offset_of(tree, block)) as nat,
    }
}

/// With a file, the hash pair of a node is loaded, and then what is below its halves is
/// gone through, from the left, if the hash pair is stored and matches. Blocks are read at
/// the lowest level: both, or without a hash pair the first.
pub proof fn law_steps_with_a_file(
    tree: BaoTree,
    pairs: Map<TreeNode, (Digest, Digest)>,
    start: nat,
    level: nat,
    right: nat,
    hash: Seq<u8>,
    is_root: bool,
)
    requires
        tree.valid(),
        is_node(tree, start, level, right),
    ensures
        ({
            let steps = tree.accesses(pairs, start, level, hash, is_root);
            let load = Access::Load(number(start, level));
            let (l, r) = halves(pairs, start, level, hash);
            if !stored(pairs, start, level) {
                steps == if level == 0 {
                    seq![load, reads(tree, start)]
                } else {
                    seq![load]
                }
            } else if !matches(pairs, start, level, hash, is_root) {
                steps == seq![load]
            } else if level == 0 {
                steps == seq![load, reads(tree, start), reads(tree, start + 1)]
            } else {
                steps == seq![load] + (tree.accesses(pairs, start, (level - 1) as nat, l, false)
                    + tree.accesses(pairs, start + pow2(level), right, r, false))
            }
        }),
{
    lemma_is_node(tree, start, level, right);
    lemma_block_valid(tree, Seq::empty(), start, hash, is_root, 0);
    lemma_block_valid(tree, Seq::empty(), start + 1, hash, is_root, 0);
    let steps = tree.accesses(pairs, start, level, hash, is_root);
    let load = Access::Load(number(start, level));
    if level == 0 {
        if !stored(pairs, start, level) {
            assert(steps =~= seq![load, reads(tree, start)]);
        } else if matches(pairs, start, level, hash, is_root) {
            assert(steps =~= seq![load, reads(tree, start), reads(tree, start + 1)]);
        }
    }
}

/// Where the hash pair stored for the root does not have the root hash, nothing is valid,
/// nothing else is loaded and nothing is read.
pub proof fn law_wrong_hash_pair_at_the_root(
    tree: BaoTree,
    pairs: Map<TreeNode, (Digest, Digest)>,
    file: Seq<u8>,
    level: nat,
    root: Seq<u8>,
)
    requires
        tree.valid(),
        level == tree.root_level(),
        pairs.contains_key(TreeNode((pow2(level) - 1) as u64)),
        hash::parent_bytes(
            pairs[TreeNode((pow2(level) - 1) as u64)].0.0@,
            pairs[TreeNode((pow2(level) - 1) as u64)].1.0@,
            true,
        )@ != root,
    ensures
        tree.valid_chunks(pairs, 0, level, root, true) == Set::<int>::empty(),
        tree.valid_file_chunks(pairs, file, 0, level, root, true) == Set::<int>::empty(),
        tree.has_blocks(pairs, file, 0, level, root, true),
        tree.looked_at(pairs, 0, level, root, true) == seq![number(0, level)],
        tree.accesses(pairs, 0, level, root, true) == seq![Access::Load(number(0, level))],
{
    pow::lemma_pow2_step(level);
    assert(tree.node_of(0, level) == number(0, level));
}

/// A walk can get through if no step is sure to fail. It can have stopped where a step can
/// fail and none before it is sure to.
pub proof fn law_walks<A>(
    steps: Seq<A>,
    fails: spec_fn(A) -> bool,
    can_fail: spec_fn(A) -> bool,
)
    ensures
        validate::all_can_pass(steps, fails) <==> (forall|i: int|
            0 <= i < steps.len() ==> !fails(#[trigger] steps[i])),
        validate::stops(steps, fails, can_fail) <==> (exists|i: int|
            0 <= i < steps.len() && can_fail(#[trigger] steps[i]) && (forall|j: int|
                0 <= j < i ==> !fails(#[trigger] steps[j]))),
{
    if validate::stops(steps, fails, can_fail) {
        let i = choose|i: int| validate::stops_at(steps, fails, can_fail, i);
        assert forall|j: int| 0 <= j < i implies !fails(#[trigger] steps[j]) by {
            assert(steps.take(i)[j] == steps[j]);
        }
        assert(can_fail(steps[i]));
    }
    if exists|i: int|
        0 <= i < steps.len() && can_fail(#[trigger] steps[i]) && (forall|j: int|
            0 <= j < i ==> !fails(#[trigger] steps[j])) {
        let i = choose|i: int|
            0 <= i < steps.len() && can_fail(#[trigger] steps[i]) && (forall|j: int|
                0 <= j < i ==> !fails(#[trigger] steps[j]));
        assert(validate::stops_at(steps, fails, can_fail, i));
    }
}

/// Loading fails as the outboard says. Reading is sure to fail where bytes are not there,
/// and can fail there or with a reader that can.
pub proof fn law_failing_steps<O: Outboard>(
    outboard: &O,
    file: Seq<u8>,
    reliable: bool,
    errors: Set<std::io::Error>,
    e: std::io::Error,
    n: TreeNode,
    offset: nat,
    len: nat,
)
    ensures
        ({
            let there = len == 0 || offset + len <= file.len();
            let read = Access::Read { offset, len };
            let can_fail = validate::access_can_fail(outboard, file, reliable, errors, e);
            let can_load_fail = !outboard.loads(n) && outboard.load_errors(n).contains(e);
            &&& validate::load_fails(outboard)(n) == outboard.load_fails(n)
            &&& validate::load_can_fail(outboard, e)(n) == can_load_fail
            &&& validate::access_fails(outboard, file)(Access::Load(n)) == outboard.load_fails(n)
            &&& validate::access_fails(outboard, file)(read) == !there
            &&& can_fail(Access::Load(n)) == can_load_fail
            &&& can_fail(read) == (!(reliable && there) && errors.contains(e))
        }),
{
}

/// The child of a node to the right is the highest in a tree of some nodes, from the middle
/// of the node on and up to a level.
pub proof fn law_highest_node_that_fits(start: nat, max: nat, nodes: nat)
    ensures
        ({
            let level = node::fit_level(start, max, nodes);
            &&& level <= max
            &&& level > 0 ==> start + pow2(level) - 1 < nodes
            &&& level < max ==> start + pow2(level + 1) - 1 >= nodes
        }),
{
    crate::tree::lemma_fit_level(start, max, nodes);
    pow::lemma_pow2_step(node::fit_level(start, max, nodes));
}

/// A tree has one node for each two blocks, a last single one included, and the nodes
/// between these.
pub proof fn law_number_of_nodes(tree: BaoTree)
    requires
        tree.valid(),
    ensures
        tree.spec_filled_size() % 2 == 1,
        tree.spec_blocks() <= tree.spec_filled_size() + 1 <= tree.spec_blocks() + 1,
{
    tree.lemma_blocks();
}

} // verus!
