//! What it means for an outboard to be that of a blob.
use vstd::arithmetic::power2::*;
use vstd::prelude::*;

use crate::hash;
use crate::hash::Digest;
use crate::iter::BaoChunk;
use crate::node::TreeNode;
use crate::pow;
use crate::tree::BaoTree;

verus! {

impl BaoTree {
    /// The bytes of a blob from one block on and below another.
    pub open spec fn span(self, blob: Seq<u8>, from: nat, to: nat) -> Seq<u8> {
        blob.subrange(self.byte_at(from) as int, self.byte_at(to) as int)
    }

    /// The hash of the bytes that a node covers.
    pub open spec fn node_hash(self, blob: Seq<u8>, start: nat, level: nat, is_root: bool) -> Seq<
        u8,
    > {
        hash::subtree_hash(
            self.span(blob, start, start + 2 * pow2(level)),
            self.node_chunk(start),
            is_root,
        )
    }

    /// The hash of the left half of the bytes that a node covers.
    pub open spec fn left_hash(self, blob: Seq<u8>, start: nat, level: nat) -> Seq<u8> {
        hash::subtree_hash(
            self.span(blob, start, start + pow2(level)),
            self.node_chunk(start),
            false,
        )
    }

    /// The hash of the right half of the bytes that a node covers.
    pub open spec fn right_hash(self, blob: Seq<u8>, start: nat, level: nat) -> Seq<u8> {
        hash::subtree_hash(
            self.span(blob, start + pow2(level), start + 2 * pow2(level)),
            self.node_chunk(start + pow2(level)),
            false,
        )
    }

    /// Whether there is, for a node that has a hash pair, the one that a blob gives.
    pub open spec fn pair_consistent(
        self,
        pairs: Map<TreeNode, (Digest, Digest)>,
        blob: Seq<u8>,
        start: nat,
        level: nat,
    ) -> bool {
        let node = self.node_of(start, level);
        self.has_node(start, level) && self.has_pair(start, level) ==> {
            &&& pairs.contains_key(node)
            &&& pairs[node].0@ == self.left_hash(blob, start, level)
            &&& pairs[node].1@ == self.right_hash(blob, start, level)
        }
    }

    /// Whether a root hash and a store of hash pairs are those of a blob.
    pub open spec fn consistent(
        self,
        root: Seq<u8>,
        pairs: Map<TreeNode, (Digest, Digest)>,
        blob: Seq<u8>,
    ) -> bool {
        &&& self.self_contained()
        &&& blob.len() == self.size.0
        &&& root == hash::subtree_hash(blob, 0, true)
        &&& forall|start: nat, level: nat| #[trigger]
            self.pair_consistent(pairs, blob, start, level)
    }

    /// The hash pairs of a blob: one for each node that has one.
    pub open spec fn pairs_of(self, blob: Seq<u8>) -> Map<TreeNode, (Digest, Digest)> {
        Map::new(
            |node: TreeNode|
                self.has_node(node.spec_start() as nat, node.spec_level()) && self.has_pair(
                    node.spec_start() as nat,
                    node.spec_level(),
                ),
            |node: TreeNode|
                (
                    hash::digest_of(
                        self.left_hash(blob, node.spec_start() as nat, node.spec_level()),
                    ),
                    hash::digest_of(
                        self.right_hash(blob, node.spec_start() as nat, node.spec_level()),
                    ),
                ),
        )
    }

    /// Whether a store has no hash pair for a leaf that covers one block only.
    pub open spec fn no_pair_for_half_leaf(self, pairs: Map<TreeNode, (Digest, Digest)>) -> bool {
        forall|start: nat|
            #![trigger self.half_leaf(start)]
            self.has_node(start, 0) && self.half_leaf(start) ==> !pairs.contains_key(
                self.node_of(start, 0),
            )
    }

    /// The hash of a node is that of the hash pair of its halves, and those are the
    /// hashes of its children.
    pub proof fn lemma_node_hash(self, blob: Seq<u8>, start: nat, level: nat, is_root: bool)
        requires
            self.valid(),
            blob.len() == self.size.0,
            self.has_node(start, level),
        ensures
            self.has_pair(start, level) ==> self.node_hash(blob, start, level, is_root)
                == hash::parent_hash(
                self.left_hash(blob, start, level),
                self.right_hash(blob, start, level),
                is_root,
            ),
            level > 0 ==> self.left_hash(blob, start, level) == self.node_hash(
                blob,
                start,
                (level - 1) as nat,
                false,
            ),
            level > 0 ==> self.right_hash(blob, start, level) == self.node_hash(
                blob,
                start + pow2(level),
                self.right_level(start, level),
                false,
            ),
            !self.has_pair(start, level) ==> self.node_hash(blob, start, level, is_root)
                == hash::subtree_hash(
                self.span(blob, start, start + 1),
                self.node_chunk(start),
                is_root,
            ),
    {
        let mid = start + pow2(level);
        let end = start + 2 * pow2(level);
        pow::lemma_pow2_step(0);
        pow::lemma_pow2_step(level);
        if level > 0 {
            self.lemma_children(start, level);
        }
        if self.has_pair(start, level) {
            self.lemma_node_split(start, level);
            let data = self.span(blob, start, end);
            let m = hash::left_len(data.len()) as int;
            assert(data.take(m) =~= self.span(blob, start, mid));
            assert(data.skip(m) =~= self.span(blob, mid, end));
        } else {
            self.lemma_past_end(start + 1);
            self.lemma_past_end(start + 2);
        }
    }

    /// The number of a node tells its level and its first block.
    pub proof fn lemma_node_of(self, start: nat, level: nat)
        requires
            self.valid(),
            self.has_node(start, level),
        ensures
            self.node_of(start, level).0 == crate::node::node_at(start, level),
            self.node_of(start, level).spec_start() == start,
            self.node_of(start, level).spec_level() == level,
    {
        self.lemma_blocks();
        pow::lemma_pow2_step(level);
        pow::lemma_pow2_step(0);
        crate::node::lemma_node_at(start, level);
    }

    /// The root covers the blob.
    pub proof fn lemma_root_hash(self, blob: Seq<u8>)
        requires
            self.self_contained(),
            blob.len() == self.size.0,
        ensures
            self.node_hash(blob, 0, self.root_level(), true) == hash::subtree_hash(blob, 0, true),
    {
        self.lemma_root();
        self.lemma_past_end(2 * pow2(self.root_level()));
        assert(0nat * self.block_size.spec_chunks() == 0) by (nonlinear_arith);
        assert(0nat * self.block_size.spec_bytes() == 0) by (nonlinear_arith);
        assert(self.span(blob, 0, 2 * pow2(self.root_level())) =~= blob);
    }

    /// The bytes of a block, as an item has them.
    pub proof fn lemma_block_bytes(
        self,
        pairs: Map<TreeNode, (Digest, Digest)>,
        blob: Seq<u8>,
        block: nat,
        is_root: bool,
    )
        requires
            self.self_contained(),
            blob.len() == self.size.0,
            block < self.spec_blocks(),
        ensures
            crate::response::item_bytes(self.leaf_item(block, is_root), pairs, blob) == self.span(
                blob,
                block,
                block + 1,
            ),
            self.leaf_item(block, is_root) matches BaoChunk::Leaf { size, start_chunk, is_root: r }
                && 1024 * start_chunk.0 == self.byte_at(block) && start_chunk.0 == self.node_chunk(
                block,
            ) && size == self.byte_at(block + 1) - self.byte_at(block) && r == is_root
                && self.byte_at(block) <= self.byte_at(block + 1) <= blob.len(),
    {
        self.lemma_leaf_in_blob(block, is_root);
        self.lemma_leaf_item(block, is_root);
        self.lemma_chunk_at_mono(block, block + 1);
    }

    /// The outboard of what a node covers has its hash pairs in post order.
    #[verifier::spinoff_prover]
    #[verifier::rlimit(50)]
    proof fn lemma_outboard_of_node(
        self,
        root: Seq<u8>,
        pairs: Map<TreeNode, (Digest, Digest)>,
        blob: Seq<u8>,
        start: nat,
        level: nat,
        more: Seq<BaoChunk>,
    )
        requires
            self.consistent(root, pairs, blob),
            self.has_node(start, level),
        ensures
            pair_bytes(self.post_order(start, level) + more, pairs) == hash::outboard_pairs(
                self.span(blob, start, start + 2 * pow2(level)),
                self.node_chunk(start),
                self.block_size.spec_bytes(),
            ) + pair_bytes(more, pairs),
        decreases level,
    {
        let items = self.post_order(start, level);
        let bb = self.block_size.spec_bytes();
        let mid = start + pow2(level);
        let end = start + 2 * pow2(level);
        let parent = self.parent_item(start, level, true, true);
        let tail = seq![parent] + more;
        pow::lemma_pow2_step(level);
        pow::lemma_pow2_step(0);
        self.lemma_leaf_item(start, false);
        self.lemma_node_hash(blob, start, level, false);
        self.lemma_chunk_at_mono(start, mid);
        self.lemma_chunk_at_mono(mid, end);
        assert(tail.drop_first() =~= more);
        assert(self.pair_consistent(pairs, blob, start, level));
        if !self.has_pair(start, level) {
            self.lemma_past_end(start + 1);
            self.lemma_past_end(start + 2);
            assert((items + more).drop_first() =~= more);
            assert(pair_bytes(items + more, pairs) =~= pair_bytes(more, pairs));
        } else {
            self.lemma_node_split(start, level);
            let data = self.span(blob, start, end);
            let m = hash::left_len(data.len()) as int;
            let left = self.span(blob, start, mid);
            let right = self.span(blob, mid, end);
            let hl = self.left_hash(blob, start, level);
            let hr = self.right_hash(blob, start, level);
            let ol = hash::outboard_pairs(left, self.node_chunk(start), bb);
            let or = hash::outboard_pairs(right, self.node_chunk(mid), bb);
            assert(data.take(m) =~= left);
            assert(data.skip(m) =~= right);
            assert(hash::outboard_pairs(data, self.node_chunk(start), bb) == ol + or + (hl + hr));
            assert(pair_bytes(tail, pairs) == hl + hr + pair_bytes(more, pairs));
            if level > 0 {
                let r = self.right_level(start, level);
                let il = self.post_order(start, (level - 1) as nat);
                let ir = self.post_order(mid, r);
                self.lemma_children(start, level);
                assert(items + more =~= il + (ir + tail));
                self.lemma_outboard_of_node(
                    root,
                    pairs,
                    blob,
                    start,
                    (level - 1) as nat,
                    ir + tail,
                );
                self.lemma_outboard_of_node(root, pairs, blob, mid, r, tail);
                assert(ol + (or + (hl + hr + pair_bytes(more, pairs))) =~= ol + or + (hl + hr)
                    + pair_bytes(more, pairs));
            } else {
                let rest = seq![self.leaf_item(start + 1, false)] + tail;
                self.lemma_leaf_item(start + 1, false);
                assert((items + more).drop_first() =~= rest);
                assert(rest.drop_first() =~= tail);
                assert(pair_bytes(rest, pairs) == pair_bytes(tail, pairs));
                assert(ol + or + (hl + hr) + pair_bytes(more, pairs) =~= hl + hr + pair_bytes(
                    more,
                    pairs,
                ));
            }
        }
    }
}

/// The hash pairs among the items, as bytes.
pub open spec fn pair_bytes(items: Seq<BaoChunk>, pairs: Map<TreeNode, (Digest, Digest)>) -> Seq<u8>
    decreases items.len(),
{
    if items.len() == 0 {
        Seq::empty()
    } else {
        let rest = pair_bytes(items.drop_first(), pairs);
        match items[0] {
            BaoChunk::Parent { node, .. } => pairs[node].0@ + pairs[node].1@ + rest,
            BaoChunk::Leaf { .. } => rest,
        }
    }
}

/// Every blob has a consistent store of hash pairs, without any for a leaf that covers
/// one block only.
pub proof fn law_blob_has_consistent_pairs(tree: BaoTree, blob: Seq<u8>)
    requires
        tree.self_contained(),
        blob.len() == tree.size.0,
    ensures
        tree.consistent(hash::subtree_hash(blob, 0, true), tree.pairs_of(blob), blob),
        tree.no_pair_for_half_leaf(tree.pairs_of(blob)),
{
    let pairs = tree.pairs_of(blob);
    assert forall|start: nat, level: nat| #[trigger]
        tree.pair_consistent(pairs, blob, start, level) by {
        if tree.has_node(start, level) && tree.has_pair(start, level) {
            tree.lemma_node_of(start, level);
            hash::lemma_hash_len(
                tree.span(blob, start, start + pow2(level)),
                tree.node_chunk(start),
                false,
            );
            hash::lemma_hash_len(
                tree.span(blob, start + pow2(level), start + 2 * pow2(level)),
                tree.node_chunk(start + pow2(level)),
                false,
            );
            hash::lemma_digest_bytes(tree.left_hash(blob, start, level));
            hash::lemma_digest_bytes(tree.right_hash(blob, start, level));
        }
    }
    assert forall|start: nat|
        #![trigger tree.half_leaf(start)]
        tree.has_node(start, 0) && tree.half_leaf(start) implies !pairs.contains_key(
        tree.node_of(start, 0),
    ) by {
        tree.lemma_node_of(start, 0);
    }
}

/// The outboard that is computed for a blob has the hash pairs of a consistent store,
/// in post order.
pub proof fn law_outboard_has_consistent_pairs(
    tree: BaoTree,
    root: Seq<u8>,
    pairs: Map<TreeNode, (Digest, Digest)>,
    blob: Seq<u8>,
)
    requires
        tree.consistent(root, pairs, blob),
    ensures
        hash::outboard_pairs(blob, 0, tree.block_size.spec_bytes()) == pair_bytes(
            tree.post_order_plan(),
            pairs,
        ),
{
    let plan = tree.post_order_plan();
    let level = tree.root_level();
    tree.lemma_root();
    tree.lemma_past_end(2 * pow2(level));
    tree.lemma_outboard_of_node(root, pairs, blob, 0, level, Seq::empty());
    assert(0nat * tree.block_size.spec_chunks() == 0) by (nonlinear_arith);
    assert(0nat * tree.block_size.spec_bytes() == 0) by (nonlinear_arith);
    assert(tree.span(blob, 0, 2 * pow2(level)) =~= blob);
    assert(plan + Seq::<BaoChunk>::empty() =~= plan);
    let bytes = hash::outboard_pairs(blob, 0, tree.block_size.spec_bytes());
    assert(bytes + Seq::<u8>::empty() =~= bytes);
}

} // verus!
