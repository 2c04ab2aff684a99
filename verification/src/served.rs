//! What can be served from a file that is valid in part.
use vstd::arithmetic::power2::*;
use vstd::prelude::*;

use crate::hash;
use crate::hash::Digest;
use crate::iter::BaoChunk;
use crate::node::TreeNode;
use crate::num;
use crate::pow;
use crate::ranges;
use crate::response;
use crate::round_trip;
use crate::tree::BaoTree;

verus! {

impl BaoTree {
    /// Where a set meets the chunks between two blocks, it has one of them.
    proof fn lemma_met_chunk(self, b: Seq<u64>, from: nat, to: nat) -> (c: int)
        requires
            self.valid(),
            self.size.0 > 0,
            ranges::meets(b, self.chunk_at(from) as int, self.chunk_at(to) as int),
        ensures
            ranges::in_ranges(b, c),
            self.chunks_before(from) <= c < self.chunks_before(to),
    {
        self.lemma_chunks_before(from);
        self.lemma_chunks_before(to);
        choose|c: int|
            self.chunk_at(from) as int <= c < self.chunk_at(to) as int && ranges::in_ranges(b, c)
    }

    /// Where the chunks of a query are valid below a node, the response for the node
    /// is decoded without a failure.
    proof fn lemma_served_node(
        self,
        b: Seq<u64>,
        start: nat,
        level: nat,
        more: Seq<BaoChunk>,
        stack: Seq<Seq<u8>>,
        hash: Seq<u8>,
        pairs: Map<TreeNode, (Digest, Digest)>,
        file: Seq<u8>,
    )
        requires
            self.self_contained(),
            self.size.0 > 0,
            file.len() == self.size.0,
            self.has_node(start, level),
            self.no_pair_for_half_leaf(pairs),
            response::has_pairs(self.pre_order(b, start, level), pairs),
            self.queried_valid(b, pairs, file, start, level, hash),
        ensures
            ({
                let items = self.pre_order(b, start, level);
                let with_hash = if self.meets_node(b, start, level) {
                    stack.push(hash)
                } else {
                    stack
                };
                round_trip::decoded_back(items + more, with_hash, pairs, file)
                    == round_trip::preceded(
                    round_trip::genuine_views(items, pairs, file),
                    round_trip::decoded_back(more, stack, pairs, file),
                )
            }),
        decreases level,
    {
        let items = self.pre_order(b, start, level);
        let is_root = self.is_root(start, level);
        let left = self.meets_left(b, start, level);
        let right = self.meets_right(b, start, level);
        let mid = start + pow2(level);
        let end = start + 2 * pow2(level);
        let run = round_trip::decoded_back(more, stack, pairs, file);
        let node = self.node_of(start, level);
        pow::lemma_pow2_step(level);
        pow::lemma_pow2_step(0);
        self.lemma_meets_halves(b, start, level);
        self.lemma_chunks_before_mono(start, mid);
        self.lemma_chunks_before_mono(mid, end);
        self.lemma_block_slice(file, start);
        if !self.meets_node(b, start, level) {
            assert(Seq::<BaoChunk>::empty() + more =~= more);
            round_trip::lemma_preceded_none(pairs, file, run);
        } else {
            let c = self.lemma_met_chunk(b, start, end);
            assert(self.valid_file_chunks(pairs, file, start, level, hash, is_root).contains(c));
            if !self.has_pair(start, level) {
                assert(self.half_leaf(start));
                self.lemma_block_bytes(pairs, file, start, is_root);
                assert(stack.push(hash).drop_last() =~= stack);
                round_trip::lemma_back_item(
                    self.leaf_item(start, is_root),
                    more,
                    stack.push(hash),
                    stack,
                    pairs,
                    file,
                );
            } else {
                assert(items[0] == self.parent_item(start, level, left, right));
                let hl = pairs[node].0@;
                let hr = pairs[node].1@;
                let with_right = if right {
                    stack.push(hr)
                } else {
                    stack
                };
                let (il, ir) = if level > 0 {
                    (
                        self.pre_order(b, start, (level - 1) as nat),
                        self.pre_order(b, mid, self.right_level(start, level)),
                    )
                } else {
                    (
                        if left {
                            seq![self.leaf_item(start, false)]
                        } else {
                            Seq::empty()
                        },
                        if right {
                            seq![self.leaf_item(start + 1, false)]
                        } else {
                            Seq::empty()
                        },
                    )
                };
                if level > 0 {
                    self.lemma_children(start, level);
                    self.lemma_served_halves(b, start, level, hash, pairs, file);
                    self.lemma_served_node(
                        b,
                        mid,
                        self.right_level(start, level),
                        more,
                        stack,
                        hr,
                        pairs,
                        file,
                    );
                    self.lemma_served_node(
                        b,
                        start,
                        (level - 1) as nat,
                        ir + more,
                        with_right,
                        hl,
                        pairs,
                        file,
                    );
                } else {
                    self.lemma_served_blocks(b, start, hash, pairs, file);
                    self.lemma_back_block(right, start + 1, hr, more, stack, pairs, file);
                    self.lemma_back_block(left, start, hl, ir + more, with_right, pairs, file);
                }
                round_trip::lemma_back_parent(
                    node,
                    is_root,
                    left,
                    right,
                    il,
                    ir,
                    more,
                    stack,
                    hash,
                    pairs,
                    file,
                );
            }
        }
    }

    /// Where the chunks of a query are valid below a leaf, its blocks have the hashes
    /// of its hash pair.
    proof fn lemma_served_blocks(
        self,
        b: Seq<u64>,
        start: nat,
        hash: Seq<u8>,
        pairs: Map<TreeNode, (Digest, Digest)>,
        file: Seq<u8>,
    )
        requires
            self.self_contained(),
            self.size.0 > 0,
            file.len() == self.size.0,
            self.has_node(start, 0),
            !self.half_leaf(start),
            pairs.contains_key(self.node_of(start, 0)),
            self.queried_valid(b, pairs, file, start, 0, hash),
        ensures
            ({
                let pair = pairs[self.node_of(start, 0)];
                &&& self.meets_left(b, start, 0) ==> pair.0@ == hash::subtree_hash(
                    self.span(file, start, start + 1),
                    self.node_chunk(start),
                    false,
                )
                &&& self.meets_right(b, start, 0) ==> pair.1@ == hash::subtree_hash(
                    self.span(file, start + 1, start + 2),
                    self.node_chunk(start + 1),
                    false,
                )
            }),
    {
        let pair = pairs[self.node_of(start, 0)];
        pow::lemma_pow2_step(0);
        self.lemma_block_slice(file, start);
        self.lemma_block_slice(file, start + 1);
        self.lemma_chunks_before_mono(start, start + 1);
        self.lemma_chunks_before_mono(start + 1, start + 2);
        if self.meets_left(b, start, 0) {
            let c = self.lemma_met_chunk(b, start, start + 1);
            assert(!self.valid_block(file, start + 1, pair.1@, false).contains(c));
        }
        if self.meets_right(b, start, 0) {
            let c = self.lemma_met_chunk(b, start + 1, start + 2);
            assert(!self.valid_block(file, start, pair.0@, false).contains(c));
        }
    }

    /// What is valid below a node is valid below its children.
    proof fn lemma_served_halves(
        self,
        b: Seq<u64>,
        start: nat,
        level: nat,
        hash: Seq<u8>,
        pairs: Map<TreeNode, (Digest, Digest)>,
        file: Seq<u8>,
    )
        requires
            self.self_contained(),
            self.size.0 > 0,
            self.has_node(start, level),
            level > 0,
            self.meets_node(b, start, level),
            pairs.contains_key(self.node_of(start, level)),
            response::has_pairs(self.pre_order(b, start, level), pairs),
            self.queried_valid(b, pairs, file, start, level, hash),
        ensures
            ({
                let pair = pairs[self.node_of(start, level)];
                let mid = start + pow2(level);
                let l = (level - 1) as nat;
                let r = self.right_level(start, level);
                &&& self.queried_valid(b, pairs, file, start, l, pair.0@)
                &&& self.queried_valid(b, pairs, file, mid, r, pair.1@)
                &&& response::has_pairs(self.pre_order(b, start, l), pairs)
                &&& response::has_pairs(self.pre_order(b, mid, r), pairs)
            }),
    {
        let pair = pairs[self.node_of(start, level)];
        let mid = start + pow2(level);
        let end = start + 2 * pow2(level);
        let l = (level - 1) as nat;
        let r = self.right_level(start, level);
        let items = self.pre_order(b, start, level);
        let il = self.pre_order(b, start, l);
        let ir = self.pre_order(b, mid, r);
        self.lemma_children(start, level);
        self.lemma_chunks_before_mono(start, mid);
        self.lemma_chunks_before_mono(mid, end);
        self.lemma_valid_within(pairs, file, start, l, pair.0@, false);
        self.lemma_valid_within(pairs, file, mid, r, pair.1@, false);
        assert(self.chunks_before(mid + 2 * pow2(r)) == self.chunks_before(end));
        assert forall|i: int| 0 <= i < il.len() implies (
        #[trigger] il[i] matches BaoChunk::Parent { node, .. } ==> pairs.contains_key(node)) by {
            assert(items[i + 1] == il[i]);
        }
        assert forall|i: int| 0 <= i < ir.len() implies (
        #[trigger] ir[i] matches BaoChunk::Parent { node, .. } ==> pairs.contains_key(node)) by {
            assert(items[i + 1 + il.len()] == ir[i]);
        }
    }
}

/// Where every chunk of a query is valid, by an outboard that has the hash pairs of
/// the query, encoding with checks does not fail, and decoding gives back what was
/// encoded.
///
/// The chunk of an empty blob is never among the valid ones, so an empty blob is left
/// out.
pub proof fn law_valid_ranges_can_be_served(
    tree: BaoTree,
    b: Seq<u64>,
    root: Seq<u8>,
    pairs: Map<TreeNode, (Digest, Digest)>,
    file: Seq<u8>,
)
    requires
        tree.self_contained(),
        tree.size.0 > 0,
        file.len() == tree.size.0,
        tree.no_pair_for_half_leaf(pairs),
        response::has_pairs(tree.pre_order_plan(b), pairs),
        forall|c: int| #[trigger]
            ranges::in_ranges(b, c) && 0 <= c < num::chunks_of(tree.size.0 as nat)
                ==> tree.valid_file_chunks(
                pairs,
                file,
                0,
                tree.root_level(),
                root,
                true,
            ).contains(c),
    ensures
        round_trip::decoded_back(tree.pre_order_plan(b), seq![root], pairs, file) == (
        response::Decoded {
            items: round_trip::genuine_views(tree.pre_order_plan(b), pairs, file),
            failure: None,
            rest: Seq::empty(),
        }),
{
    let plan = tree.pre_order_plan(b);
    let level = tree.root_level();
    let views = round_trip::genuine_views(plan, pairs, file);
    tree.lemma_root();
    tree.lemma_chunks_before(0);
    tree.lemma_chunks_before(2 * pow2(level));
    tree.lemma_served_node(b, 0, level, Seq::empty(), Seq::empty(), root, pairs, file);
    assert(plan + Seq::<BaoChunk>::empty() =~= plan);
    assert(Seq::<Seq<u8>>::empty().push(root) =~= seq![root]);
    assert(views + Seq::<response::ItemView>::empty() =~= views);
    if plan.len() == 0 {
        assert(views =~= Seq::empty());
    }
}

} // verus!
