//! What decoding gives back of what was encoded.
use vstd::arithmetic::power2::*;
use vstd::prelude::*;

use crate::encode;
use crate::hash;
use crate::hash::Digest;
use crate::iter::BaoChunk;
use crate::node::TreeNode;
use crate::num;
use crate::pow;
use crate::ranges;
use crate::response;
use crate::response::{Decoded, ItemView};
use crate::tree::BaoTree;

verus! {

/// What items give that have the bytes of a blob and its hash pairs.
pub open spec fn genuine_views(
    items: Seq<BaoChunk>,
    pairs: Map<TreeNode, (Digest, Digest)>,
    blob: Seq<u8>,
) -> Seq<ItemView> {
    Seq::new(
        items.len(),
        |i: int| response::item_view(items[i], response::item_bytes(items[i], pairs, blob)),
    )
}

/// What decoding gives of items that were encoded.
pub open spec fn decoded_back(
    items: Seq<BaoChunk>,
    stack: Seq<Seq<u8>>,
    pairs: Map<TreeNode, (Digest, Digest)>,
    blob: Seq<u8>,
) -> Decoded {
    response::decode_items(items, stack, response::encode_items(items, pairs, blob))
}

/// Items that come out before the rest.
pub open spec fn preceded(items: Seq<ItemView>, run: Decoded) -> Decoded {
    Decoded { items: items + run.items, failure: run.failure, rest: run.rest }
}

/// Whether the block of an item, if it is one, lies in a blob.
pub open spec fn item_in_blob(item: BaoChunk, blob: Seq<u8>) -> bool {
    item matches BaoChunk::Leaf { size, start_chunk, .. } ==> 1024 * start_chunk.0 + size
        <= blob.len()
}

/// The first item of those that were encoded.
pub(crate) proof fn lemma_back_item(
    item: BaoChunk,
    more: Seq<BaoChunk>,
    stack: Seq<Seq<u8>>,
    next: Seq<Seq<u8>>,
    pairs: Map<TreeNode, (Digest, Digest)>,
    blob: Seq<u8>,
)
    requires
        item_in_blob(item, blob),
        response::check_item(item, stack, response::item_bytes(item, pairs, blob)) == Some(next),
    ensures
        decoded_back(seq![item] + more, stack, pairs, blob) == preceded(
            genuine_views(seq![item], pairs, blob),
            decoded_back(more, next, pairs, blob),
        ),
{
    let items = seq![item] + more;
    let bytes = response::item_bytes(item, pairs, blob);
    let input = response::encode_items(items, pairs, blob);
    let n = response::item_len(item) as int;
    assert(items.drop_first() =~= more);
    assert(items[0] == item);
    assert(bytes.len() == n);
    assert(input.take(n) =~= bytes);
    assert(input.skip(n) =~= response::encode_items(more, pairs, blob));
    assert(genuine_views(seq![item], pairs, blob) =~= seq![response::item_view(item, bytes)]);
}

/// What comes out of two runs of items is what comes out of them together.
proof fn lemma_preceded_twice(
    a: Seq<BaoChunk>,
    b: Seq<BaoChunk>,
    pairs: Map<TreeNode, (Digest, Digest)>,
    blob: Seq<u8>,
    run: Decoded,
)
    ensures
        preceded(
            genuine_views(a, pairs, blob),
            preceded(genuine_views(b, pairs, blob), run),
        ) == preceded(genuine_views(a + b, pairs, blob), run),
{
    let va = genuine_views(a, pairs, blob);
    let vb = genuine_views(b, pairs, blob);
    assert(genuine_views(a + b, pairs, blob) =~= va + vb);
    assert(va + (vb + run.items) =~= (va + vb) + run.items);
}

/// No items.
pub(crate) proof fn lemma_preceded_none(
    pairs: Map<TreeNode, (Digest, Digest)>,
    blob: Seq<u8>,
    run: Decoded,
)
    ensures
        preceded(genuine_views(Seq::empty(), pairs, blob), run) == run,
{
    assert(genuine_views(Seq::empty(), pairs, blob) + run.items =~= run.items);
}

/// The hashes of the halves that follow a hash pair, on a stack.
pub(crate) open spec fn with_halves(
    stack: Seq<Seq<u8>>,
    pair: (Digest, Digest),
    left: bool,
    right: bool,
) -> Seq<Seq<u8>> {
    let with_right = if right {
        stack.push(pair.1@)
    } else {
        stack
    };
    if left {
        with_right.push(pair.0@)
    } else {
        with_right
    }
}

/// A hash pair and the two halves below it.
pub(crate) proof fn lemma_back_parent(
    node: TreeNode,
    is_root: bool,
    left: bool,
    right: bool,
    il: Seq<BaoChunk>,
    ir: Seq<BaoChunk>,
    more: Seq<BaoChunk>,
    stack: Seq<Seq<u8>>,
    hash: Seq<u8>,
    pairs: Map<TreeNode, (Digest, Digest)>,
    blob: Seq<u8>,
)
    requires
        hash == hash::parent_hash(pairs[node].0@, pairs[node].1@, is_root),
        decoded_back(ir + more, with_halves(stack, pairs[node], false, right), pairs, blob)
            == preceded(
            genuine_views(ir, pairs, blob),
            decoded_back(more, stack, pairs, blob),
        ),
        decoded_back(
            il + (ir + more),
            with_halves(stack, pairs[node], left, right),
            pairs,
            blob,
        ) == preceded(
            genuine_views(il, pairs, blob),
            decoded_back(
                ir + more,
                with_halves(stack, pairs[node], false, right),
                pairs,
                blob,
            ),
        ),
    ensures
        ({
            let items = seq![BaoChunk::Parent { node, is_root, left, right }] + (il + ir);
            decoded_back(items + more, stack.push(hash), pairs, blob) == preceded(
                genuine_views(items, pairs, blob),
                decoded_back(more, stack, pairs, blob),
            )
        }),
{
    let parent = BaoChunk::Parent { node, is_root, left, right };
    let items = seq![parent] + (il + ir);
    let run = decoded_back(more, stack, pairs, blob);
    let bytes = response::item_bytes(parent, pairs, blob);
    assert(bytes.take(32) =~= pairs[node].0@);
    assert(bytes.skip(32) =~= pairs[node].1@);
    assert(stack.push(hash).drop_last() =~= stack);
    assert(items + more =~= seq![parent] + (il + (ir + more)));
    lemma_back_item(
        parent,
        il + (ir + more),
        stack.push(hash),
        with_halves(stack, pairs[node], left, right),
        pairs,
        blob,
    );
    lemma_preceded_twice(il, ir, pairs, blob, run);
    lemma_preceded_twice(seq![parent], il + ir, pairs, blob, run);
}

impl BaoTree {
    /// A block, if it is asked for, given its hash.
    pub(crate) proof fn lemma_back_block(
        self,
        taken: bool,
        block: nat,
        hash: Seq<u8>,
        more: Seq<BaoChunk>,
        stack: Seq<Seq<u8>>,
        pairs: Map<TreeNode, (Digest, Digest)>,
        blob: Seq<u8>,
    )
        requires
            self.self_contained(),
            blob.len() == self.size.0,
            block < self.spec_blocks(),
            taken ==> hash == hash::subtree_hash(
                self.span(blob, block, block + 1),
                self.node_chunk(block),
                false,
            ),
        ensures
            ({
                let items = if taken {
                    seq![self.leaf_item(block, false)]
                } else {
                    Seq::empty()
                };
                let with_hash = if taken {
                    stack.push(hash)
                } else {
                    stack
                };
                decoded_back(items + more, with_hash, pairs, blob) == preceded(
                    genuine_views(items, pairs, blob),
                    decoded_back(more, stack, pairs, blob),
                )
            }),
    {
        if taken {
            self.lemma_block_bytes(pairs, blob, block, false);
            assert(stack.push(hash).drop_last() =~= stack);
            lemma_back_item(
                self.leaf_item(block, false),
                more,
                stack.push(hash),
                stack,
                pairs,
                blob,
            );
        } else {
            assert(Seq::<BaoChunk>::empty() + more =~= more);
            lemma_preceded_none(pairs, blob, decoded_back(more, stack, pairs, blob));
        }
    }

    /// What was encoded for a node is decoded without a failure, given its hash.
    proof fn lemma_back_node(
        self,
        b: Seq<u64>,
        start: nat,
        level: nat,
        more: Seq<BaoChunk>,
        stack: Seq<Seq<u8>>,
        root: Seq<u8>,
        pairs: Map<TreeNode, (Digest, Digest)>,
        blob: Seq<u8>,
    )
        requires
            self.consistent(root, pairs, blob),
            self.has_node(start, level),
        ensures
            ({
                let items = self.pre_order(b, start, level);
                let hash = self.node_hash(blob, start, level, self.is_root(start, level));
                let with_hash = if self.meets_node(b, start, level) {
                    stack.push(hash)
                } else {
                    stack
                };
                decoded_back(items + more, with_hash, pairs, blob) == preceded(
                    genuine_views(items, pairs, blob),
                    decoded_back(more, stack, pairs, blob),
                )
            }),
        decreases level,
    {
        let items = self.pre_order(b, start, level);
        let is_root = self.is_root(start, level);
        let left = self.meets_left(b, start, level);
        let right = self.meets_right(b, start, level);
        let run = decoded_back(more, stack, pairs, blob);
        self.lemma_meets_halves(b, start, level);
        self.lemma_node_hash(blob, start, level, is_root);
        pow::lemma_pow2_step(0);
        if !self.meets_node(b, start, level) {
            assert(Seq::<BaoChunk>::empty() + more =~= more);
            lemma_preceded_none(pairs, blob, run);
        } else if !self.has_pair(start, level) {
            let hash = self.node_hash(blob, start, level, is_root);
            self.lemma_block_bytes(pairs, blob, start, is_root);
            assert(stack.push(hash).drop_last() =~= stack);
            lemma_back_item(
                self.leaf_item(start, is_root),
                more,
                stack.push(hash),
                stack,
                pairs,
                blob,
            );
        } else {
            let node = self.node_of(start, level);
            let hash = self.node_hash(blob, start, level, is_root);
            let hl = self.left_hash(blob, start, level);
            let hr = self.right_hash(blob, start, level);
            let with_right = if right {
                stack.push(hr)
            } else {
                stack
            };
            assert(self.pair_consistent(pairs, blob, start, level));
            let (il, ir) = if level > 0 {
                (
                    self.pre_order(b, start, (level - 1) as nat),
                    self.pre_order(b, start + pow2(level), self.right_level(start, level)),
                )
            } else {
                (
                    if left {
                        seq![self.leaf_item(start, false)]
                    } else {
                        Seq::empty()
                    },
                    if right {
                        seq![self.leaf_item(start + 1, false)]
                    } else {
                        Seq::empty()
                    },
                )
            };
            if level > 0 {
                let r = self.right_level(start, level);
                self.lemma_children(start, level);
                self.lemma_back_node(
                    b,
                    start + pow2(level),
                    r,
                    more,
                    stack,
                    root,
                    pairs,
                    blob,
                );
                self.lemma_back_node(
                    b,
                    start,
                    (level - 1) as nat,
                    ir + more,
                    with_right,
                    root,
                    pairs,
                    blob,
                );
            } else {
                self.lemma_back_block(right, start + 1, hr, more, stack, pairs, blob);
                self.lemma_back_block(left, start, hl, ir + more, with_right, pairs, blob);
            }
            lemma_back_parent(
                node,
                is_root,
                left,
                right,
                il,
                ir,
                more,
                stack,
                hash,
                pairs,
                blob,
            );
        }
    }

    /// What was encoded from a consistent outboard is decoded without a failure.
    pub proof fn lemma_plan_decoded_back(
        self,
        b: Seq<u64>,
        root: Seq<u8>,
        pairs: Map<TreeNode, (Digest, Digest)>,
        blob: Seq<u8>,
    )
        requires
            self.consistent(root, pairs, blob),
        ensures
            decoded_back(self.pre_order_plan(b), seq![root], pairs, blob) == (Decoded {
                items: genuine_views(self.pre_order_plan(b), pairs, blob),
                failure: None,
                rest: Seq::empty(),
            }),
    {
        let plan = self.pre_order_plan(b);
        let level = self.root_level();
        self.lemma_root();
        self.lemma_root_hash(blob);
        self.lemma_back_node(b, 0, level, Seq::empty(), Seq::empty(), root, pairs, blob);
        self.lemma_past_end(2 * pow2(level));
        assert(0nat * self.block_size.spec_chunks() == 0) by (nonlinear_arith);
        assert(plan + Seq::<BaoChunk>::empty() =~= plan);
        assert(Seq::<Seq<u8>>::empty().push(root) =~= seq![root]);
        let views = genuine_views(plan, pairs, blob);
        assert(views + Seq::<ItemView>::empty() =~= views);
        if plan.len() == 0 {
            assert(views =~= Seq::empty());
        }
    }

    /// A consistent outboard has the hash pairs that a node needs.
    proof fn lemma_node_pairs(
        self,
        b: Seq<u64>,
        start: nat,
        level: nat,
        root: Seq<u8>,
        pairs: Map<TreeNode, (Digest, Digest)>,
        blob: Seq<u8>,
    )
        requires
            self.consistent(root, pairs, blob),
            self.has_node(start, level),
        ensures
            response::has_pairs(self.pre_order(b, start, level), pairs),
        decreases level,
    {
        assert(self.pair_consistent(pairs, blob, start, level));
        if level > 0 {
            self.lemma_children(start, level);
            self.lemma_node_pairs(b, start, (level - 1) as nat, root, pairs, blob);
            self.lemma_node_pairs(
                b,
                start + pow2(level),
                self.right_level(start, level),
                root,
                pairs,
                blob,
            );
        }
    }
}

/// A consistent outboard has all hash pairs that a response needs, whatever the
/// query.
pub proof fn law_consistent_outboard_can_be_encoded(
    tree: BaoTree,
    b: Seq<u64>,
    root: Seq<u8>,
    pairs: Map<TreeNode, (Digest, Digest)>,
    blob: Seq<u8>,
)
    requires
        tree.consistent(root, pairs, blob),
    ensures
        response::has_pairs(tree.pre_order_plan(b), pairs),
{
    tree.lemma_root();
    tree.lemma_node_pairs(b, 0, tree.root_level(), root, pairs, blob);
}

/// Decoding a response that was encoded without checks gives the header, and then
/// what an encoder with checks would have found: the same items before the same
/// failure, or all items and no failure.
pub proof fn law_decoding_finds_what_validation_finds(
    tree: BaoTree,
    b: Seq<u64>,
    root: Seq<u8>,
    pairs: Map<TreeNode, (Digest, Digest)>,
    blob: Seq<u8>,
)
    requires
        tree.self_contained(),
        encode::encodable(tree, b, blob),
    ensures
        response::decode_response(
            root,
            tree.block_size,
            b,
            response::encode_response(tree, pairs, b, blob),
        ) == preceded(
            seq![ItemView::Header { size: tree.size.0 }],
            decoded_back(tree.pre_order_plan(b), seq![root], pairs, blob),
        ),
{
    let input = response::encode_response(tree, pairs, b, blob);
    let header = num::le_bytes(tree.size.0);
    num::law_le_bytes_read_back(tree.size.0);
    assert(input.take(8) =~= header);
    assert(input.skip(8) =~= response::encode_items(tree.pre_order_plan(b), pairs, blob));
}

/// Decoding gives back what was encoded from a consistent outboard: the size, and
/// then exactly the hash pairs and the blocks of the blob that the query asks for,
/// without a failure and without input that is left.
pub proof fn law_round_trip(
    tree: BaoTree,
    b: Seq<u64>,
    root: Seq<u8>,
    pairs: Map<TreeNode, (Digest, Digest)>,
    blob: Seq<u8>,
)
    requires
        tree.consistent(root, pairs, blob),
        ranges::ranges_canonical(b, num::chunks_of(tree.size.0 as nat)),
    ensures
        response::decode_response(
            root,
            tree.block_size,
            b,
            response::encode_response(tree, pairs, b, blob),
        ) == (Decoded {
            items: seq![ItemView::Header { size: tree.size.0 }] + genuine_views(
                tree.pre_order_plan(b),
                pairs,
                blob,
            ),
            failure: None,
            rest: Seq::empty(),
        }),
{
    law_decoding_finds_what_validation_finds(tree, b, root, pairs, blob);
    tree.lemma_plan_decoded_back(b, root, pairs, blob);
}

} // verus!
