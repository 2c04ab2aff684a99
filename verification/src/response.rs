//! Responses to a query: a header with the size, then hash pairs and blocks in pre
//! order, each checked against the hash that its parent promised.
use vstd::arithmetic::power2::*;
use vstd::prelude::*;

use crate::hash;
use crate::hash::{Digest, HashStack};
use crate::iter::BaoChunk;
use crate::node::TreeNode;
use crate::num;
use crate::num::{BlockSize, ByteNum, ChunkNum};
use crate::ranges;
use crate::tree::BaoTree;

verus! {

/// How many bytes of a response belong to an item.
pub open spec fn item_len(item: BaoChunk) -> nat {
    match item {
        BaoChunk::Parent { .. } => 64,
        BaoChunk::Leaf { size, .. } => size as nat,
    }
}

/// The stack after an item whose bytes are `payload`: the hash on top is taken off,
/// and a parent puts the hashes of the halves that follow in its place, the left one
/// on top. There is none if the bytes do not have the hash on top.
pub open spec fn check_item(item: BaoChunk, stack: Seq<Seq<u8>>, payload: Seq<u8>) -> Option<
    Seq<Seq<u8>>,
> {
    let rest = stack.drop_last();
    match item {
        BaoChunk::Parent { is_root, left, right, .. } => {
            let l = payload.take(32);
            let r = payload.skip(32);
            if stack.last() == hash::parent_hash(l, r, is_root) {
                let with_right = if right {
                    rest.push(r)
                } else {
                    rest
                };
                Some(
                    if left {
                        with_right.push(l)
                    } else {
                        with_right
                    },
                )
            } else {
                None
            }
        },
        BaoChunk::Leaf { is_root, start_chunk, .. } => if stack.last() == hash::subtree_hash(
            payload,
            start_chunk.0 as nat,
            is_root,
        ) {
            Some(rest)
        } else {
            None
        },
    }
}

/// What a decoder gives out.
pub enum ItemView {
    /// The size of the blob.
    Header { size: u64 },
    /// A hash pair that was checked.
    Parent { node: TreeNode, pair: (Seq<u8>, Seq<u8>) },
    /// A block that was checked.
    Leaf { offset: nat, data: Seq<u8> },
}

/// Why decoding stopped.
pub enum Failure {
    /// The input ended.
    Eof,
    /// The query is not canonical.
    InvalidQueryRange,
    /// A hash pair did not match.
    Parent(TreeNode),
    /// A block did not match.
    Leaf(ChunkNum),
}

/// What an item gives when its bytes are `payload`.
pub open spec fn item_view(item: BaoChunk, payload: Seq<u8>) -> ItemView {
    match item {
        BaoChunk::Parent { node, .. } => ItemView::Parent {
            node,
            pair: (payload.take(32), payload.skip(32)),
        },
        BaoChunk::Leaf { start_chunk, .. } => ItemView::Leaf {
            offset: 1024 * start_chunk.0 as nat,
            data: payload,
        },
    }
}

/// The failure of an item whose bytes do not match.
pub open spec fn mismatch(item: BaoChunk) -> Failure {
    match item {
        BaoChunk::Parent { node, .. } => Failure::Parent(node),
        BaoChunk::Leaf { start_chunk, .. } => Failure::Leaf(start_chunk),
    }
}

/// What came out of an input: items, how it ended, and the input that was left.
pub struct Decoded {
    pub items: Seq<ItemView>,
    pub failure: Option<Failure>,
    pub rest: Seq<u8>,
}

/// Decodes the bytes of some items, given the hashes that are expected.
pub open spec fn decode_items(items: Seq<BaoChunk>, stack: Seq<Seq<u8>>, input: Seq<u8>) -> Decoded
    decreases items.len(),
{
    if items.len() == 0 {
        Decoded { items: Seq::empty(), failure: None, rest: input }
    } else {
        let n = item_len(items[0]) as int;
        if input.len() < n {
            Decoded { items: Seq::empty(), failure: Some(Failure::Eof), rest: input }
        } else {
            match check_item(items[0], stack, input.take(n)) {
                None => Decoded {
                    items: Seq::empty(),
                    failure: Some(mismatch(items[0])),
                    rest: input.skip(n),
                },
                Some(next) => {
                    let tail = decode_items(items.drop_first(), next, input.skip(n));
                    Decoded {
                        items: seq![item_view(items[0], input.take(n))] + tail.items,
                        failure: tail.failure,
                        rest: tail.rest,
                    }
                },
            }
        }
    }
}

/// Decodes a response to a query for the chunks in a set, given the root hash.
pub open spec fn decode_response(
    root: Seq<u8>,
    block_size: BlockSize,
    b: Seq<u64>,
    input: Seq<u8>,
) -> Decoded {
    if input.len() < 8 {
        Decoded { items: Seq::empty(), failure: Some(Failure::Eof), rest: input }
    } else {
        let size = num::le_value(input.take(8)) as u64;
        let rest = input.skip(8);
        if !ranges::ranges_canonical(b, num::chunks_of(size as nat)) {
            Decoded { items: Seq::empty(), failure: Some(Failure::InvalidQueryRange), rest }
        } else {
            let tree = BaoTree { size: ByteNum(size), block_size, start_chunk: ChunkNum(0) };
            let tail = decode_items(tree.pre_order_plan(b), seq![root], rest);
            Decoded {
                items: seq![ItemView::Header { size }] + tail.items,
                failure: tail.failure,
                rest: tail.rest,
            }
        }
    }
}

/// The bytes of an item: the hash pair of the node, or the block of the blob.
pub open spec fn item_bytes(
    item: BaoChunk,
    pairs: Map<TreeNode, (Digest, Digest)>,
    blob: Seq<u8>,
) -> Seq<u8> {
    match item {
        BaoChunk::Parent { node, .. } => pairs[node].0@ + pairs[node].1@,
        BaoChunk::Leaf { size, start_chunk, .. } => blob.subrange(
            1024 * start_chunk.0 as int,
            1024 * start_chunk.0 as int + size,
        ),
    }
}

/// The bytes of some items, one after the other.
pub open spec fn encode_items(
    items: Seq<BaoChunk>,
    pairs: Map<TreeNode, (Digest, Digest)>,
    blob: Seq<u8>,
) -> Seq<u8>
    decreases items.len(),
{
    if items.len() == 0 {
        Seq::empty()
    } else {
        item_bytes(items[0], pairs, blob) + encode_items(items.drop_first(), pairs, blob)
    }
}

/// The response to a query for the chunks in a set.
pub open spec fn encode_response(
    tree: BaoTree,
    pairs: Map<TreeNode, (Digest, Digest)>,
    b: Seq<u64>,
    blob: Seq<u8>,
) -> Seq<u8> {
    num::le_bytes(tree.size.0) + encode_items(tree.pre_order_plan(b), pairs, blob)
}

/// Whether the blocks among the items lie in the blob, are no larger than the
/// tree's, and start the blob where they are the root.
pub open spec fn leaves_in_blob(tree: BaoTree, items: Seq<BaoChunk>) -> bool {
    forall|i: int|
        0 <= i < items.len() ==> (#[trigger] items[i] matches BaoChunk::Leaf {
            size,
            is_root,
            start_chunk,
        } ==> 1024 * start_chunk.0 + size <= tree.size.0 && size <= tree.block_size.spec_bytes()
            && (is_root ==> start_chunk.0 == 0))
}

/// Whether there is a hash pair for every parent among the items.
pub open spec fn has_pairs(items: Seq<BaoChunk>, pairs: Map<TreeNode, (Digest, Digest)>) -> bool {
    forall|i: int|
        0 <= i < items.len() ==> (#[trigger] items[i] matches BaoChunk::Parent { node, .. }
            ==> pairs.contains_key(node))
}

/// Whether the items never need more hashes than a stack of `depth` has.
pub open spec fn pre_safe(items: Seq<BaoChunk>, depth: nat) -> bool
    decreases items.len(),
{
    items.len() == 0 || depth >= 1 && match items[0] {
        BaoChunk::Leaf { .. } => pre_safe(items.drop_first(), (depth - 1) as nat),
        BaoChunk::Parent { left, right, .. } => {
            let l: nat = if left {
                1
            } else {
                0
            };
            let r: nat = if right {
                1
            } else {
                0
            };
            pre_safe(items.drop_first(), (depth - 1 + l + r) as nat)
        },
    }
}

/// Checks a hash pair against the hash on top of the stack, which is taken off; if
/// they match, the hashes of the halves that follow are put on, the left one on top.
pub fn verify_parent(
    stack: &mut HashStack,
    pair: &(Digest, Digest),
    is_root: bool,
    left: bool,
    right: bool,
) -> (r: bool)
    requires
        old(stack)@.len() >= 1,
    ensures
        forall|node: TreeNode|
            r <==> (#[trigger] check_item(
                BaoChunk::Parent { node, is_root, left, right },
                old(stack)@,
                pair.0@ + pair.1@,
            )) is Some,
        forall|node: TreeNode|
            r ==> (#[trigger] check_item(
                BaoChunk::Parent { node, is_root, left, right },
                old(stack)@,
                pair.0@ + pair.1@,
            )) == Some(final(stack)@),
        !r ==> final(stack)@ == old(stack)@.drop_last(),
        r == (old(stack)@.last() == hash::parent_bytes(pair.0.0@, pair.1.0@, is_root)@),
{
    let (l_hash, r_hash) = *pair;
    let ghost payload = pair.0@ + pair.1@;
    proof {
        assert(payload.take(32) =~= l_hash@);
        assert(payload.skip(32) =~= r_hash@);
    }
    let parent_hash = stack.pop().unwrap();
    let actual = hash::parent_cv(&l_hash, &r_hash, is_root);
    if !parent_hash.same(&actual) {
        return false;
    }
    if right {
        stack.push(r_hash);
    }
    if left {
        stack.push(l_hash);
    }
    true
}

/// Checks a block against the hash on top of the stack, which is taken off.
pub fn verify_leaf(
    stack: &mut HashStack,
    data: &[u8],
    start_chunk: ChunkNum,
    is_root: bool,
) -> (r: bool)
    requires
        old(stack)@.len() >= 1,
        start_chunk.0 + data@.len() / 1024 < u64::MAX,
        hash::root_possible(start_chunk.0 as nat, data@.len(), is_root),
    ensures
        r == (old(stack)@.last() == hash::subtree_hash(data@, start_chunk.0 as nat, is_root)),
        final(stack)@ == old(stack)@.drop_last(),
{
    let actual = hash::hash_block(start_chunk, data, is_root);
    let leaf_hash = stack.pop().unwrap();
    leaf_hash.same(&actual)
}

impl BaoTree {
    /// The items of a node need one hash if the set meets it, and none otherwise.
    #[verifier::spinoff_prover]
    #[verifier::rlimit(50)]
    pub proof fn lemma_pre_safe(
        self,
        b: Seq<u64>,
        start: nat,
        level: nat,
        more: Seq<BaoChunk>,
        depth: nat,
    )
        requires
            self.valid(),
            self.has_node(start, level),
            pre_safe(more, depth),
        ensures
            self.meets_node(b, start, level) ==> pre_safe(
                self.pre_order(b, start, level) + more,
                depth + 1,
            ),
            !self.meets_node(b, start, level) ==> pre_safe(
                self.pre_order(b, start, level) + more,
                depth,
            ),
        decreases level,
    {
        let items = self.pre_order(b, start, level);
        let left = self.meets_left(b, start, level);
        let right = self.meets_right(b, start, level);
        self.lemma_meets_halves(b, start, level);
        if !self.meets_node(b, start, level) {
            assert(items + more =~= more);
        } else if level > 0 {
            let r = self.right_level(start, level);
            let il = self.pre_order(b, start, (level - 1) as nat);
            let ir = self.pre_order(b, start + pow2(level), r);
            let dr = if right {
                depth + 1
            } else {
                depth
            };
            self.lemma_children(start, level);
            self.lemma_pre_safe(b, start + pow2(level), r, more, depth);
            self.lemma_pre_safe(b, start, (level - 1) as nat, ir + more, dr);
            assert((items + more).drop_first() =~= il + (ir + more));
        } else if self.half_leaf(start) {
            assert((items + more).drop_first() =~= more);
        } else {
            let il = if left {
                seq![self.leaf_item(start, false)]
            } else {
                Seq::empty()
            };
            let ir = if right {
                seq![self.leaf_item(start + 1, false)]
            } else {
                Seq::empty()
            };
            let dr = if right {
                depth + 1
            } else {
                depth
            };
            assert(pre_safe(ir + more, dr)) by {
                if right {
                    assert((ir + more).drop_first() =~= more);
                } else {
                    assert(ir + more =~= more);
                }
            }
            let dl = if left {
                dr + 1
            } else {
                dr
            };
            assert(pre_safe(il + (ir + more), dl)) by {
                if left {
                    assert((il + (ir + more)).drop_first() =~= ir + more);
                } else {
                    assert(il + (ir + more) =~= ir + more);
                }
            }
            assert((items + more).drop_first() =~= il + (ir + more));
        }
    }

    /// The blocks of a traversal lie in the blob.
    pub proof fn lemma_pre_leaves(self, b: Seq<u64>, start: nat, level: nat)
        requires
            self.self_contained(),
            self.has_node(start, level),
        ensures
            leaves_in_blob(self, self.pre_order(b, start, level)),
        decreases level,
    {
        self.lemma_leaf_in_blob(start, self.is_root(start, level));
        self.lemma_leaf_in_blob(start, false);
        assert(0nat * self.block_size.spec_bytes() == 0) by (nonlinear_arith);
        if level > 0 {
            self.lemma_children(start, level);
            self.lemma_pre_leaves(b, start, (level - 1) as nat);
            self.lemma_pre_leaves(b, start + pow2(level), self.right_level(start, level));
        } else if !self.half_leaf(start) {
            self.lemma_leaf_in_blob(start + 1, false);
        }
    }

    /// A block of the tree lies in the blob.
    pub proof fn lemma_leaf_in_blob(self, block: nat, is_root: bool)
        requires
            self.self_contained(),
            block < self.spec_blocks(),
        ensures
            self.leaf_item(block, is_root) matches BaoChunk::Leaf { size, start_chunk, .. } && 1024
                * start_chunk.0 == self.byte_at(block) && 1024 * start_chunk.0 + size
                == self.byte_at(block + 1) && self.byte_at(block + 1) <= self.size.0 && size
                <= self.block_size.spec_bytes(),
    {
        self.lemma_leaf_item(block, is_root);
        self.lemma_block_start(block);
        self.lemma_chunk_at_mono(block, block + 1);
    }

    /// A stack with the root hash has all the hashes that a response needs.
    pub proof fn lemma_pre_plan(self, b: Seq<u64>)
        requires
            self.self_contained(),
        ensures
            pre_safe(self.pre_order_plan(b), 1),
            leaves_in_blob(self, self.pre_order_plan(b)),
    {
        let plan = self.pre_order_plan(b);
        self.lemma_root();
        self.lemma_pre_leaves(b, 0, self.root_level());
        self.lemma_pre_safe(b, 0, self.root_level(), Seq::empty(), 0);
        assert(plan + Seq::<BaoChunk>::empty() =~= plan);
    }
}

} // verus!
