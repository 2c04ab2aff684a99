//! Traversals of a tree, item by item.
use range_collections::RangeSetRef;
use vstd::arithmetic::power2::*;
use vstd::prelude::*;

use crate::node;
use crate::node::TreeNode;
use crate::num::ChunkNum;
use crate::pow;
use crate::ranges;
use crate::tree::BaoTree;

verus! {

/// A step of a traversal.
#[derive(Clone, Copy, Debug, PartialEq, Eq, Structural)]
pub enum BaoChunk {
    /// A node with a hash pair.
    Parent {
        /// The node.
        node: TreeNode,
        /// Whether the node is the root.
        is_root: bool,
        /// Whether something of the left half is part of the traversal.
        left: bool,
        /// Whether something of the right half is part of the traversal.
        right: bool,
    },
    /// A block of data.
    Leaf {
        /// The number of bytes in the block.
        size: usize,
        /// Whether the block is all there is.
        is_root: bool,
        /// The number of the first chunk of the block.
        start_chunk: ChunkNum,
    },
}

impl BaoTree {
    /// The item for a block.
    pub open spec fn leaf_item(self, block: nat, is_root: bool) -> BaoChunk {
        BaoChunk::Leaf {
            size: (self.byte_at(block + 1) - self.byte_at(block)) as usize,
            is_root,
            start_chunk: ChunkNum(
                (self.start_chunk.0 + block * self.block_size.spec_chunks()) as u64,
            ),
        }
    }

    /// The item for a node with a hash pair.
    pub open spec fn parent_item(self, start: nat, level: nat, left: bool, right: bool) -> BaoChunk {
        BaoChunk::Parent {
            node: TreeNode(node::node_at(start, level) as u64),
            is_root: self.is_root(start, level),
            left,
            right,
        }
    }

    /// What a node covers, its blocks and hash pairs, children before parents.
    pub open spec fn post_order(self, start: nat, level: nat) -> Seq<BaoChunk>
        decreases level,
    {
        if level == 0 {
            if self.half_leaf(start) {
                seq![self.leaf_item(start, self.is_root(start, 0))]
            } else {
                seq![
                    self.leaf_item(start, false),
                    self.leaf_item(start + 1, false),
                    self.parent_item(start, 0, true, true),
                ]
            }
        } else {
            proof {
                crate::tree::lemma_fit_level(
                    start + pow2(level),
                    (level - 1) as nat,
                    self.spec_filled_size(),
                );
            }
            (self.post_order(start, (level - 1) as nat) + self.post_order(
                start + pow2(level),
                self.right_level(start, level),
            )).push(self.parent_item(start, level, true, true))
        }
    }

    /// Whether a chunk of the left half of a node is in a set.
    pub open spec fn meets_left(self, b: Seq<u64>, start: nat, level: nat) -> bool {
        ranges::meets(
            b,
            self.chunk_at(start) as int,
            self.chunk_at(start + pow2(level)) as int,
        )
    }

    /// Whether a chunk of the right half of a node is in a set.
    pub open spec fn meets_right(self, b: Seq<u64>, start: nat, level: nat) -> bool {
        ranges::meets(
            b,
            self.chunk_at(start + pow2(level)) as int,
            self.chunk_at(start + 2 * pow2(level)) as int,
        )
    }

    /// Whether a chunk that a node covers is in a set.
    pub open spec fn meets_node(self, b: Seq<u64>, start: nat, level: nat) -> bool {
        ranges::meets(
            b,
            self.chunk_at(start) as int,
            self.chunk_at(start + 2 * pow2(level)) as int,
        )
    }

    /// The blocks of a node that hold a chunk of a set, with the hash pairs on
    /// the way to them, parents before children.
    pub open spec fn pre_order(self, b: Seq<u64>, start: nat, level: nat) -> Seq<BaoChunk>
        decreases level,
    {
        let left = self.meets_left(b, start, level);
        let right = self.meets_right(b, start, level);
        if !self.meets_node(b, start, level) {
            Seq::empty()
        } else if level > 0 {
            proof {
                crate::tree::lemma_fit_level(
                    start + pow2(level),
                    (level - 1) as nat,
                    self.spec_filled_size(),
                );
            }
            seq![self.parent_item(start, level, left, right)] + (self.pre_order(
                b,
                start,
                (level - 1) as nat,
            ) + self.pre_order(b, start + pow2(level), self.right_level(start, level)))
        } else if self.half_leaf(start) {
            seq![self.leaf_item(start, self.is_root(start, 0))]
        } else {
            let l = if left {
                seq![self.leaf_item(start, false)]
            } else {
                Seq::empty()
            };
            let r = if right {
                seq![self.leaf_item(start + 1, false)]
            } else {
                Seq::empty()
            };
            seq![self.parent_item(start, 0, left, right)] + (l + r)
        }
    }

    /// All blocks and hash pairs, children before parents.
    pub open spec fn post_order_plan(self) -> Seq<BaoChunk> {
        self.post_order(0, self.root_level())
    }

    /// What answers a query for a set of chunks, parents before children.
    pub open spec fn pre_order_plan(self, b: Seq<u64>) -> Seq<BaoChunk> {
        self.pre_order(b, 0, self.root_level())
    }

    /// A set meets a node if it meets one of its halves.
    pub proof fn lemma_meets_halves(self, b: Seq<u64>, start: nat, level: nat)
        requires
            self.valid(),
            self.has_node(start, level),
        ensures
            self.meets_node(b, start, level) == (self.meets_left(b, start, level)
                || self.meets_right(b, start, level)),
            level == 0 && self.half_leaf(start) ==> !self.meets_right(b, start, level),
            level > 0 ==> self.meets_left(b, start, level) == self.meets_node(
                b,
                start,
                (level - 1) as nat,
            ),
            level > 0 ==> self.meets_right(b, start, level) == self.meets_node(
                b,
                start + pow2(level),
                self.right_level(start, level),
            ),
    {
        pow::lemma_pow2_step(level);
        pow::lemma_pow2_step(0);
        let m = start + pow2(level);
        let e = start + 2 * pow2(level);
        self.lemma_chunk_at_mono(start, m);
        self.lemma_chunk_at_mono(m, e);
        if level > 0 {
            self.lemma_children(start, level);
        } else if self.half_leaf(start) {
            self.lemma_past_end(m);
            self.lemma_past_end(e);
        }
    }

    /// Later blocks have later chunks and bytes.
    pub proof fn lemma_chunk_at_mono(self, a: nat, b: nat)
        requires
            a <= b,
        ensures
            self.chunk_at(a) <= self.chunk_at(b),
            self.byte_at(a) <= self.byte_at(b),
    {
        vstd::arithmetic::mul::lemma_mul_inequality(
            a as int,
            b as int,
            self.block_size.spec_chunks() as int,
        );
        vstd::arithmetic::mul::lemma_mul_inequality(
            a as int,
            b as int,
            self.block_size.spec_bytes() as int,
        );
    }

    /// Whether a chunk of a block is in a set.
    pub open spec fn meets_block(self, b: Seq<u64>, block: nat) -> bool {
        ranges::meets(b, self.chunk_at(block) as int, self.chunk_at(block + 1) as int)
    }

    /// Whether an item is that of a block.
    pub open spec fn is_block(self, item: BaoChunk, block: nat) -> bool {
        item == self.leaf_item(block, false) || item == self.leaf_item(block, true)
    }

    /// Whether an item is that of a block, of those that a node covers, which holds
    /// a chunk of a set.
    pub open spec fn is_block_met(
        self,
        b: Seq<u64>,
        start: nat,
        level: nat,
        item: BaoChunk,
        block: nat,
    ) -> bool {
        &&& start <= block < start + 2 * pow2(level)
        &&& block < self.spec_blocks()
        &&& self.meets_block(b, block)
        &&& self.is_block(item, block)
    }

    /// The blocks of a traversal are those that hold a chunk of the set.
    #[verifier::spinoff_prover]
    #[verifier::rlimit(50)]
    pub proof fn lemma_pre_blocks(self, b: Seq<u64>, start: nat, level: nat)
        requires
            self.valid(),
            self.has_node(start, level),
        ensures
            forall|i: int|
                0 <= i < self.pre_order(b, start, level).len() && (#[trigger] self.pre_order(
                    b,
                    start,
                    level,
                )[i]) is Leaf ==> exists|block: nat| #[trigger]
                    self.is_block_met(b, start, level, self.pre_order(b, start, level)[i], block),
            forall|block: nat|
                start <= block < start + 2 * pow2(level) && block < self.spec_blocks()
                    && #[trigger] self.meets_block(b, block) ==> exists|i: int|
                    0 <= i < self.pre_order(b, start, level).len() && self.is_block(
                        #[trigger] self.pre_order(b, start, level)[i],
                        block,
                    ),
        decreases level,
    {
        let items = self.pre_order(b, start, level);
        pow::lemma_pow2_step(level);
        pow::lemma_pow2_step(0);
        self.lemma_meets_halves(b, start, level);
        if level > 0 {
            let l = (level - 1) as nat;
            let r = self.right_level(start, level);
            let mid = start + pow2(level);
            let left = self.meets_left(b, start, level);
            let right = self.meets_right(b, start, level);
            let parent = self.parent_item(start, level, left, right);
            let il = self.pre_order(b, start, l);
            let ir = self.pre_order(b, mid, r);
            self.lemma_children(start, level);
            self.lemma_pre_blocks(b, start, l);
            self.lemma_pre_blocks(b, mid, r);
            pow::lemma_pow2_mono(r, l);
            assert forall|i: int| 0 <= i < items.len() && (#[trigger] items[i]) is Leaf implies exists|
                block: nat,
            | #[trigger]
                self.is_block_met(b, start, level, items[i], block) by {
                if i - 1 < il.len() {
                    assert(items[i] == il[i - 1]);
                    let block = choose|block: nat| #[trigger]
                        self.is_block_met(b, start, l, il[i - 1], block);
                    assert(self.is_block_met(b, start, level, items[i], block));
                } else {
                    let j = i - 1 - il.len();
                    assert(items[i] == ir[j]);
                    let block = choose|block: nat| #[trigger]
                        self.is_block_met(b, mid, r, ir[j], block);
                    assert(self.is_block_met(b, start, level, items[i], block));
                }
            }
            assert forall|block: nat|
                start <= block < start + 2 * pow2(level) && block < self.spec_blocks()
                    && #[trigger] self.meets_block(b, block) implies exists|i: int|
                0 <= i < items.len() && self.is_block(#[trigger] items[i], block) by {
                self.lemma_meets_node(b, start, level, block);
                if block < mid {
                    let i = choose|i: int|
                        0 <= i < il.len() && self.is_block(#[trigger] il[i], block);
                    assert(items[i + 1] == il[i]);
                } else {
                    let i = choose|i: int|
                        0 <= i < ir.len() && self.is_block(#[trigger] ir[i], block);
                    assert(items[i + 1 + il.len()] == ir[i]);
                }
            }
        } else {
            assert forall|block: nat|
                start <= block < start + 2 * pow2(level) && block < self.spec_blocks()
                    && #[trigger] self.meets_block(b, block) implies exists|i: int|
                0 <= i < items.len() && self.is_block(#[trigger] items[i], block) by {
                self.lemma_meets_node(b, start, level, block);
                if block == start {
                    if self.half_leaf(start) {
                        assert(self.is_block(items[0], block));
                    } else {
                        assert(self.is_block(items[1], block));
                    }
                } else {
                    assert(self.is_block(items[items.len() - 1], block));
                }
            }
            assert forall|i: int| 0 <= i < items.len() && (#[trigger] items[i]) is Leaf implies exists|
                block: nat,
            | #[trigger]
                self.is_block_met(b, start, level, items[i], block) by {
                if self.half_leaf(start) {
                    self.lemma_past_end(start + 1);
                    self.lemma_past_end(start + 2);
                    assert(self.is_block_met(b, start, level, items[i], start));
                } else if i == 1 && self.meets_left(b, start, level) {
                    assert(self.is_block_met(b, start, level, items[i], start));
                } else {
                    assert(self.is_block_met(b, start, level, items[i], start + 1));
                }
            }
        }
    }

    /// A set that meets a block meets the nodes that cover it.
    proof fn lemma_meets_node(self, b: Seq<u64>, start: nat, level: nat, block: nat)
        requires
            start <= block < start + 2 * pow2(level),
            self.meets_block(b, block),
        ensures
            self.meets_node(b, start, level),
    {
        self.lemma_chunk_at_mono(start, block);
        self.lemma_chunk_at_mono(block + 1, start + 2 * pow2(level));
    }

    /// The number, within the blob, of the first chunk of a block.
    fn chunk_of_block(&self, block: u64) -> (r: u64)
        requires
            self.valid(),
        ensures
            r == self.chunk_at(block as nat),
    {
        if block >= self.blocks() {
            proof {
                self.lemma_past_end(block as nat);
            }
            if self.size.0 == 0 {
                1
            } else {
                self.chunks().0
            }
        } else {
            proof {
                self.lemma_block_start(block as nat);
            }
            block * self.block_size.chunks()
        }
    }

    /// The items for the two blocks of a leaf; the second is missing from a half
    /// leaf.
    fn leaf_items(&self, node: TreeNode) -> (r: (BaoChunk, Option<BaoChunk>))
        requires
            self.valid(),
            self.has_node(node.0 as nat, 0),
        ensures
            r.1 is None <==> self.half_leaf(node.0 as nat),
            r.1 is None ==> r.0 == self.leaf_item(
                node.0 as nat,
                self.is_root(node.0 as nat, 0),
            ),
            r.1 is Some ==> r.0 == self.leaf_item(node.0 as nat, false),
            r.1 matches Some(right) ==> right == self.leaf_item(node.0 as nat + 1, false),
    {
        let leaf = node::LeafNode(node.0);
        let (s, m, e) = self.leaf_byte_ranges3(leaf);
        let l_start_chunk = self.chunk_num(leaf);
        let half: bool = m.0 == e.0;
        proof {
            pow::lemma_pow2_step(0);
            node::lemma_node_at(node.0 as nat, 0);
            self.lemma_root();
        }
        let is_root: bool = node.0 == self.root().0;
        assert(is_root == self.is_root(node.0 as nat, 0));
        let left = BaoChunk::Leaf {
            size: (m.0 - s.0) as usize,
            is_root: is_root && half,
            start_chunk: l_start_chunk,
        };
        if half {
            return (left, None);
        }
        proof {
            self.lemma_block_start(node.0 as nat + 1);
            let g = self.block_size.spec_chunks();
            assert((node.0 + 1) * g == node.0 * g + g) by (nonlinear_arith);
        }
        let r_start_chunk = ChunkNum(l_start_chunk.0 + self.chunk_group_chunks().0);
        let right = BaoChunk::Leaf {
            size: (e.0 - m.0) as usize,
            is_root: false,
            start_chunk: r_start_chunk,
        };
        (left, Some(right))
    }
}

/// What a traversal has left to do: a node to go through, or an item to give.
#[derive(Clone, Copy, Debug)]
pub(crate) enum Step {
    Node(TreeNode),
    Item(BaoChunk),
}

/// A node of a tree, as its numbering gives it.
pub(crate) open spec fn node_in(tree: BaoTree, n: TreeNode) -> bool {
    &&& n.spec_start() >= 0
    &&& tree.has_node(n.spec_start() as nat, n.spec_level())
    &&& n.0 < tree.spec_filled_size()
}

/// All nodes that are left are nodes of the tree.
pub(crate) open spec fn steps_in(tree: BaoTree, steps: Seq<Step>) -> bool {
    forall|i: int|
        0 <= i < steps.len() ==> (#[trigger] steps[i] matches Step::Node(n) ==> node_in(tree, n))
}

/// The items of one step of a traversal in post order.
pub(crate) open spec fn post_step(tree: BaoTree, step: Step) -> Seq<BaoChunk> {
    match step {
        Step::Node(n) => tree.post_order(n.spec_start() as nat, n.spec_level()),
        Step::Item(item) => seq![item],
    }
}

/// The items of the steps that are left, the last step first.
pub(crate) open spec fn post_steps(tree: BaoTree, steps: Seq<Step>) -> Seq<BaoChunk>
    decreases steps.len(),
{
    if steps.len() == 0 {
        Seq::empty()
    } else {
        post_step(tree, steps.last()) + post_steps(tree, steps.drop_last())
    }
}

/// The items of one step of a traversal in pre order.
pub(crate) open spec fn pre_step(tree: BaoTree, b: Seq<u64>, step: Step) -> Seq<BaoChunk> {
    match step {
        Step::Node(n) => tree.pre_order(b, n.spec_start() as nat, n.spec_level()),
        Step::Item(item) => seq![item],
    }
}

/// The items of the steps that are left, the last step first.
pub(crate) open spec fn pre_steps(tree: BaoTree, b: Seq<u64>, steps: Seq<Step>) -> Seq<BaoChunk>
    decreases steps.len(),
{
    if steps.len() == 0 {
        Seq::empty()
    } else {
        pre_step(tree, b, steps.last()) + pre_steps(tree, b, steps.drop_last())
    }
}

/// A traversal of a whole tree, children before parents.
#[derive(Debug)]
pub struct PostOrderChunkIter {
    tree: BaoTree,
    filled_size: TreeNode,
    stack: Vec<Step>,
}

impl PostOrderChunkIter {
    /// The stack holds nodes of the tree.
    pub closed spec fn valid(self) -> bool {
        &&& self.tree.valid()
        &&& self.filled_size.0 == self.tree.spec_filled_size()
        &&& steps_in(self.tree, self.stack@)
    }

    /// The items that are still to come.
    pub closed spec fn remaining(self) -> Seq<BaoChunk> {
        post_steps(self.tree, self.stack@)
    }

    /// Starts a traversal.
    pub fn new(tree: BaoTree) -> (r: PostOrderChunkIter)
        requires
            tree.valid(),
        ensures
            r.valid(),
            r.remaining() == tree.post_order_plan(),
    {
        let root = tree.root();
        let mut stack: Vec<Step> = Vec::new();
        stack.push(Step::Node(root));
        proof {
            reveal_with_fuel(post_steps, 2);
            assert(stack@.drop_last() =~= Seq::<Step>::empty());
            assert(post_steps(tree, stack@) =~= tree.post_order_plan());
        }
        PostOrderChunkIter { tree, filled_size: tree.filled_size(), stack }
    }

    /// The next item, if there is one.
    pub fn next(&mut self) -> (r: Option<BaoChunk>)
        requires
            old(self).valid(),
        ensures
            final(self).valid(),
            r is None <==> old(self).remaining().len() == 0,
            r matches Some(item) ==> item == old(self).remaining()[0],
            r is Some ==> final(self).remaining() == old(self).remaining().drop_first(),
            r is None ==> final(self).remaining() == old(self).remaining(),
    {
        let ghost before = self.remaining();
        let tree = self.tree;
        let mut node: TreeNode = match self.stack.pop() {
            None => return None,
            Some(Step::Item(item)) => {
                proof {
                    assert(before =~= seq![item] + self.remaining());
                    assert(before.drop_first() =~= self.remaining());
                }
                return Some(item);
            },
            Some(Step::Node(node)) => node,
        };
        proof {
            tree.lemma_root();
        }
        let root = tree.root();
        while !node.is_leaf()
            invariant
                tree == self.tree,
                self.valid(),
                node_in(tree, node),
                tree.spec_filled_size() <= 0x40_0000_0000_0001,
                root == tree.spec_root(),
                root.spec_start() == 0,
                root.spec_level() == tree.root_level(),
                before == tree.post_order(node.spec_start() as nat, node.spec_level())
                    + self.remaining(),
            decreases node.spec_level(),
        {
            let ghost s = node.spec_start() as nat;
            let ghost l = node.spec_level();
            let ghost rest = self.stack@;
            proof {
                tree.lemma_children(s, l);
                tree.lemma_blocks();
                node.lemma_shape();
                pow::lemma_pow2_step(l);
                root.lemma_shape();
            }
            let left = node.left_child();
            let right = node.right_descendant(self.filled_size);
            match (left, right) {
                (Some(left), Some(right)) => {
                    let parent = BaoChunk::Parent {
                        node,
                        is_root: node.0 == root.0,
                        left: true,
                        right: true,
                    };
                    proof {
                        left.lemma_shape();
                        right.lemma_shape();
                        assert(parent == tree.parent_item(s, l, true, true));
                    }
                    self.stack.push(Step::Item(parent));
                    let ghost one = self.stack@;
                    self.stack.push(Step::Node(right));
                    proof {
                        let two = self.stack@;
                        assert(one.drop_last() =~= rest);
                        assert(two.drop_last() =~= one);
                        assert(post_steps(tree, one) == seq![parent] + post_steps(tree, rest));
                        assert(post_steps(tree, two) == tree.post_order(
                            right.spec_start() as nat,
                            right.spec_level(),
                        ) + post_steps(tree, one));
                        assert(before =~= tree.post_order(s, (l - 1) as nat) + post_steps(
                            tree,
                            two,
                        ));
                    }
                    node = left;
                },
                _ => {
                    assert(false);
                    return None;
                },
            }
        }
        let ghost s = node.spec_start() as nat;
        let ghost rest = self.stack@;
        proof {
            node.lemma_shape();
            pow::lemma_pow2_step(0);
            root.lemma_shape();
            assert(node.0 == s);
        }
        let (first, second) = tree.leaf_items(node);
        match second {
            None => {
                proof {
                    assert(before.drop_first() =~= self.remaining());
                }
            },
            Some(second) => {
                let parent = BaoChunk::Parent {
                    node,
                    is_root: node.0 == root.0,
                    left: true,
                    right: true,
                };
                self.stack.push(Step::Item(parent));
                let ghost one = self.stack@;
                self.stack.push(Step::Item(second));
                proof {
                    let two = self.stack@;
                    assert(parent == tree.parent_item(s, 0, true, true));
                    assert(one.drop_last() =~= rest);
                    assert(two.drop_last() =~= one);
                    assert(post_steps(tree, one) == seq![parent] + post_steps(tree, rest));
                    assert(post_steps(tree, two) == seq![second] + post_steps(tree, one));
                    assert(before.drop_first() =~= post_steps(tree, two));
                }
            },
        }
        Some(first)
    }
}

/// A traversal of what answers a query, parents before children.
#[derive(Debug)]
pub struct PreOrderChunkIterRef<'a> {
    tree: BaoTree,
    ranges: &'a RangeSetRef<u64>,
    filled_size: TreeNode,
    stack: Vec<Step>,
}

impl<'a> PreOrderChunkIterRef<'a> {
    /// The stack holds nodes of the tree that meet the query.
    pub closed spec fn valid(self) -> bool {
        &&& self.tree.valid()
        &&& self.filled_size.0 == self.tree.spec_filled_size()
        &&& steps_in(self.tree, self.stack@)
        &&& forall|i: int|
            0 <= i < self.stack@.len() ==> (#[trigger] self.stack@[i] matches Step::Node(n)
                ==> self.tree.meets_node(
                ranges::boundaries_of(self.ranges),
                n.spec_start() as nat,
                n.spec_level(),
            ))
    }

    /// The tree that is traversed.
    pub closed spec fn spec_tree(self) -> BaoTree {
        self.tree
    }

    /// The items that are still to come.
    pub closed spec fn remaining(self) -> Seq<BaoChunk> {
        pre_steps(self.tree, ranges::boundaries_of(self.ranges), self.stack@)
    }

    /// Starts a traversal.
    pub fn new(tree: BaoTree, ranges: &'a RangeSetRef<u64>) -> (r: PreOrderChunkIterRef<'a>)
        requires
            tree.valid(),
        ensures
            r.valid(),
            r.spec_tree() == tree,
            r.remaining() == tree.pre_order_plan(ranges::boundaries_of(ranges)),
    {
        let root = tree.root();
        let mut stack: Vec<Step> = Vec::new();
        let end: u64 = tree.chunk_of_block(tree.blocks());
        let ghost b = ranges::boundaries_of(ranges);
        proof {
            tree.lemma_root();
            tree.lemma_past_end(tree.spec_blocks());
            tree.lemma_past_end(2 * pow2(tree.root_level()));
            assert(0nat * tree.block_size.spec_chunks() == 0) by (nonlinear_arith);
        }
        if ranges::boundaries_meet(ranges::boundaries(ranges), 0, end) {
            stack.push(Step::Node(root));
            proof {
                reveal_with_fuel(pre_steps, 2);
                assert(stack@.drop_last() =~= Seq::<Step>::empty());
            }
        }
        proof {
            assert(pre_steps(tree, b, stack@) =~= tree.pre_order_plan(b));
        }
        PreOrderChunkIterRef { tree, ranges, filled_size: tree.filled_size(), stack }
    }

    /// The tree that is traversed.
    pub fn tree(&self) -> (r: &BaoTree)
        ensures
            *r == self.spec_tree(),
    {
        &self.tree
    }

    /// The next item, if there is one.
    pub fn next(&mut self) -> (r: Option<BaoChunk>)
        requires
            old(self).valid(),
        ensures
            final(self).valid(),
            final(self).spec_tree() == old(self).spec_tree(),
            r is None <==> old(self).remaining().len() == 0,
            r matches Some(item) ==> item == old(self).remaining()[0],
            r is Some ==> final(self).remaining() == old(self).remaining().drop_first(),
            r is None ==> final(self).remaining() == old(self).remaining(),
    {
        let ghost before = self.remaining();
        let ghost b = ranges::boundaries_of(self.ranges);
        let tree = self.tree;
        let node: TreeNode = match self.stack.pop() {
            None => return None,
            Some(Step::Item(item)) => {
                proof {
                    assert(before =~= seq![item] + self.remaining());
                    assert(before.drop_first() =~= self.remaining());
                }
                return Some(item);
            },
            Some(Step::Node(node)) => node,
        };
        let ghost s = node.spec_start() as nat;
        let ghost l = node.spec_level();
        let ghost rest = self.stack@;
        proof {
            tree.lemma_root();
            tree.lemma_meets_halves(b, s, l);
            tree.lemma_blocks();
            node.lemma_shape();
            pow::lemma_pow2_step(l);
            pow::lemma_pow2_step(0);
            assert(before =~= tree.pre_order(b, s, l) + self.remaining());
        }
        let root = tree.root();
        let span: u64 = node.half_span();
        let mid: u64 = node.0 + 1;
        let c0: u64 = tree.chunk_of_block(mid - span);
        let c1: u64 = tree.chunk_of_block(mid);
        let c2: u64 = tree.chunk_of_block(mid + span);
        let left: bool = ranges::boundaries_meet(ranges::boundaries(self.ranges), c0, c1);
        let right: bool = ranges::boundaries_meet(ranges::boundaries(self.ranges), c1, c2);
        let parent = BaoChunk::Parent { node, is_root: node.0 == root.0, left, right };
        proof {
            root.lemma_shape();
            assert(parent == tree.parent_item(s, l, left, right));
        }
        if node.is_leaf() {
            let (first, second) = tree.leaf_items(node);
            let second = match second {
                None => {
                    proof {
                        assert(before.drop_first() =~= self.remaining());
                    }
                    return Some(first);
                },
                Some(second) => second,
            };
            self.push_steps(right, Step::Item(second), left, Step::Item(first));
            proof {
                let pl = if left {
                    seq![first]
                } else {
                    Seq::empty()
                };
                let pr = if right {
                    seq![second]
                } else {
                    Seq::empty()
                };
                lemma_take_first(parent, pl, pr, pre_steps(tree, b, rest));
            }
            Some(parent)
        } else {
            proof {
                tree.lemma_children(s, l);
            }
            let l_node = node.left_child();
            let r_node = node.right_descendant(self.filled_size);
            match (l_node, r_node) {
                (Some(l_node), Some(r_node)) => {
                    proof {
                        l_node.lemma_shape();
                        r_node.lemma_shape();
                    }
                    self.push_steps(right, Step::Node(r_node), left, Step::Node(l_node));
                    proof {
                        let pl = tree.pre_order(b, s, (l - 1) as nat);
                        let pr = tree.pre_order(b, s + pow2(l), tree.right_level(s, l));
                        lemma_take_first(parent, pl, pr, pre_steps(tree, b, rest));
                    }
                    Some(parent)
                },
                _ => {
                    assert(false);
                    None
                },
            }
        }
    }

    /// Puts the steps of two halves on the stack, where they meet the query.
    fn push_steps(&mut self, right: bool, r_step: Step, left: bool, l_step: Step)
        requires
            old(self).valid(),
            right ==> old(self).step_valid(r_step),
            left ==> old(self).step_valid(l_step),
        ensures
            final(self).valid(),
            final(self).tree == old(self).tree,
            final(self).remaining() == old(self).step_items(left, l_step) + (old(self).step_items(
                right,
                r_step,
            ) + old(self).remaining()),
    {
        let ghost b = ranges::boundaries_of(self.ranges);
        let ghost rest = self.stack@;
        if right {
            self.stack.push(r_step);
            assert(self.stack@.drop_last() =~= rest);
        }
        let ghost steps = self.stack@;
        assert(pre_steps(self.tree, b, steps) =~= old(self).step_items(right, r_step) + pre_steps(
            self.tree,
            b,
            rest,
        ));
        if left {
            self.stack.push(l_step);
            assert(self.stack@.drop_last() =~= steps);
        }
        assert(self.remaining() =~= old(self).step_items(left, l_step) + pre_steps(
            self.tree,
            b,
            steps,
        ));
    }

    /// The items of a step, if it is taken.
    closed spec fn step_items(self, taken: bool, step: Step) -> Seq<BaoChunk> {
        if taken {
            pre_step(self.tree, ranges::boundaries_of(self.ranges), step)
        } else {
            Seq::empty()
        }
    }

    /// A step is one that the stack may hold.
    closed spec fn step_valid(self, step: Step) -> bool {
        step matches Step::Node(n) ==> node_in(self.tree, n) && self.tree.meets_node(
            ranges::boundaries_of(self.ranges),
            n.spec_start() as nat,
            n.spec_level(),
        )
    }
}

/// Giving out the parent leaves the two halves and the rest.
proof fn lemma_take_first(
    parent: BaoChunk,
    left: Seq<BaoChunk>,
    right: Seq<BaoChunk>,
    rest: Seq<BaoChunk>,
)
    ensures
        ((seq![parent] + (left + right)) + rest).drop_first() == left + (right + rest),
        ((seq![parent] + (left + right)) + rest)[0] == parent,
{
    assert(((seq![parent] + (left + right)) + rest).drop_first() =~= left + (right + rest));
}

impl BaoTree {
    /// A traversal of the whole tree, children before parents.
    pub fn post_order_chunks_iter(&self) -> (r: PostOrderChunkIter)
        requires
            self.valid(),
        ensures
            r.valid(),
            r.remaining() == self.post_order_plan(),
    {
        PostOrderChunkIter::new(*self)
    }

    /// A traversal of what answers a query, parents before children.
    pub fn ranges_pre_order_chunks_iter_ref<'a>(&self, ranges: &'a RangeSetRef<u64>) -> (r:
        PreOrderChunkIterRef<'a>)
        requires
            self.valid(),
        ensures
            r.valid(),
            r.spec_tree() == *self,
            r.remaining() == self.pre_order_plan(ranges::boundaries_of(ranges)),
    {
        PreOrderChunkIterRef::new(*self, ranges)
    }
}

} // verus!
