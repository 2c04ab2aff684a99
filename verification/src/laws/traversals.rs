//! Which hash pairs and blocks a traversal has, and in what order.
use vstd::arithmetic::power2::*;
use vstd::prelude::*;

use crate::iter::BaoChunk;
use crate::node::TreeNode;
use crate::num::ChunkNum;
use crate::pow;
use crate::ranges;
use crate::tree::BaoTree;

verus! {

/// A run of `1 << height` blocks that starts at a multiple of its length: a block, or the
/// blocks that a node covers.
pub struct Place {
    pub first: nat,
    pub height: nat,
}

impl Place {
    /// The first block after the run.
    pub open spec fn end(self) -> nat {
        self.first + pow2(self.height)
    }

    /// Whether all of the run comes before another.
    pub open spec fn is_before(self, that: Place) -> bool {
        self.end() <= that.first
    }

    /// Whether the run is a part of a longer one.
    pub open spec fn is_in(self, that: Place) -> bool {
        &&& that.first <= self.first
        &&& self.end() <= that.end()
        &&& self.height < that.height
    }

    /// Whether a blob of `size` bytes, in blocks of `1024 << log` bytes, has the run: a
    /// block that is there, or two halves that both have bytes. An empty blob has one
    /// block, which is empty.
    pub open spec fn is_there(self, size: nat, log: nat) -> bool {
        let block = 1024 * pow2(log);
        &&& self.first % pow2(self.height) == 0
        &&& if self.height == 0 {
            self.first == 0 || self.first * block < size
        } else {
            (self.first + pow2((self.height - 1) as nat)) * block < size
        }
    }

    /// The block of the run, or the hash pair of its two halves.
    pub open spec fn item(
        self,
        size: nat,
        log: nat,
        start_chunk: nat,
        left: bool,
        right: bool,
    ) -> BaoChunk {
        let block = 1024 * pow2(log);
        if self.height == 0 {
            BaoChunk::Leaf {
                size: (if (self.first + 1) * block <= size {
                    block as int
                } else {
                    size - self.first * block
                }) as usize,
                is_root: size <= block,
                start_chunk: ChunkNum((start_chunk + self.first * pow2(log)) as u64),
            }
        } else {
            BaoChunk::Parent {
                node: TreeNode((self.first + pow2((self.height - 1) as nat) - 1) as u64),
                is_root: self.first == 0 && size <= pow2(self.height) * block,
                left,
                right,
            }
        }
    }
}

/// Whether a set has a chunk of a blob between two blocks. An empty blob has one chunk,
/// which is empty.
pub open spec fn asks(b: Seq<u64>, size: nat, log: nat, from: nat, to: nat) -> bool {
    exists|x: int|
        from * pow2(log) <= x < to * pow2(log) && (x == 0 || 1024 * x < size)
            && #[trigger] ranges::in_ranges(b, x)
}

/// Whether a set has a chunk of a run of blocks that a blob has.
pub open spec fn asks_for(b: Seq<u64>, size: nat, log: nat, place: Place) -> bool {
    place.is_there(size, log) && asks(b, size, log, place.first, place.end())
}

/// What a query is answered with for a run of blocks.
pub open spec fn answer(b: Seq<u64>, size: nat, log: nat, start_chunk: nat, place: Place) -> BaoChunk {
    let mid = place.first + pow2((place.height - 1) as nat);
    place.item(
        size,
        log,
        start_chunk,
        asks(b, size, log, place.first, mid),
        asks(b, size, log, mid, place.end()),
    )
}

/// Whether each of some runs comes before the next ones, a longer one before its parts.
pub open spec fn parents_first(places: Seq<Place>) -> bool {
    forall|i: int, j: int|
        0 <= i < j < places.len() ==> (#[trigger] places[i]).is_before(#[trigger] places[j])
            || places[j].is_in(places[i])
}

/// Whether each of some runs comes before the next ones, a longer one after its parts.
pub open spec fn children_first(places: Seq<Place>) -> bool {
    forall|i: int, j: int|
        0 <= i < j < places.len() ==> (#[trigger] places[i]).is_before(#[trigger] places[j])
            || places[i].is_in(places[j])
}

/// The runs of a traversal in pre order.
spec fn pre_places(tree: BaoTree, b: Seq<u64>, start: nat, level: nat) -> Seq<Place>
    decreases level,
{
    if !tree.meets_node(b, start, level) {
        Seq::empty()
    } else if level > 0 {
        if tree.right_level(start, level) < level {
            seq![Place { first: start, height: level + 1 }] + (pre_places(
                tree,
                b,
                start,
                (level - 1) as nat,
            ) + pre_places(tree, b, start + pow2(level), tree.right_level(start, level)))
        } else {
            Seq::empty()
        }
    } else if tree.half_leaf(start) {
        seq![Place { first: start, height: 0 }]
    } else {
        let l = if tree.meets_left(b, start, level) {
            seq![Place { first: start, height: 0 }]
        } else {
            Seq::empty()
        };
        let r = if tree.meets_right(b, start, level) {
            seq![Place { first: start + 1, height: 0 }]
        } else {
            Seq::empty()
        };
        seq![Place { first: start, height: 1 }] + (l + r)
    }
}

/// The runs of a traversal in post order.
spec fn post_places(tree: BaoTree, start: nat, level: nat) -> Seq<Place>
    decreases level,
{
    if level == 0 {
        if tree.half_leaf(start) {
            seq![Place { first: start, height: 0 }]
        } else {
            seq![
                Place { first: start, height: 0 },
                Place { first: start + 1, height: 0 },
                Place { first: start, height: 1 },
            ]
        }
    } else if tree.right_level(start, level) < level {
        (post_places(tree, start, (level - 1) as nat) + post_places(
            tree,
            start + pow2(level),
            tree.right_level(start, level),
        )).push(Place { first: start, height: level + 1 })
    } else {
        Seq::empty()
    }
}

/// A set asks for something between two blocks if it meets their chunks.
pub(crate) proof fn lemma_asks(tree: BaoTree, b: Seq<u64>, from: nat, to: nat)
    requires
        tree.valid(),
        from <= to,
    ensures
        asks(b, tree.size.0 as nat, tree.block_size.0 as nat, from, to) == ranges::meets(
            b,
            tree.chunk_at(from) as int,
            tree.chunk_at(to) as int,
        ),
{
    let size = tree.size.0 as nat;
    let log = tree.block_size.0 as nat;
    let (lo, hi) = (tree.chunk_at(from) as int, tree.chunk_at(to) as int);
    if asks(b, size, log, from, to) {
        let x = choose|x: int|
            from * pow2(log) <= x < to * pow2(log) && (x == 0 || 1024 * x < size)
                && #[trigger] ranges::in_ranges(b, x);
        assert(0 <= from * pow2(log)) by (nonlinear_arith);
        assert(lo <= x < hi);
    }
    if ranges::meets(b, lo, hi) {
        let x = choose|x: int| lo <= x < hi && ranges::in_ranges(b, x);
        assert(ranges::in_ranges(b, x));
        assert(from * pow2(log) <= x < to * pow2(log));
    }
}

/// A block that is there.
pub(crate) proof fn lemma_block_there(tree: BaoTree, block: nat)
    requires
        tree.valid(),
    ensures
        (Place { first: block, height: 0 }).is_there(
            tree.size.0 as nat,
            tree.block_size.0 as nat,
        ) <==> block < tree.spec_blocks(),
{
    pow::lemma_pow2_step(0);
    tree.lemma_blocks();
    if block < tree.spec_blocks() {
        tree.lemma_block_start(block);
    } else {
        tree.lemma_past_end(block);
    }
}

/// A node that is there.
pub(crate) proof fn lemma_node_there(tree: BaoTree, start: nat, level: nat)
    requires
        tree.valid(),
    ensures
        (Place { first: start, height: level + 1 }).is_there(
            tree.size.0 as nat,
            tree.block_size.0 as nat,
        ) <==> tree.has_node(start, level) && tree.has_pair(start, level),
        tree.has_node(start, level) && tree.has_pair(start, level) ==> (tree.is_root(start, level)
            <==> start == 0 && tree.size.0 <= pow2(level + 1) * (1024 * pow2(
            tree.block_size.0 as nat,
        ))),
{
    let mid = start + pow2(level);
    let block = tree.block_size.spec_bytes();
    pow::lemma_pow2_step(0);
    pow::lemma_pow2_step(level);
    tree.lemma_blocks();
    if mid < tree.spec_blocks() {
        tree.lemma_block_start(mid);
    } else {
        tree.lemma_past_end(mid);
    }
    if tree.has_node(start, level) && tree.has_pair(start, level) && start == 0 {
        let root = tree.root_level();
        crate::tree::lemma_tree_level(tree.spec_blocks());
        if tree.size.0 <= pow2(level + 1) * block {
            if pow2(level + 1) < tree.spec_blocks() {
                tree.lemma_block_start(pow2(level + 1));
            }
            if level < root {
                pow::lemma_pow2_mono(level + 1, root);
            } else if root < level {
                pow::lemma_pow2_step(root);
                pow::lemma_pow2_mono(root + 1, level);
            }
        } else if level == root {
            tree.lemma_past_end(pow2(level + 1));
        }
    }
}

/// The item of a block.
proof fn lemma_block_item(tree: BaoTree, block: nat, is_root: bool)
    requires
        tree.valid(),
        block < tree.spec_blocks(),
        is_root <==> tree.spec_blocks() == 1,
    ensures
        tree.leaf_item(block, is_root) == (Place { first: block, height: 0 }).item(
            tree.size.0 as nat,
            tree.block_size.0 as nat,
            tree.start_chunk.0 as nat,
            true,
            true,
        ),
        forall|left: bool, right: bool|
            tree.leaf_item(block, is_root) == #[trigger] (Place { first: block, height: 0 }).item(
                tree.size.0 as nat,
                tree.block_size.0 as nat,
                tree.start_chunk.0 as nat,
                left,
                right,
            ),
{
    let bb = tree.block_size.spec_bytes();
    tree.lemma_blocks();
    tree.lemma_block_start(block);
    assert((block + 1) * bb == block * bb + bb) by (nonlinear_arith);
    if tree.spec_blocks() == 1 {
        tree.lemma_past_end(1);
    } else {
        tree.lemma_block_start(1);
    }
    assert(1 * bb == bb);
}

/// The runs of a node are those of its items, parents first.
#[verifier::spinoff_prover]
#[verifier::rlimit(50)]
proof fn lemma_pre_places(tree: BaoTree, b: Seq<u64>, start: nat, level: nat)
    requires
        tree.valid(),
        tree.has_node(start, level),
    ensures
        ({
            let (size, log, c) = (
                tree.size.0 as nat,
                tree.block_size.0 as nat,
                tree.start_chunk.0 as nat,
            );
            let places = pre_places(tree, b, start, level);
            let items = tree.pre_order(b, start, level);
            &&& parents_first(places)
            &&& items.len() == places.len()
            &&& forall|i: int|
                0 <= i < places.len() ==> {
                    &&& items[i] == answer(b, size, log, c, #[trigger] places[i])
                    &&& asks_for(b, size, log, places[i])
                    &&& start <= places[i].first
                    &&& places[i].end() <= start + 2 * pow2(level)
                    &&& places[i].height <= level + 1
                }
        }),
    decreases level,
{
    let (size, log, c) = (
        tree.size.0 as nat,
        tree.block_size.0 as nat,
        tree.start_chunk.0 as nat,
    );
    let places = pre_places(tree, b, start, level);
    let items = tree.pre_order(b, start, level);
    let mid = start + pow2(level);
    let end = start + 2 * pow2(level);
    let this = Place { first: start, height: level + 1 };
    pow::lemma_pow2_step(level);
    pow::lemma_pow2_step(0);
    lemma_asks(tree, b, start, mid);
    lemma_asks(tree, b, mid, end);
    lemma_asks(tree, b, start, end);
    lemma_node_there(tree, start, level);
    tree.lemma_blocks();
    if !tree.meets_node(b, start, level) {
    } else if level > 0 {
        let r = tree.right_level(start, level);
        let pl = pre_places(tree, b, start, (level - 1) as nat);
        let pr = pre_places(tree, b, mid, r);
        let il = tree.pre_order(b, start, (level - 1) as nat);
        let ir = tree.pre_order(b, mid, r);
        tree.lemma_children(start, level);
        lemma_pre_places(tree, b, start, (level - 1) as nat);
        lemma_pre_places(tree, b, mid, r);
        pow::lemma_pow2_mono(r, (level - 1) as nat);
        assert forall|i: int| 0 <= i < places.len() implies {
            &&& items[i] == answer(b, size, log, c, #[trigger] places[i])
            &&& asks_for(b, size, log, places[i])
            &&& start <= places[i].first
            &&& places[i].end() <= end
            &&& places[i].height <= level + 1
        } by {
            if i == 0 {
                assert(places[0] == this);
            } else if i - 1 < pl.len() {
                assert(places[i] == pl[i - 1]);
                assert(items[i] == il[i - 1]);
            } else {
                assert(places[i] == pr[i - 1 - pl.len()]);
                assert(items[i] == ir[i - 1 - pl.len()]);
            }
        }
        assert forall|i: int, j: int| 0 <= i < j < places.len() implies (
        #[trigger] places[i]).is_before(#[trigger] places[j]) || places[j].is_in(places[i]) by {
            if j - 1 < pl.len() {
                assert(places[j] == pl[j - 1]);
                if i > 0 {
                    assert(places[i] == pl[i - 1]);
                }
            } else {
                assert(places[j] == pr[j - 1 - pl.len()]);
                if i > 0 && i - 1 < pl.len() {
                    assert(places[i] == pl[i - 1]);
                } else if i > 0 {
                    assert(places[i] == pr[i - 1 - pl.len()]);
                }
            }
        }
    } else {
        pow::lemma_pow2_step(1);
        lemma_block_there(tree, start);
        lemma_block_there(tree, start + 1);
        if tree.half_leaf(start) {
            let is_root = tree.is_root(start, 0);
            crate::tree::lemma_tree_level(tree.spec_blocks());
            if start > 0 {
                assert(tree.spec_blocks() > 1);
            }
            lemma_block_item(tree, start, is_root);
            tree.lemma_past_end(start + 1);
            tree.lemma_past_end(start + 2);
            lemma_asks(tree, b, start, start + 1);
        } else {
            lemma_block_item(tree, start, false);
            lemma_block_item(tree, start + 1, false);
        }
    }
}

/// A run that a set asks for is among those of the node that it is in.
proof fn lemma_pre_has_place(tree: BaoTree, b: Seq<u64>, start: nat, level: nat, p: Place)
    requires
        tree.valid(),
        tree.has_node(start, level),
        asks_for(b, tree.size.0 as nat, tree.block_size.0 as nat, p),
        start <= p.first < start + 2 * pow2(level),
        p.height <= level + 1,
    ensures
        pre_places(tree, b, start, level).contains(p),
    decreases level,
{
    let places = pre_places(tree, b, start, level);
    let mid = start + pow2(level);
    let end = start + 2 * pow2(level);
    let this = Place { first: start, height: level + 1 };
    let m = pow2(p.height);
    pow::lemma_pow2_step(level);
    pow::lemma_pow2_step(0);
    pow::lemma_pow2_step(p.height);
    pow::lemma_pow2_divides(p.height, level + 1);
    pow::lemma_multiple_of_smaller(start, p.height, level + 1);
    pow::lemma_sum_of_multiples(start, 2 * pow2(level), m);
    pow::lemma_multiples_apart(p.first, end, m);
    lemma_asks(tree, b, p.first, p.end());
    tree.lemma_chunk_at_mono(start, p.first);
    tree.lemma_chunk_at_mono(p.end(), end);
    assert(tree.meets_node(b, start, level));
    if p.height == 0 {
        lemma_block_there(tree, p.first);
    } else {
        lemma_node_there(tree, p.first, (p.height - 1) as nat);
    }
    if p.height == level + 1 {
        if start < p.first {
            pow::lemma_multiples_apart(start, p.first, m);
        }
        assert(p == this);
        if level == 0 {
            assert(!tree.half_leaf(start));
        } else {
            tree.lemma_children(start, level);
        }
        assert(places[0] == this);
    } else if level > 0 {
        let r = tree.right_level(start, level);
        let pl = pre_places(tree, b, start, (level - 1) as nat);
        let pr = pre_places(tree, b, mid, r);
        tree.lemma_children(start, level);
        if p.first < mid {
            lemma_pre_has_place(tree, b, start, (level - 1) as nat, p);
            let i = choose|i: int| 0 <= i < pl.len() && pl[i] == p;
            assert(places[i + 1] == p);
        } else {
            lemma_below_right(tree, start, level, p);
            lemma_pre_has_place(tree, b, mid, r, p);
            let i = choose|i: int| 0 <= i < pr.len() && pr[i] == p;
            assert(places[i + 1 + pl.len()] == p);
        }
    } else {
        assert(p.height == 0);
        tree.lemma_meets_halves(b, start, level);
        if p.first == start {
            if tree.half_leaf(start) {
                assert(places[0] == p);
            } else {
                assert(places[1] == p);
            }
        } else {
            assert(places[places.len() - 1] == p);
        }
    }
}

/// A run in the right half of a node is one of its right child.
pub(crate) proof fn lemma_below_right(tree: BaoTree, start: nat, level: nat, p: Place)
    requires
        tree.valid(),
        tree.has_node(start, level),
        p.is_there(tree.size.0 as nat, tree.block_size.0 as nat),
        0 < level,
        p.height <= level,
        start + pow2(level) <= p.first < start + 2 * pow2(level),
    ensures
        p.first < start + pow2(level) + 2 * pow2(tree.right_level(start, level)),
        p.height <= tree.right_level(start, level) + 1,
{
    let mid = start + pow2(level);
    let r = tree.right_level(start, level);
    tree.lemma_children(start, level);
    pow::lemma_pow2_step(r);
    if p.height == 0 {
        lemma_block_there(tree, p.first);
    } else {
        let l = (p.height - 1) as nat;
        lemma_node_there(tree, p.first, l);
        pow::lemma_pow2_step(l);
        if l > r {
            pow::lemma_pow2_mono(r + 1, l);
            pow::lemma_pow2_mono(l + 1, level);
            pow::lemma_pow2_divides(l + 1, level);
            pow::lemma_multiple_of_smaller(start, l + 1, level + 1);
            pow::lemma_sum_of_multiples(start, pow2(level), pow2(l + 1));
            if mid < p.first {
                pow::lemma_multiples_apart(mid, p.first, pow2(l + 1));
            }
        }
    }
}

/// Whether some runs are all those that a set asks for.
pub open spec fn all_asked_for(places: Seq<Place>, b: Seq<u64>, size: nat, log: nat) -> bool {
    forall|p: Place| places.contains(p) <==> #[trigger] asks_for(b, size, log, p)
}

/// A query is answered with the blocks that hold a chunk of it, and the hash pairs of the
/// nodes that cover one, and nothing else: in the order of the blob, each hash pair
/// before what it covers. A hash pair says which of its halves follow.
pub proof fn law_answer_of_a_query(tree: BaoTree, b: Seq<u64>)
    requires
        tree.valid(),
    ensures
        ({
            let (size, log, c) = (
                tree.size.0 as nat,
                tree.block_size.0 as nat,
                tree.start_chunk.0 as nat,
            );
            exists|places: Seq<Place>|
                {
                    &&& parents_first(places)
                    &&& #[trigger] all_asked_for(places, b, size, log)
                    &&& tree.pre_order_plan(b) == Seq::new(
                        places.len(),
                        |i: int| answer(b, size, log, c, places[i]),
                    )
                }
        }),
{
    let (size, log, c) = (
        tree.size.0 as nat,
        tree.block_size.0 as nat,
        tree.start_chunk.0 as nat,
    );
    let root = tree.root_level();
    let places = pre_places(tree, b, 0, root);
    tree.lemma_root();
    lemma_pre_places(tree, b, 0, root);
    assert forall|p: Place| places.contains(p) <==> #[trigger] asks_for(b, size, log, p) by {
        if asks_for(b, size, log, p) {
            lemma_in_root(tree, p);
            lemma_pre_has_place(tree, b, 0, root, p);
        }
    }
    assert(all_asked_for(places, b, size, log));
    assert(tree.pre_order_plan(b) =~= Seq::new(
        places.len(),
        |i: int| answer(b, size, log, c, places[i]),
    ));
}

/// Every run that a blob has is in the root.
pub(crate) proof fn lemma_in_root(tree: BaoTree, p: Place)
    requires
        tree.valid(),
        p.is_there(tree.size.0 as nat, tree.block_size.0 as nat),
    ensures
        p.first < 2 * pow2(tree.root_level()),
        p.height <= tree.root_level() + 1,
{
    let root = tree.root_level();
    tree.lemma_root();
    pow::lemma_pow2_step(root);
    if p.height == 0 {
        lemma_block_there(tree, p.first);
    } else {
        lemma_node_there(tree, p.first, (p.height - 1) as nat);
        pow::lemma_pow2_step(0);
        if p.height > root + 1 {
            pow::lemma_pow2_mono(root + 1, (p.height - 1) as nat);
        }
    }
}

/// The runs of a node are those of its items, children first.
#[verifier::spinoff_prover]
#[verifier::rlimit(50)]
proof fn lemma_post_places(tree: BaoTree, start: nat, level: nat)
    requires
        tree.valid(),
        tree.has_node(start, level),
    ensures
        ({
            let (size, log, c) = (
                tree.size.0 as nat,
                tree.block_size.0 as nat,
                tree.start_chunk.0 as nat,
            );
            let places = post_places(tree, start, level);
            let items = tree.post_order(start, level);
            &&& children_first(places)
            &&& items.len() == places.len()
            &&& forall|i: int|
                0 <= i < places.len() ==> {
                    &&& items[i] == (#[trigger] places[i]).item(size, log, c, true, true)
                    &&& places[i].is_there(size, log)
                    &&& start <= places[i].first
                    &&& places[i].end() <= start + 2 * pow2(level)
                    &&& places[i].height <= level + 1
                }
        }),
    decreases level,
{
    let (size, log, c) = (
        tree.size.0 as nat,
        tree.block_size.0 as nat,
        tree.start_chunk.0 as nat,
    );
    let places = post_places(tree, start, level);
    let items = tree.post_order(start, level);
    let mid = start + pow2(level);
    let end = start + 2 * pow2(level);
    let this = Place { first: start, height: level + 1 };
    pow::lemma_pow2_step(level);
    pow::lemma_pow2_step(0);
    lemma_node_there(tree, start, level);
    tree.lemma_blocks();
    if level > 0 {
        let r = tree.right_level(start, level);
        let pl = post_places(tree, start, (level - 1) as nat);
        let pr = post_places(tree, mid, r);
        let il = tree.post_order(start, (level - 1) as nat);
        let ir = tree.post_order(mid, r);
        tree.lemma_children(start, level);
        lemma_post_places(tree, start, (level - 1) as nat);
        lemma_post_places(tree, mid, r);
        pow::lemma_pow2_mono(r, (level - 1) as nat);
        assert forall|i: int| 0 <= i < places.len() implies {
            &&& items[i] == (#[trigger] places[i]).item(size, log, c, true, true)
            &&& places[i].is_there(size, log)
            &&& start <= places[i].first
            &&& places[i].end() <= end
            &&& places[i].height <= level + 1
        } by {
            if i < pl.len() {
                assert(places[i] == pl[i]);
                assert(items[i] == il[i]);
            } else if i < pl.len() + pr.len() {
                assert(places[i] == pr[i - pl.len()]);
                assert(items[i] == ir[i - pl.len()]);
            } else {
                assert(places[i] == this);
            }
        }
        assert forall|i: int, j: int| 0 <= i < j < places.len() implies (
        #[trigger] places[i]).is_before(#[trigger] places[j]) || places[i].is_in(places[j]) by {
            if i < pl.len() {
                assert(places[i] == pl[i]);
                if j < pl.len() {
                    assert(places[j] == pl[j]);
                } else if j < pl.len() + pr.len() {
                    assert(places[j] == pr[j - pl.len()]);
                }
            } else {
                assert(places[i] == pr[i - pl.len()]);
                if j < pl.len() + pr.len() {
                    assert(places[j] == pr[j - pl.len()]);
                }
            }
        }
    } else {
        pow::lemma_pow2_step(1);
        lemma_block_there(tree, start);
        lemma_block_there(tree, start + 1);
        if tree.half_leaf(start) {
            crate::tree::lemma_tree_level(tree.spec_blocks());
            lemma_block_item(tree, start, tree.is_root(start, 0));
        } else {
            lemma_block_item(tree, start, false);
            lemma_block_item(tree, start + 1, false);
        }
    }
}

/// A run that a blob has is among those of the node that it is in.
proof fn lemma_post_has_place(tree: BaoTree, start: nat, level: nat, p: Place)
    requires
        tree.valid(),
        tree.has_node(start, level),
        p.is_there(tree.size.0 as nat, tree.block_size.0 as nat),
        start <= p.first < start + 2 * pow2(level),
        p.height <= level + 1,
    ensures
        post_places(tree, start, level).contains(p),
    decreases level,
{
    let places = post_places(tree, start, level);
    let mid = start + pow2(level);
    let this = Place { first: start, height: level + 1 };
    let m = pow2(p.height);
    pow::lemma_pow2_step(level);
    pow::lemma_pow2_step(0);
    pow::lemma_pow2_step(p.height);
    if p.height == 0 {
        lemma_block_there(tree, p.first);
    } else {
        lemma_node_there(tree, p.first, (p.height - 1) as nat);
    }
    if p.height == level + 1 {
        if start < p.first {
            pow::lemma_multiples_apart(start, p.first, m);
        }
        assert(p == this);
        if level > 0 {
            tree.lemma_children(start, level);
        }
        assert(places[places.len() - 1] == this);
    } else if level > 0 {
        let r = tree.right_level(start, level);
        let pl = post_places(tree, start, (level - 1) as nat);
        let pr = post_places(tree, mid, r);
        tree.lemma_children(start, level);
        if p.first < mid {
            lemma_post_has_place(tree, start, (level - 1) as nat, p);
            let i = choose|i: int| 0 <= i < pl.len() && pl[i] == p;
            assert(places[i] == p);
        } else {
            lemma_below_right(tree, start, level, p);
            lemma_post_has_place(tree, mid, r, p);
            let i = choose|i: int| 0 <= i < pr.len() && pr[i] == p;
            assert(places[i + pl.len()] == p);
        }
    } else {
        assert(places[p.first - start] == p);
    }
}

/// Whether some runs are all those that a blob has.
pub open spec fn all_there(places: Seq<Place>, size: nat, log: nat) -> bool {
    forall|p: Place| places.contains(p) <==> #[trigger] p.is_there(size, log)
}

/// The outboard of a blob is computed from all its blocks, in order, with the hash pair of
/// each two halves as soon as both have been hashed.
pub proof fn law_traversal_of_a_blob(tree: BaoTree)
    requires
        tree.valid(),
    ensures
        ({
            let (size, log, c) = (
                tree.size.0 as nat,
                tree.block_size.0 as nat,
                tree.start_chunk.0 as nat,
            );
            exists|places: Seq<Place>|
                {
                    &&& children_first(places)
                    &&& #[trigger] all_there(places, size, log)
                    &&& tree.post_order_plan() == Seq::new(
                        places.len(),
                        |i: int| places[i].item(size, log, c, true, true),
                    )
                }
        }),
{
    let (size, log, c) = (
        tree.size.0 as nat,
        tree.block_size.0 as nat,
        tree.start_chunk.0 as nat,
    );
    let root = tree.root_level();
    let places = post_places(tree, 0, root);
    tree.lemma_root();
    lemma_post_places(tree, 0, root);
    assert forall|p: Place| places.contains(p) <==> #[trigger] p.is_there(size, log) by {
        if p.is_there(size, log) {
            lemma_in_root(tree, p);
            lemma_post_has_place(tree, 0, root, p);
        }
    }
    assert(all_there(places, size, log));
    assert(tree.post_order_plan() =~= Seq::new(
        places.len(),
        |i: int| places[i].item(size, log, c, true, true),
    ));
}

} // verus!
