//! Finding out which parts of a blob are there and valid.
use std::ops::Range;
use vstd::arithmetic::power2::*;
use vstd::prelude::*;

use crate::hash;
use crate::hash::Digest;
use crate::io;
use crate::io::{Outboard, SliceReader};
use crate::iter;
use crate::node;
use crate::node::TreeNode;
use crate::num;
use crate::num::{ByteNum, ChunkNum};
use crate::ranges::ChunkRanges;
use crate::tree::BaoTree;

verus! {

/// The chunks from `start` on and below `end`.
pub open spec fn chunk_range(start: nat, end: nat) -> Set<int> {
    Set::new(|x: int| start <= x < end)
}

/// The bytes of a hash that is all zeros.
pub open spec fn zeros() -> Seq<u8> {
    Seq::new(32, |i: int| 0u8)
}

impl BaoTree {
    /// The node of a level with a first block, by its number.
    pub open spec fn node_of(self, start: nat, level: nat) -> TreeNode {
        TreeNode(node::node_at(start, level) as u64)
    }

    /// The chunks that a leaf covers.
    pub open spec fn leaf_chunks(self, start: nat) -> Set<int> {
        chunk_range(
            self.node_chunk(start),
            crate::tree::min(
                self.node_chunk(start) + 2 * self.block_size.spec_chunks(),
                num::chunks_of(self.size.0 as nat),
            ),
        )
    }

    /// The chunks below a node that a store of hash pairs has valid hashes for,
    /// given the hash of the node.
    ///
    /// A node without a hash pair hands its hash on to the left, and a hash that is
    /// all zeros to the right.
    pub open spec fn valid_chunks(
        self,
        pairs: Map<TreeNode, (Digest, Digest)>,
        start: nat,
        level: nat,
        hash: Seq<u8>,
        is_root: bool,
    ) -> Set<int>
        decreases level,
    {
        let pair = io::pair_at(pairs, self.node_of(start, level));
        let (l, r) = match pair {
            Some(pair) => (pair.0@, pair.1@),
            None => (hash, zeros()),
        };
        if pair is Some && hash::parent_hash(l, r, is_root) != hash {
            Set::empty()
        } else if level == 0 {
            self.leaf_chunks(start)
        } else {
            proof {
                crate::tree::lemma_fit_level(
                    start + pow2(level),
                    (level - 1) as nat,
                    self.spec_filled_size(),
                );
            }
            self.valid_chunks(pairs, start, (level - 1) as nat, l, false).union(
                self.valid_chunks(
                    pairs,
                    start + pow2(level),
                    self.right_level(start, level),
                    r,
                    false,
                ),
            )
        }
    }

    /// The bytes of a block.
    pub open spec fn block_bytes(self, blob: Seq<u8>, block: nat) -> Seq<u8> {
        io::slice_at(
            blob,
            self.byte_at(block),
            (self.byte_at(block + 1) - self.byte_at(block)) as nat,
        )
    }

    /// Whether the bytes of a block are there.
    pub open spec fn has_block(self, blob: Seq<u8>, block: nat) -> bool {
        io::has_slice(
            blob,
            self.byte_at(block),
            (self.byte_at(block + 1) - self.byte_at(block)) as nat,
        )
    }

    /// The chunks of a block, if its bytes have a hash.
    pub open spec fn valid_block(
        self,
        blob: Seq<u8>,
        block: nat,
        hash: Seq<u8>,
        is_root: bool,
    ) -> Set<int> {
        let first = num::chunks_of(self.byte_at(block));
        if hash::subtree_hash(self.block_bytes(blob, block), first, is_root) == hash {
            chunk_range(first, num::chunks_of(self.byte_at(block + 1)))
        } else {
            Set::empty()
        }
    }

    /// The chunks below a node whose bytes, and the hash pairs on the way to them,
    /// are valid, given the hash of the node.
    pub open spec fn valid_file_chunks(
        self,
        pairs: Map<TreeNode, (Digest, Digest)>,
        blob: Seq<u8>,
        start: nat,
        level: nat,
        hash: Seq<u8>,
        is_root: bool,
    ) -> Set<int>
        decreases level,
    {
        match io::pair_at(pairs, self.node_of(start, level)) {
            Some(pair) => if hash::parent_hash(pair.0@, pair.1@, is_root) != hash {
                Set::empty()
            } else if level == 0 {
                self.valid_block(blob, start, pair.0@, false).union(
                    self.valid_block(blob, start + 1, pair.1@, false),
                )
            } else {
                proof {
                    crate::tree::lemma_fit_level(
                        start + pow2(level),
                        (level - 1) as nat,
                        self.spec_filled_size(),
                    );
                }
                self.valid_file_chunks(
                    pairs,
                    blob,
                    start,
                    (level - 1) as nat,
                    pair.0@,
                    false,
                ).union(
                    self.valid_file_chunks(
                        pairs,
                        blob,
                        start + pow2(level),
                        self.right_level(start, level),
                        pair.1@,
                        false,
                    ),
                )
            },
            None => if level == 0 {
                self.valid_block(blob, start, hash, is_root)
            } else {
                Set::empty()
            },
        }
    }

    /// Whether the bytes of all blocks that have to be looked at are there.
    pub open spec fn has_blocks(
        self,
        pairs: Map<TreeNode, (Digest, Digest)>,
        blob: Seq<u8>,
        start: nat,
        level: nat,
        hash: Seq<u8>,
        is_root: bool,
    ) -> bool
        decreases level,
    {
        match io::pair_at(pairs, self.node_of(start, level)) {
            Some(pair) => if hash::parent_hash(pair.0@, pair.1@, is_root) != hash {
                true
            } else if level == 0 {
                self.has_block(blob, start) && self.has_block(blob, start + 1)
            } else {
                proof {
                    crate::tree::lemma_fit_level(
                        start + pow2(level),
                        (level - 1) as nat,
                        self.spec_filled_size(),
                    );
                }
                self.has_blocks(pairs, blob, start, (level - 1) as nat, pair.0@, false)
                    && self.has_blocks(
                    pairs,
                    blob,
                    start + pow2(level),
                    self.right_level(start, level),
                    pair.1@,
                    false,
                )
            },
            None => level == 0 ==> self.has_block(blob, start),
        }
    }
}

/// Whether none of the steps is one that is sure to fail.
pub open spec fn all_can_pass<A>(steps: Seq<A>, fails: spec_fn(A) -> bool) -> bool {
    forall|i: int| 0 <= i < steps.len() ==> !fails(#[trigger] steps[i])
}

/// Whether a walk can have stopped at step `i`: it is one that can fail, and none
/// before it is sure to.
pub open spec fn stops_at<A>(
    steps: Seq<A>,
    fails: spec_fn(A) -> bool,
    can_fail: spec_fn(A) -> bool,
    i: int,
) -> bool {
    &&& 0 <= i < steps.len()
    &&& can_fail(steps[i])
    &&& all_can_pass(steps.take(i), fails)
}

/// Whether a walk can have stopped at one of the steps.
pub open spec fn stops<A>(
    steps: Seq<A>,
    fails: spec_fn(A) -> bool,
    can_fail: spec_fn(A) -> bool,
) -> bool {
    exists|i: int| stops_at(steps, fails, can_fail, i)
}

/// Where a step that can fail is one that is sure to, as with a store that always does
/// the same, a walk stops at the first step that fails and at no other, and gets
/// through if there is none.
pub proof fn law_walk_stops_at_first_failure<A>(
    steps: Seq<A>,
    fails: spec_fn(A) -> bool,
    can_fail: spec_fn(A) -> bool,
    i: int,
    j: int,
)
    requires
        forall|a: A| #[trigger] can_fail(a) ==> fails(a),
        stops_at(steps, fails, can_fail, i),
    ensures
        fails(steps[i]),
        !all_can_pass(steps, fails),
        stops_at(steps, fails, can_fail, j) ==> i == j,
{
    assert(fails(steps[i]));
    if stops_at(steps, fails, can_fail, j) {
        assert(fails(steps[j]));
        if j < i {
            assert(steps.take(i)[j] == steps[j]);
        } else if i < j {
            assert(steps.take(j)[i] == steps[i]);
        }
    }
}

/// A walk through some steps and then through others.
proof fn lemma_steps<A>(
    a: Seq<A>,
    b: Seq<A>,
    fails: spec_fn(A) -> bool,
    can_fail: spec_fn(A) -> bool,
)
    ensures
        all_can_pass(a, fails) && all_can_pass(b, fails) ==> all_can_pass(a + b, fails),
        stops(a, fails, can_fail) ==> stops(a + b, fails, can_fail),
        all_can_pass(a, fails) && stops(b, fails, can_fail) ==> stops(a + b, fails, can_fail),
{
    let all = a + b;
    if stops(a, fails, can_fail) {
        let i = choose|i: int| stops_at(a, fails, can_fail, i);
        assert(all.take(i) =~= a.take(i));
        assert(stops_at(all, fails, can_fail, i));
    }
    if all_can_pass(a, fails) && stops(b, fails, can_fail) {
        let i = choose|i: int| stops_at(b, fails, can_fail, i);
        let before = all.take(a.len() + i);
        assert forall|j: int| 0 <= j < before.len() implies !fails(#[trigger] before[j]) by {
            if j < a.len() {
                assert(before[j] == a[j]);
            } else {
                assert(before[j] == b.take(i)[j - a.len()]);
            }
        }
        assert(stops_at(all, fails, can_fail, a.len() + i));
    }
    if all_can_pass(a, fails) && all_can_pass(b, fails) {
        assert forall|j: int| 0 <= j < all.len() implies !fails(#[trigger] all[j]) by {
            if j < a.len() {
                assert(all[j] == a[j]);
            } else {
                assert(all[j] == b[j - a.len()]);
            }
        }
    }
}

/// One step.
proof fn lemma_step<A>(step: A, fails: spec_fn(A) -> bool, can_fail: spec_fn(A) -> bool)
    ensures
        !fails(step) ==> all_can_pass(seq![step], fails),
        can_fail(step) ==> stops(seq![step], fails, can_fail),
{
    if can_fail(step) {
        assert(stops_at(seq![step], fails, can_fail, 0));
    }
}

/// The nodes whose hash pairs are sure not to be loaded.
pub open spec fn load_fails<O: Outboard>(outboard: &O) -> spec_fn(TreeNode) -> bool {
    |node: TreeNode| outboard.load_fails(node)
}

/// The nodes for which loading the hash pair can fail with an error.
pub open spec fn load_can_fail<O: Outboard>(outboard: &O, e: std::io::Error) -> spec_fn(
    TreeNode,
) -> bool {
    |node: TreeNode| !outboard.loads(node) && outboard.load_errors(node).contains(e)
}

/// A step of the walk that looks for valid chunks of a file.
pub enum Access {
    /// Loading the hash pair of a node.
    Load(TreeNode),
    /// Reading a slice of the file.
    Read { offset: nat, len: nat },
}

/// The steps that are sure to fail, with a file.
pub open spec fn access_fails<O: Outboard>(outboard: &O, file: Seq<u8>) -> spec_fn(Access) -> bool {
    |access: Access|
        match access {
            Access::Load(node) => outboard.load_fails(node),
            Access::Read { offset, len } => !io::has_slice(file, offset, len),
        }
}

/// The steps that can fail with an error, with a file.
pub open spec fn access_can_fail<O: Outboard>(
    outboard: &O,
    file: Seq<u8>,
    reliable: bool,
    errors: Set<std::io::Error>,
    e: std::io::Error,
) -> spec_fn(Access) -> bool {
    |access: Access|
        match access {
            Access::Load(node) => !outboard.loads(node) && outboard.load_errors(node).contains(e),
            Access::Read { offset, len } => !(reliable && io::has_slice(file, offset, len))
                && errors.contains(e),
        }
}

impl BaoTree {
    /// The nodes that are looked at below a node, given its hash, parents before
    /// children: all but those below a hash pair that does not match.
    pub open spec fn looked_at(
        self,
        pairs: Map<TreeNode, (Digest, Digest)>,
        start: nat,
        level: nat,
        hash: Seq<u8>,
        is_root: bool,
    ) -> Seq<TreeNode>
        decreases level,
    {
        let pair = io::pair_at(pairs, self.node_of(start, level));
        let (l, r) = match pair {
            Some(pair) => (pair.0@, pair.1@),
            None => (hash, zeros()),
        };
        let this = seq![self.node_of(start, level)];
        if pair is Some && hash::parent_hash(l, r, is_root) != hash || level == 0 {
            this
        } else {
            proof {
                crate::tree::lemma_fit_level(
                    start + pow2(level),
                    (level - 1) as nat,
                    self.spec_filled_size(),
                );
            }
            this + (self.looked_at(pairs, start, (level - 1) as nat, l, false) + self.looked_at(
                pairs,
                start + pow2(level),
                self.right_level(start, level),
                r,
                false,
            ))
        }
    }

    /// Reading a block.
    pub open spec fn read_of(self, block: nat) -> Access {
        Access::Read {
            offset: self.byte_at(block),
            len: (self.byte_at(block + 1) - self.byte_at(block)) as nat,
        }
    }

    /// The steps that are taken with a file below a node, given its hash: hash pairs
    /// are loaded and blocks are read, but nothing below a hash pair that does not
    /// match or is not there.
    pub open spec fn accesses(
        self,
        pairs: Map<TreeNode, (Digest, Digest)>,
        start: nat,
        level: nat,
        hash: Seq<u8>,
        is_root: bool,
    ) -> Seq<Access>
        decreases level,
    {
        let this = seq![Access::Load(self.node_of(start, level))];
        match io::pair_at(pairs, self.node_of(start, level)) {
            Some(pair) => if hash::parent_hash(pair.0@, pair.1@, is_root) != hash {
                this
            } else if level == 0 {
                this + (seq![self.read_of(start)] + seq![self.read_of(start + 1)])
            } else {
                proof {
                    crate::tree::lemma_fit_level(
                        start + pow2(level),
                        (level - 1) as nat,
                        self.spec_filled_size(),
                    );
                }
                this + (self.accesses(pairs, start, (level - 1) as nat, pair.0@, false)
                    + self.accesses(
                    pairs,
                    start + pow2(level),
                    self.right_level(start, level),
                    pair.1@,
                    false,
                ))
            },
            None => if level == 0 {
                this + seq![self.read_of(start)]
            } else {
                this
            },
        }
    }

    /// Where the bytes of all blocks that have to be looked at are there, no step
    /// reads bytes that are not.
    pub proof fn lemma_reads_there(
        self,
        pairs: Map<TreeNode, (Digest, Digest)>,
        file: Seq<u8>,
        start: nat,
        level: nat,
        hash: Seq<u8>,
        is_root: bool,
    )
        requires
            self.has_blocks(pairs, file, start, level, hash, is_root),
        ensures
            forall|i: int|
                0 <= i < self.accesses(pairs, start, level, hash, is_root).len() ==> (
                #[trigger] self.accesses(pairs, start, level, hash, is_root)[i] matches Access::Read {
                    offset,
                    len,
                } ==> io::has_slice(file, offset, len)),
        decreases level,
    {
        if level > 0 {
            if let Some(pair) = io::pair_at(pairs, self.node_of(start, level)) {
                if hash::parent_hash(pair.0@, pair.1@, is_root) == hash {
                    crate::tree::lemma_fit_level(
                        start + pow2(level),
                        (level - 1) as nat,
                        self.spec_filled_size(),
                    );
                    self.lemma_reads_there(pairs, file, start, (level - 1) as nat, pair.0@, false);
                    self.lemma_reads_there(
                        pairs,
                        file,
                        start + pow2(level),
                        self.right_level(start, level),
                        pair.1@,
                        false,
                    );
                }
            }
        }
    }
}

impl BaoTree {
    /// The nodes below a node, step by step.
    proof fn lemma_looked_at<O: Outboard>(
        self,
        outboard: &O,
        start: nat,
        level: nat,
        hash: Seq<u8>,
        is_root: bool,
    )
        ensures
            ({
                let pairs = outboard.pairs();
                let nodes = self.looked_at(pairs, start, level, hash, is_root);
                let this = self.node_of(start, level);
                let pair = io::pair_at(pairs, this);
                let (l, r) = match pair {
                    Some(pair) => (pair.0@, pair.1@),
                    None => (hash, zeros()),
                };
                let left = self.looked_at(pairs, start, (level - 1) as nat, l, false);
                let right = self.looked_at(
                    pairs,
                    start + pow2(level),
                    self.right_level(start, level),
                    r,
                    false,
                );
                let bad = pair is Some && hash::parent_hash(l, r, is_root) != hash;
                let fails = load_fails(outboard);
                &&& !outboard.load_fails(this) && (bad || level == 0) ==> all_can_pass(nodes, fails)
                &&& !outboard.load_fails(this) && !bad && level > 0 && all_can_pass(left, fails)
                    && all_can_pass(right, fails) ==> all_can_pass(nodes, fails)
                &&& forall|e: std::io::Error|
                    {
                        let can_fail = #[trigger] load_can_fail(outboard, e);
                        &&& !outboard.loads(this) && outboard.load_errors(this).contains(e)
                            ==> stops(nodes, fails, can_fail)
                        &&& !outboard.load_fails(this) && !bad && level > 0 ==> {
                            &&& stops(left, fails, can_fail) ==> stops(nodes, fails, can_fail)
                            &&& all_can_pass(left, fails) && stops(right, fails, can_fail)
                                ==> stops(nodes, fails, can_fail)
                        }
                    }
            }),
    {
        let pairs = outboard.pairs();
        let this = self.node_of(start, level);
        let (l, r) = match io::pair_at(pairs, this) {
            Some(pair) => (pair.0@, pair.1@),
            None => (hash, zeros()),
        };
        let nodes = self.looked_at(pairs, start, level, hash, is_root);
        let left = self.looked_at(pairs, start, (level - 1) as nat, l, false);
        let right = self.looked_at(
            pairs,
            start + pow2(level),
            self.right_level(start, level),
            r,
            false,
        );
        let bad = io::pair_at(pairs, this) is Some && hash::parent_hash(l, r, is_root) != hash;
        let fails = load_fails(outboard);
        assert forall|e: std::io::Error|
            {
                let can_fail = #[trigger] load_can_fail(outboard, e);
                &&& !outboard.loads(this) && outboard.load_errors(this).contains(e) ==> stops(
                    nodes,
                    fails,
                    can_fail,
                )
                &&& !outboard.load_fails(this) && !bad && level > 0 ==> {
                    &&& stops(left, fails, can_fail) ==> stops(nodes, fails, can_fail)
                    &&& all_can_pass(left, fails) && stops(right, fails, can_fail) ==> stops(
                        nodes,
                        fails,
                        can_fail,
                    )
                }
            } by {
            let can_fail = load_can_fail(outboard, e);
            lemma_step(this, fails, can_fail);
            lemma_steps(left, right, fails, can_fail);
            lemma_steps(seq![this], left + right, fails, can_fail);
        }
        lemma_step(this, fails, fails);
        lemma_steps(left, right, fails, fails);
        lemma_steps(seq![this], left + right, fails, fails);
    }

    /// The steps with a file below a node, one after the other.
    proof fn lemma_accesses<O: Outboard>(
        self,
        outboard: &O,
        file: Seq<u8>,
        reliable: bool,
        errors: Set<std::io::Error>,
        start: nat,
        level: nat,
        hash: Seq<u8>,
        is_root: bool,
    )
        ensures
            ({
                let pairs = outboard.pairs();
                let steps = self.accesses(pairs, start, level, hash, is_root);
                let this = self.node_of(start, level);
                let fails = access_fails(outboard, file);
                let (a, b) = self.parts(pairs, start, level, hash, is_root);
                &&& !outboard.load_fails(this) && all_can_pass(a, fails) && all_can_pass(b, fails)
                    ==> all_can_pass(steps, fails)
                &&& forall|e: std::io::Error|
                    {
                        let can_fail = #[trigger] access_can_fail(
                            outboard,
                            file,
                            reliable,
                            errors,
                            e,
                        );
                        &&& !outboard.loads(this) && outboard.load_errors(this).contains(e)
                            ==> stops(steps, fails, can_fail)
                        &&& !outboard.load_fails(this) && stops(a, fails, can_fail) ==> stops(
                            steps,
                            fails,
                            can_fail,
                        )
                        &&& !outboard.load_fails(this) && all_can_pass(a, fails) && stops(
                            b,
                            fails,
                            can_fail,
                        ) ==> stops(steps, fails, can_fail)
                    }
            }),
    {
        let pairs = outboard.pairs();
        let steps = self.accesses(pairs, start, level, hash, is_root);
        let this = self.node_of(start, level);
        let load = Access::Load(this);
        let fails = access_fails(outboard, file);
        let (a, b) = self.parts(pairs, start, level, hash, is_root);
        assert(steps =~= seq![load] + (a + b));
        assert forall|e: std::io::Error|
            {
                let can_fail = #[trigger] access_can_fail(outboard, file, reliable, errors, e);
                &&& !outboard.loads(this) && outboard.load_errors(this).contains(e) ==> stops(
                    steps,
                    fails,
                    can_fail,
                )
                &&& !outboard.load_fails(this) && stops(a, fails, can_fail) ==> stops(
                    steps,
                    fails,
                    can_fail,
                )
                &&& !outboard.load_fails(this) && all_can_pass(a, fails) && stops(
                    b,
                    fails,
                    can_fail,
                ) ==> stops(steps, fails, can_fail)
            } by {
            let can_fail = access_can_fail(outboard, file, reliable, errors, e);
            lemma_step(load, fails, can_fail);
            lemma_steps(a, b, fails, can_fail);
            lemma_steps(seq![load], a + b, fails, can_fail);
        }
        lemma_step(load, fails, fails);
        lemma_steps(a, b, fails, fails);
        lemma_steps(seq![load], a + b, fails, fails);
    }

    /// The steps to the left and to the right below a node, once its hash pair has
    /// been loaded.
    spec fn parts(
        self,
        pairs: Map<TreeNode, (Digest, Digest)>,
        start: nat,
        level: nat,
        hash: Seq<u8>,
        is_root: bool,
    ) -> (Seq<Access>, Seq<Access>) {
        match io::pair_at(pairs, self.node_of(start, level)) {
            Some(pair) => if hash::parent_hash(pair.0@, pair.1@, is_root) != hash {
                (Seq::empty(), Seq::empty())
            } else if level == 0 {
                (seq![self.read_of(start)], seq![self.read_of(start + 1)])
            } else {
                (
                    self.accesses(pairs, start, (level - 1) as nat, pair.0@, false),
                    self.accesses(
                        pairs,
                        start + pow2(level),
                        self.right_level(start, level),
                        pair.1@,
                        false,
                    ),
                )
            },
            None => if level == 0 {
                (seq![self.read_of(start)], Seq::empty())
            } else {
                (Seq::empty(), Seq::empty())
            },
        }
    }
}

/// A walk down a tree that collects valid chunks.
struct RecursiveValidator<'a, O: Outboard> {
    tree: BaoTree,
    valid_nodes: TreeNode,
    res: ChunkRanges,
    outboard: &'a O,
}

impl<'a, O: Outboard> RecursiveValidator<'a, O> {
    spec fn valid(self) -> bool {
        &&& self.tree.valid()
        &&& self.tree.spec_filled_size() <= 0x40_0000_0000_0001
        &&& self.valid_nodes.0 == self.tree.spec_filled_size()
        &&& self.res.valid()
    }

    /// Adds the valid chunks below a node.
    fn validate_rec(&mut self, parent_hash: &Digest, node: TreeNode, is_root: bool) -> (r: Result<
        (),
        std::io::Error,
    >)
        requires
            old(self).valid(),
            iter::node_in(old(self).tree, node),
        ensures
            final(self).valid(),
            final(self).tree == old(self).tree,
            final(self).outboard == old(self).outboard,
            r is Ok ==> final(self).res.chunks() == old(self).res.chunks().union(
                old(self).tree.valid_chunks(
                    old(self).outboard.pairs(),
                    node.spec_start() as nat,
                    node.spec_level(),
                    parent_hash@,
                    is_root,
                ),
            ),
            ({
                let nodes = old(self).tree.looked_at(
                    old(self).outboard.pairs(),
                    node.spec_start() as nat,
                    node.spec_level(),
                    parent_hash@,
                    is_root,
                );
                &&& r is Ok ==> all_can_pass(nodes, load_fails(old(self).outboard))
                &&& r matches Err(e) ==> stops(
                    nodes,
                    load_fails(old(self).outboard),
                    load_can_fail(old(self).outboard, e),
                )
            }),
        decreases node.spec_level(),
    {
        let ghost start = node.spec_start() as nat;
        let ghost level = node.spec_level();
        let ghost pairs = self.outboard.pairs();
        let ghost before = self.res.chunks();
        proof {
            node.lemma_shape();
            self.tree.lemma_looked_at(self.outboard, start, level, parent_hash@, is_root);
        }
        let (l_hash, r_hash) = match self.outboard.load(node)? {
            Some((l_hash, r_hash)) => {
                let actual = hash::parent_cv(&l_hash, &r_hash, is_root);
                if !actual.same(parent_hash) {
                    proof {
                        assert(before =~= before.union(Set::empty()));
                    }
                    return Ok(());
                }
                (l_hash, r_hash)
            },
            None => {
                let zero = Digest([0u8; 32]);
                assert(zero@ =~= zeros());
                (*parent_hash, zero)
            },
        };
        if let Some(leaf) = node.as_leaf() {
            let start = self.tree.chunk_num(leaf);
            let chunks = self.tree.chunks();
            let span: u64 = self.tree.chunk_group_chunks().0 * 2;
            let end: ChunkNum = if chunks.0 <= start.0 || chunks.0 - start.0 <= span {
                chunks
            } else {
                ChunkNum(start.0 + span)
            };
            self.res.insert(start, end);
            proof {
                assert(self.res.chunks() =~= before.union(self.tree.leaf_chunks(leaf.0 as nat)));
            }
        } else {
            proof {
                self.tree.lemma_children(start, level);
                node::lemma_node_at(start, (level - 1) as nat);
            }
            let left = node.left_child().unwrap();
            let right = node.right_descendant(self.valid_nodes).unwrap();
            self.validate_rec(&l_hash, left, false)?;
            self.validate_rec(&r_hash, right, false)?;
            proof {
                let a = self.tree.valid_chunks(pairs, start, (level - 1) as nat, l_hash@, false);
                let b = self.tree.valid_chunks(
                    pairs,
                    start + pow2(level),
                    self.tree.right_level(start, level),
                    r_hash@,
                    false,
                );
                assert(before.union(a).union(b) =~= before.union(a.union(b)));
            }
        }
        Ok(())
    }
}

/// The chunks of a blob that an outboard has valid hashes for.
pub fn valid_ranges<O: Outboard>(outboard: &O) -> (r: Result<ChunkRanges, std::io::Error>)
    requires
        outboard.spec_tree().valid(),
    ensures
        r matches Ok(res) ==> res.valid() && res.chunks() == outboard.spec_tree().valid_chunks(
            outboard.pairs(),
            0,
            outboard.spec_tree().root_level(),
            outboard.spec_root()@,
            true,
        ),
        ({
            let nodes = outboard.spec_tree().looked_at(
                outboard.pairs(),
                0,
                outboard.spec_tree().root_level(),
                outboard.spec_root()@,
                true,
            );
            &&& r is Ok ==> all_can_pass(nodes, load_fails(outboard))
            &&& r matches Err(e) ==> stops(nodes, load_fails(outboard), load_can_fail(outboard, e))
        }),
        (forall|node: TreeNode| #[trigger] outboard.loads(node)) ==> r is Ok,
        ({
            let root = outboard.spec_tree().spec_root();
            let pair = outboard.pairs()[root];
            r matches Ok(res) ==> outboard.pairs().contains_key(root) && hash::parent_bytes(
                pair.0.0@,
                pair.1.0@,
                true,
            )@ != outboard.spec_root().0@ ==> res.chunks() == Set::<int>::empty()
        }),
{
    let tree = outboard.tree();
    let root_hash = outboard.root();
    let mut validator = RecursiveValidator {
        tree,
        valid_nodes: tree.filled_size(),
        res: ChunkRanges::empty(),
        outboard,
    };
    proof {
        tree.lemma_root();
    }
    let root = tree.root();
    validator.validate_rec(&root_hash, root, true)?;
    proof {
        let valid = tree.valid_chunks(
            outboard.pairs(),
            0,
            tree.root_level(),
            root_hash@,
            true,
        );
        assert(Set::<int>::empty().union(valid) =~= valid);
    }
    Ok(validator.res)
}

/// A walk down a tree that collects the valid chunks of a file.
struct RecursiveFileValidator<'a, O: Outboard, R: SliceReader> {
    tree: BaoTree,
    valid_nodes: TreeNode,
    res: ChunkRanges,
    outboard: &'a O,
    reader: R,
    buffer: Vec<u8>,
}

impl<'a, O: Outboard, R: SliceReader> RecursiveFileValidator<'a, O, R> {
    spec fn valid(self) -> bool {
        &&& self.tree.valid()
        &&& self.tree.spec_filled_size() <= 0x40_0000_0000_0001
        &&& self.valid_nodes.0 == self.tree.spec_filled_size()
        &&& self.res.valid()
        &&& self.buffer@.len() == self.tree.block_size.spec_bytes()
    }

    /// All but the chunks that were found and the buffer.
    spec fn same_source(self, that: Self) -> bool {
        &&& self.tree == that.tree
        &&& self.outboard == that.outboard
        &&& self.reader.bytes() == that.reader.bytes()
        &&& self.reader.reliable() == that.reader.reliable()
        &&& self.reader.errors() == that.reader.errors()
    }

    /// Adds the chunks of a block if its bytes have a hash.
    fn validate_block(&mut self, block: Range<ByteNum>, hash: &Digest, is_root: bool) -> (r: Result<
        (),
        std::io::Error,
    >)
        requires
            old(self).valid(),
            block.start.0 <= block.end.0 <= old(self).tree.size.0,
            block.end.0 - block.start.0 <= old(self).tree.block_size.spec_bytes(),
            is_root ==> block.start.0 == 0,
        ensures
            final(self).valid(),
            final(self).same_source(*old(self)),
            ({
                let start = block.start.0 as nat;
                let len = (block.end.0 - block.start.0) as nat;
                let bytes = io::slice_at(old(self).reader.bytes(), start, len);
                let steps = seq![Access::Read { offset: start, len }];
                let fails = access_fails(old(self).outboard, old(self).reader.bytes());
                &&& r is Ok ==> io::has_slice(old(self).reader.bytes(), start, len)
                &&& r is Ok ==> all_can_pass(steps, fails)
                &&& r matches Err(e) ==> stops(
                    steps,
                    fails,
                    access_can_fail(
                        old(self).outboard,
                        old(self).reader.bytes(),
                        old(self).reader.reliable(),
                        old(self).reader.errors(),
                        e,
                    ),
                )
                &&& r is Ok ==> final(self).res.chunks() == old(self).res.chunks().union(
                    if hash::subtree_hash(bytes, num::chunks_of(start), is_root) == hash@ {
                        chunk_range(num::chunks_of(start), num::chunks_of(block.end.0 as nat))
                    } else {
                        Set::empty()
                    },
                )
            }),
    {
        let start = block.start.chunks();
        let end = block.end.chunks();
        let ghost read = Access::Read {
            offset: block.start.0 as nat,
            len: (block.end.0 - block.start.0) as nat,
        };
        let ghost fails = access_fails(self.outboard, self.reader.bytes());
        let data = match io::read_range(&mut self.reader, block, self.buffer.as_mut_slice()) {
            Ok(data) => data,
            Err(e) => {
                proof {
                    let can_fail = access_can_fail(
                        self.outboard,
                        self.reader.bytes(),
                        self.reader.reliable(),
                        self.reader.errors(),
                        e,
                    );
                    lemma_step(read, fails, can_fail);
                }
                return Err(e);
            },
        };
        proof {
            lemma_step(read, fails, fails);
        }
        let actual = hash::hash_block(start, data, is_root);
        if actual.same(hash) {
            self.res.insert(start, end);
            assert(self.res.chunks() =~= old(self).res.chunks().union(
                chunk_range(start.0 as nat, end.0 as nat),
            ));
        } else {
            assert(self.res.chunks() =~= old(self).res.chunks().union(Set::empty()));
        }
        Ok(())
    }

    /// Adds the valid chunks below a node.
    fn validate_rec(&mut self, parent_hash: &Digest, node: TreeNode, is_root: bool) -> (r: Result<
        (),
        std::io::Error,
    >)
        requires
            old(self).valid(),
            iter::node_in(old(self).tree, node),
            is_root ==> node.spec_start() == 0,
        ensures
            final(self).valid(),
            final(self).same_source(*old(self)),
            ({
                let tree = old(self).tree;
                let pairs = old(self).outboard.pairs();
                let blob = old(self).reader.bytes();
                let start = node.spec_start() as nat;
                let level = node.spec_level();
                let there = tree.has_blocks(pairs, blob, start, level, parent_hash@, is_root);
                let steps = tree.accesses(pairs, start, level, parent_hash@, is_root);
                &&& r is Ok ==> there
                &&& r is Ok ==> all_can_pass(steps, access_fails(old(self).outboard, blob))
                &&& r matches Err(e) ==> stops(
                    steps,
                    access_fails(old(self).outboard, blob),
                    access_can_fail(
                        old(self).outboard,
                        blob,
                        old(self).reader.reliable(),
                        old(self).reader.errors(),
                        e,
                    ),
                )
                &&& r is Ok ==> final(self).res.chunks() == old(self).res.chunks().union(
                    tree.valid_file_chunks(pairs, blob, start, level, parent_hash@, is_root),
                )
            }),
        decreases node.spec_level(),
    {
        let ghost start = node.spec_start() as nat;
        let ghost level = node.spec_level();
        let ghost pairs = self.outboard.pairs();
        let ghost blob = self.reader.bytes();
        let ghost before = self.res.chunks();
        proof {
            node.lemma_shape();
            self.tree.lemma_accesses(
                self.outboard,
                blob,
                self.reader.reliable(),
                self.reader.errors(),
                start,
                level,
                parent_hash@,
                is_root,
            );
            assert(before =~= before.union(Set::empty()));
        }
        match self.outboard.load(node)? {
            Some((l_hash, r_hash)) => {
                let actual = hash::parent_cv(&l_hash, &r_hash, is_root);
                if !actual.same(parent_hash) {
                    return Ok(());
                }
                if let Some(leaf) = node.as_leaf() {
                    let (s, m, e) = self.tree.leaf_byte_ranges3(leaf);
                    self.validate_block(s..m, &l_hash, false)?;
                    self.validate_block(m..e, &r_hash, false)?;
                    proof {
                        let a = self.tree.valid_block(blob, start, l_hash@, false);
                        let b = self.tree.valid_block(blob, start + 1, r_hash@, false);
                        assert(before.union(a).union(b) =~= before.union(a.union(b)));
                    }
                } else {
                    proof {
                        self.tree.lemma_children(start, level);
                        node::lemma_node_at(start, (level - 1) as nat);
                    }
                    let left = node.left_child().unwrap();
                    let right = node.right_descendant(self.valid_nodes).unwrap();
                    self.validate_rec(&l_hash, left, false)?;
                    self.validate_rec(&r_hash, right, false)?;
                    proof {
                        let a = self.tree.valid_file_chunks(
                            pairs,
                            blob,
                            start,
                            (level - 1) as nat,
                            l_hash@,
                            false,
                        );
                        let b = self.tree.valid_file_chunks(
                            pairs,
                            blob,
                            start + pow2(level),
                            self.tree.right_level(start, level),
                            r_hash@,
                            false,
                        );
                        assert(before.union(a).union(b) =~= before.union(a.union(b)));
                    }
                }
            },
            None => {
                if let Some(leaf) = node.as_leaf() {
                    proof {
                        assert(0nat * self.tree.block_size.spec_bytes() == 0) by (nonlinear_arith);
                    }
                    let (s, m, _) = self.tree.leaf_byte_ranges3(leaf);
                    self.validate_block(s..m, parent_hash, is_root)?;
                }
            },
        }
        Ok(())
    }
}

/// The chunks of a file that are valid, by an outboard whose hash pairs on the way
/// to them are valid too.
pub fn valid_file_ranges<O: Outboard, R: SliceReader>(outboard: &O, reader: R) -> (r: Result<
    ChunkRanges,
    std::io::Error,
>)
    requires
        outboard.spec_tree().valid(),
    ensures
        ({
            let tree = outboard.spec_tree();
            let pairs = outboard.pairs();
            let blob = reader.bytes();
            let root = outboard.spec_root()@;
            let level = tree.root_level();
            let there = tree.has_blocks(pairs, blob, 0, level, root, true);
            let steps = tree.accesses(pairs, 0, level, root, true);
            &&& r is Ok ==> there
            &&& r is Ok ==> all_can_pass(steps, access_fails(outboard, blob))
            &&& r matches Err(e) ==> stops(
                steps,
                access_fails(outboard, blob),
                access_can_fail(outboard, blob, reader.reliable(), reader.errors(), e),
            )
            &&& (forall|node: TreeNode| #[trigger] outboard.loads(node)) && reader.reliable()
                && there ==> r is Ok
            &&& r matches Ok(res) ==> res.valid() && res.chunks() == tree.valid_file_chunks(
                pairs,
                blob,
                0,
                level,
                root,
                true,
            )
        }),
        ({
            let root = outboard.spec_tree().spec_root();
            let pair = outboard.pairs()[root];
            r matches Ok(res) ==> outboard.pairs().contains_key(root) && hash::parent_bytes(
                pair.0.0@,
                pair.1.0@,
                true,
            )@ != outboard.spec_root().0@ ==> res.chunks() == Set::<int>::empty()
        }),
{
    let tree = outboard.tree();
    let root_hash = outboard.root();
    let mut validator = RecursiveFileValidator {
        tree,
        valid_nodes: tree.filled_size(),
        res: ChunkRanges::empty(),
        outboard,
        reader,
        buffer: vec![0u8; tree.block_size.bytes()],
    };
    proof {
        tree.lemma_root();
    }
    let root = tree.root();
    proof {
        if tree.has_blocks(outboard.pairs(), reader.bytes(), 0, tree.root_level(), root_hash@, true) {
            tree.lemma_reads_there(
                outboard.pairs(),
                reader.bytes(),
                0,
                tree.root_level(),
                root_hash@,
                true,
            );
        }
    }
    validator.validate_rec(&root_hash, root, true)?;
    proof {
        let valid = tree.valid_file_chunks(
            outboard.pairs(),
            reader.bytes(),
            0,
            tree.root_level(),
            root_hash@,
            true,
        );
        assert(Set::<int>::empty().union(valid) =~= valid);
    }
    Ok(validator.res)
}

} // verus!
