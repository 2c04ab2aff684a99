//! What the valid ranges of an outboard, and of a file, say of a blob.
use vstd::arithmetic::power2::*;
use vstd::prelude::*;

use crate::genuine;
use crate::hash;
use crate::hash::Digest;
use crate::io;
use crate::node::TreeNode;
use crate::num;
use crate::pow;
use crate::tree::BaoTree;
use crate::validate;

verus! {

impl BaoTree {
    /// The number of chunks before a block.
    pub open spec fn chunks_before(self, block: nat) -> nat {
        num::chunks_of(self.byte_at(block))
    }

    /// How many chunks come before a block.
    pub proof fn lemma_chunks_before(self, block: nat)
        requires
            self.valid(),
        ensures
            self.chunks_before(block) == crate::tree::min(
                block * self.block_size.spec_chunks(),
                num::chunks_of(self.size.0 as nat),
            ),
            block < self.spec_blocks() ==> self.chunks_before(block) == block
                * self.block_size.spec_chunks(),
            block >= self.spec_blocks() ==> self.chunks_before(block) == num::chunks_of(
                self.size.0 as nat,
            ),
    {
        let bb = self.block_size.spec_bytes();
        let g = self.block_size.spec_chunks();
        assert(block * bb == 1024 * (block * g)) by (nonlinear_arith)
            requires
                bb == 1024 * g,
        ;
        if block < self.spec_blocks() {
            self.lemma_block_start(block);
        } else {
            self.lemma_past_end(block);
        }
    }

    /// More chunks come before later blocks.
    pub proof fn lemma_chunks_before_mono(self, a: nat, b: nat)
        requires
            a <= b,
        ensures
            self.chunks_before(a) <= self.chunks_before(b),
    {
        self.lemma_chunk_at_mono(a, b);
    }

    /// The chunks of a leaf are those of its two blocks.
    proof fn lemma_leaf_chunk_range(self, start: nat)
        requires
            self.self_contained(),
            self.has_node(start, 0),
        ensures
            self.leaf_chunks(start) == validate::chunk_range(
                self.chunks_before(start),
                self.chunks_before(start + 2),
            ),
    {
        let g = self.block_size.spec_chunks();
        self.lemma_chunks_before(start);
        self.lemma_chunks_before(start + 2);
        assert((start + 2) * g == start * g + 2 * g) by (nonlinear_arith);
    }

    /// Going down from a node, all ranges stay within its chunks, and those of a
    /// file within those of the outboard.
    pub(crate) proof fn lemma_valid_within(
        self,
        pairs: Map<TreeNode, (Digest, Digest)>,
        file: Seq<u8>,
        start: nat,
        level: nat,
        hash: Seq<u8>,
        is_root: bool,
    )
        requires
            self.self_contained(),
            self.has_node(start, level),
        ensures
            ({
                let range = validate::chunk_range(
                    self.chunks_before(start),
                    self.chunks_before(start + 2 * pow2(level)),
                );
                let valid = self.valid_chunks(pairs, start, level, hash, is_root);
                &&& valid.subset_of(range)
                &&& self.valid_file_chunks(
                    pairs,
                    file,
                    start,
                    level,
                    hash,
                    is_root,
                ).subset_of(valid)
            }),
        decreases level,
    {
        let mid = start + pow2(level);
        let end = start + 2 * pow2(level);
        pow::lemma_pow2_step(level);
        pow::lemma_pow2_step(0);
        self.lemma_chunks_before_mono(start, mid);
        self.lemma_chunks_before_mono(mid, end);
        if level == 0 {
            self.lemma_leaf_chunk_range(start);
        } else {
            let (l, r) = match io::pair_at(pairs, self.node_of(start, level)) {
                Some(pair) => (pair.0@, pair.1@),
                None => (hash, validate::zeros()),
            };
            let rl = self.right_level(start, level);
            self.lemma_children(start, level);
            self.lemma_valid_within(pairs, file, start, (level - 1) as nat, l, false);
            self.lemma_valid_within(pairs, file, mid, rl, r, false);
        }
    }

    /// Below a node of a consistent outboard everything is valid.
    proof fn lemma_all_valid(
        self,
        root: Seq<u8>,
        pairs: Map<TreeNode, (Digest, Digest)>,
        blob: Seq<u8>,
        start: nat,
        level: nat,
        is_root: bool,
    )
        requires
            self.consistent(root, pairs, blob),
            self.no_pair_for_half_leaf(pairs),
            self.has_node(start, level),
        ensures
            ({
                let hash = self.node_hash(blob, start, level, is_root);
                let range = validate::chunk_range(
                    self.chunks_before(start),
                    self.chunks_before(start + 2 * pow2(level)),
                );
                &&& self.valid_chunks(pairs, start, level, hash, is_root) == range
                &&& self.valid_file_chunks(pairs, blob, start, level, hash, is_root) == range
                &&& self.has_blocks(pairs, blob, start, level, hash, is_root)
            }),
        decreases level,
    {
        let mid = start + pow2(level);
        let end = start + 2 * pow2(level);
        let hash = self.node_hash(blob, start, level, is_root);
        let range = validate::chunk_range(self.chunks_before(start), self.chunks_before(end));
        pow::lemma_pow2_step(level);
        pow::lemma_pow2_step(0);
        self.lemma_node_hash(blob, start, level, is_root);
        self.lemma_chunks_before_mono(start, mid);
        self.lemma_chunks_before_mono(mid, end);
        assert(self.pair_consistent(pairs, blob, start, level));
        if level > 0 {
            self.lemma_children(start, level);
            self.lemma_all_valid(root, pairs, blob, start, (level - 1) as nat, false);
            self.lemma_all_valid(
                root,
                pairs,
                blob,
                mid,
                self.right_level(start, level),
                false,
            );
            let a = validate::chunk_range(self.chunks_before(start), self.chunks_before(mid));
            let b = validate::chunk_range(self.chunks_before(mid), self.chunks_before(end));
            assert(a.union(b) =~= range);
        } else {
            self.lemma_leaf_chunk_range(start);
            self.lemma_block_slice(blob, start);
            if self.half_leaf(start) {
                self.lemma_past_end(start + 1);
                self.lemma_past_end(start + 2);
            } else {
                self.lemma_block_slice(blob, start + 1);
                assert(self.valid_block(blob, start, pairs[self.node_of(start, 0)].0@, false).union(
                    self.valid_block(blob, start + 1, pairs[self.node_of(start, 0)].1@, false),
                ) =~= range);
            }
        }
    }

    /// A block of a blob is a slice of it, and starts at its chunk.
    pub(crate) proof fn lemma_block_slice(self, blob: Seq<u8>, block: nat)
        requires
            self.self_contained(),
            blob.len() == self.size.0,
            block < self.spec_blocks(),
        ensures
            self.has_block(blob, block),
            self.block_bytes(blob, block) == self.span(blob, block, block + 1),
            self.chunks_before(block) == self.node_chunk(block),
    {
        self.lemma_chunk_at_mono(block, block + 1);
        self.lemma_chunks_before(block);
        assert(self.block_bytes(blob, block) =~= self.span(blob, block, block + 1));
    }

    /// Whether the hash pair of a node in a store is a forgery: it is not the one of the
    /// blob, and has the hash that the blob's has; or it has the hash of a block.
    pub open spec fn node_forged(
        self,
        blob: Seq<u8>,
        pairs: Map<TreeNode, (Digest, Digest)>,
        start: nat,
        level: nat,
    ) -> bool {
        let pair = pairs[self.node_of(start, level)];
        let is_root = self.is_root(start, level);
        &&& self.has_node(start, level)
        &&& pairs.contains_key(self.node_of(start, level))
        &&& if self.has_pair(start, level) {
            genuine::pairs_collide(
                pair.0@,
                pair.1@,
                self.left_hash(blob, start, level),
                self.right_hash(blob, start, level),
                is_root,
            )
        } else {
            genuine::pair_forged(
                pair.0@,
                pair.1@,
                self.span(blob, start, start + 1),
                self.node_chunk(start),
                is_root,
            )
        }
    }

    /// Whether a block of a file is a forgery: it is not what the blob has there, in its
    /// first `n` bytes, and has the same hash.
    pub open spec fn block_forged(
        self,
        blob: Seq<u8>,
        file: Seq<u8>,
        block: nat,
        n: nat,
        is_root: bool,
    ) -> bool {
        &&& block < self.spec_blocks()
        &&& self.has_block(file, block)
        &&& self.byte_at(block) + n <= blob.len()
        &&& genuine::data_collide(
            self.block_bytes(file, block),
            blob.subrange(self.byte_at(block) as int, (self.byte_at(block) + n) as int),
            self.node_chunk(block),
            is_root,
        )
    }

    /// Whether a hash pair of a store, or a block of a file, is a forgery.
    pub open spec fn file_forged(
        self,
        blob: Seq<u8>,
        pairs: Map<TreeNode, (Digest, Digest)>,
        file: Seq<u8>,
    ) -> bool {
        ||| exists|start: nat, level: nat| self.node_forged(blob, pairs, start, level)
        ||| exists|block: nat, n: nat, is_root: bool|
            self.block_forged(blob, file, block, n, is_root)
    }

    /// Where a file has a block with the hash of a part of the blob, that part is
    /// the block, or the block is a forgery.
    proof fn lemma_block_genuine(
        self,
        blob: Seq<u8>,
        pairs: Map<TreeNode, (Digest, Digest)>,
        file: Seq<u8>,
        block: nat,
        n: nat,
        is_root: bool,
    )
        requires
            self.self_contained(),
            blob.len() == self.size.0,
            block < self.spec_blocks(),
            self.has_block(file, block),
            self.byte_at(block) + n <= blob.len(),
            !self.file_forged(blob, pairs, file),
            hash::subtree_hash(self.block_bytes(file, block), self.chunks_before(block), is_root)
                == hash::subtree_hash(
                blob.subrange(self.byte_at(block) as int, (self.byte_at(block) + n) as int),
                self.node_chunk(block),
                is_root,
            ),
        ensures
            self.block_bytes(file, block) == blob.subrange(
                self.byte_at(block) as int,
                (self.byte_at(block) + n) as int,
            ),
            n == self.byte_at(block + 1) - self.byte_at(block),
    {
        self.lemma_chunk_at_mono(block, block + 1);
        self.lemma_chunks_before(block);
        assert(!self.block_forged(blob, file, block, n, is_root));
    }

    /// Whether a file has the bytes of a blob in the chunks of a set.
    pub open spec fn bytes_agree(self, blob: Seq<u8>, file: Seq<u8>, chunks: Set<int>) -> bool {
        forall|x: int|
            0 <= x < self.size.0 && #[trigger] chunks.contains(x / 1024) ==> x < file.len()
                && file[x] == blob[x]
    }

    /// What agrees in two sets of chunks agrees in both together.
    proof fn lemma_agree_union(self, blob: Seq<u8>, file: Seq<u8>, a: Set<int>, b: Set<int>)
        requires
            self.bytes_agree(blob, file, a),
            self.bytes_agree(blob, file, b),
        ensures
            self.bytes_agree(blob, file, a.union(b)),
    {
        assert forall|x: int|
            0 <= x < self.size.0 && #[trigger] a.union(b).contains(x / 1024) implies x < file.len()
            && file[x] == blob[x] by {
            assert(a.contains(x / 1024) || b.contains(x / 1024));
        }
    }

    /// A block that is the blob's.
    proof fn lemma_bytes_agree(self, blob: Seq<u8>, file: Seq<u8>, block: nat)
        requires
            self.self_contained(),
            blob.len() == self.size.0,
            block < self.spec_blocks(),
            self.has_block(file, block),
            self.block_bytes(file, block) == self.span(blob, block, block + 1),
        ensures
            self.bytes_agree(
                blob,
                file,
                validate::chunk_range(self.chunks_before(block), self.chunks_before(block + 1)),
            ),
    {
        let s = self.byte_at(block) as int;
        let e = self.byte_at(block + 1) as int;
        let bytes = self.block_bytes(file, block);
        self.lemma_block_start(block);
        self.lemma_chunk_at_mono(block, block + 1);
        self.lemma_chunks_before(block);
        self.lemma_chunks_before(block + 1);
        let range = validate::chunk_range(
            self.chunks_before(block),
            self.chunks_before(block + 1),
        );
        if block + 1 < self.spec_blocks() {
            self.lemma_block_start(block + 1);
        } else {
            self.lemma_past_end(block + 1);
        }
        assert forall|x: int| 0 <= x < self.size.0 && #[trigger] range.contains(x / 1024) implies x
            < file.len() && file[x] == blob[x] by {
            assert(s <= x < e);
            assert(bytes[x - s] == file[x]);
            assert(self.span(blob, block, block + 1)[x - s] == blob[x]);
        }
    }

    /// What is valid below a node with the hash of the blob is genuine.
    proof fn lemma_valid_genuine(
        self,
        blob: Seq<u8>,
        pairs: Map<TreeNode, (Digest, Digest)>,
        file: Seq<u8>,
        start: nat,
        level: nat,
    )
        requires
            self.self_contained(),
            blob.len() == self.size.0,
            self.has_node(start, level),
            !self.file_forged(blob, pairs, file),
            self.has_blocks(
                pairs,
                file,
                start,
                level,
                self.node_hash(blob, start, level, self.is_root(start, level)),
                self.is_root(start, level),
            ),
        ensures
            self.bytes_agree(
                blob,
                file,
                self.valid_file_chunks(
                    pairs,
                    file,
                    start,
                    level,
                    self.node_hash(blob, start, level, self.is_root(start, level)),
                    self.is_root(start, level),
                ),
            ),
        decreases level,
    {
        let is_root = self.is_root(start, level);
        let mid = start + pow2(level);
        let end = start + 2 * pow2(level);
        let node = self.node_of(start, level);
        let hash = self.node_hash(blob, start, level, is_root);
        pow::lemma_pow2_step(level);
        pow::lemma_pow2_step(0);
        self.lemma_node_hash(blob, start, level, is_root);
        hash::lemma_hash_len(self.span(blob, start, mid), self.node_chunk(start), false);
        hash::lemma_hash_len(self.span(blob, mid, end), self.node_chunk(mid), false);
        self.lemma_chunk_at_mono(start, start + 1);
        self.lemma_chunk_at_mono(start + 1, start + 2);
        assert(!self.node_forged(blob, pairs, start, level));
        match io::pair_at(pairs, node) {
            Some(pair) => if hash::parent_hash(pair.0@, pair.1@, is_root) == hash {
                if self.has_pair(start, level) {
                    if level > 0 {
                        self.lemma_children(start, level);
                        self.lemma_valid_genuine(blob, pairs, file, start, (level - 1) as nat);
                        self.lemma_valid_genuine(
                            blob,
                            pairs,
                            file,
                            mid,
                            self.right_level(start, level),
                        );
                        self.lemma_agree_union(
                            blob,
                            file,
                            self.valid_file_chunks(
                                pairs,
                                file,
                                start,
                                (level - 1) as nat,
                                pair.0@,
                                false,
                            ),
                            self.valid_file_chunks(
                                pairs,
                                file,
                                mid,
                                self.right_level(start, level),
                                pair.1@,
                                false,
                            ),
                        );
                    } else {
                        self.lemma_valid_block(blob, pairs, file, start, false);
                        self.lemma_valid_block(blob, pairs, file, start + 1, false);
                        self.lemma_agree_union(
                            blob,
                            file,
                            self.valid_block(file, start, pair.0@, false),
                            self.valid_block(file, start + 1, pair.1@, false),
                        );
                    }
                } else {
                    let data = self.span(blob, start, start + 1);
                    let m = hash::left_len(data.len());
                    let s = self.byte_at(start) as int;
                    self.lemma_past_end(start + 1);
                    self.lemma_past_end(start + 2);
                    hash::lemma_left_len(data.len());
                    assert(data.take(m as int) =~= blob.subrange(s, s + m));
                    if hash::subtree_hash(
                        self.block_bytes(file, start),
                        self.chunks_before(start),
                        false,
                    ) == pair.0@ {
                        self.lemma_block_genuine(blob, pairs, file, start, m, false);
                    }
                    assert(self.valid_file_chunks(pairs, file, start, level, hash, is_root)
                        =~= Set::empty());
                }
            },
            None => if level == 0 {
                if self.half_leaf(start) {
                    self.lemma_valid_block(blob, pairs, file, start, is_root);
                } else if hash::subtree_hash(
                    self.block_bytes(file, start),
                    self.chunks_before(start),
                    is_root,
                ) == hash {
                    self.lemma_block_genuine(
                        blob,
                        pairs,
                        file,
                        start,
                        (self.byte_at(start + 2) - self.byte_at(start)) as nat,
                        is_root,
                    );
                    self.lemma_node_split(start, 0);
                    self.lemma_leaf_item(start, false);
                }
            },
        }
    }

    /// A block with the hash of the blob's is the blob's.
    proof fn lemma_valid_block(
        self,
        blob: Seq<u8>,
        pairs: Map<TreeNode, (Digest, Digest)>,
        file: Seq<u8>,
        block: nat,
        is_root: bool,
    )
        requires
            self.self_contained(),
            blob.len() == self.size.0,
            block < self.spec_blocks(),
            self.has_block(file, block),
            !self.file_forged(blob, pairs, file),
        ensures
            self.bytes_agree(
                blob,
                file,
                self.valid_block(
                    file,
                    block,
                    hash::subtree_hash(
                        self.span(blob, block, block + 1),
                        self.node_chunk(block),
                        is_root,
                    ),
                    is_root,
                ),
            ),
    {
        let data = self.span(blob, block, block + 1);
        self.lemma_chunk_at_mono(block, block + 1);
        if hash::subtree_hash(self.block_bytes(file, block), self.chunks_before(block), is_root)
            == hash::subtree_hash(data, self.node_chunk(block), is_root) {
            self.lemma_block_genuine(
                blob,
                pairs,
                file,
                block,
                (self.byte_at(block + 1) - self.byte_at(block)) as nat,
                is_root,
            );
            self.lemma_bytes_agree(blob, file, block);
        }
    }
}

impl BaoTree {
    /// A file that is long enough has all blocks below a node.
    proof fn lemma_has_blocks(
        self,
        pairs: Map<TreeNode, (Digest, Digest)>,
        file: Seq<u8>,
        start: nat,
        level: nat,
        hash: Seq<u8>,
        is_root: bool,
    )
        requires
            file.len() >= self.size.0,
        ensures
            self.has_blocks(pairs, file, start, level, hash, is_root),
        decreases level,
    {
        self.lemma_chunk_at_mono(start, start + 1);
        self.lemma_chunk_at_mono(start + 1, start + 2);
        if level > 0 {
            if let Some(pair) = io::pair_at(pairs, self.node_of(start, level)) {
                crate::tree::lemma_fit_level(
                    start + pow2(level),
                    (level - 1) as nat,
                    self.spec_filled_size(),
                );
                self.lemma_has_blocks(pairs, file, start, (level - 1) as nat, pair.0@, false);
                self.lemma_has_blocks(
                    pairs,
                    file,
                    start + pow2(level),
                    self.right_level(start, level),
                    pair.1@,
                    false,
                );
            }
        }
    }
}

/// Whatever the outboard: a file that is no shorter than the blob has all bytes that
/// have to be looked at.
pub proof fn law_long_file_can_be_checked(
    tree: BaoTree,
    root: Seq<u8>,
    pairs: Map<TreeNode, (Digest, Digest)>,
    file: Seq<u8>,
)
    requires
        tree.valid(),
        file.len() >= tree.size.0,
    ensures
        tree.has_blocks(pairs, file, 0, tree.root_level(), root, true),
{
    tree.lemma_has_blocks(pairs, file, 0, tree.root_level(), root, true);
}

/// The outboard of a blob has valid hashes for all chunks.
pub proof fn law_valid_ranges_of_consistent_outboard(
    tree: BaoTree,
    root: Seq<u8>,
    pairs: Map<TreeNode, (Digest, Digest)>,
    blob: Seq<u8>,
)
    requires
        tree.consistent(root, pairs, blob),
        tree.no_pair_for_half_leaf(pairs),
    ensures
        tree.valid_chunks(pairs, 0, tree.root_level(), root, true) == validate::chunk_range(
            0,
            num::chunks_of(blob.len()),
        ),
{
    tree.lemma_root();
    tree.lemma_root_hash(blob);
    tree.lemma_all_valid(root, pairs, blob, 0, tree.root_level(), true);
    tree.lemma_chunks_before(0);
    tree.lemma_chunks_before(2 * pow2(tree.root_level()));
}

/// With its own outboard all chunks of a blob are valid, and all its bytes are
/// there.
pub proof fn law_valid_file_ranges_of_consistent_outboard(
    tree: BaoTree,
    root: Seq<u8>,
    pairs: Map<TreeNode, (Digest, Digest)>,
    blob: Seq<u8>,
)
    requires
        tree.consistent(root, pairs, blob),
        tree.no_pair_for_half_leaf(pairs),
    ensures
        tree.has_blocks(pairs, blob, 0, tree.root_level(), root, true),
        tree.valid_file_chunks(pairs, blob, 0, tree.root_level(), root, true)
            == validate::chunk_range(0, num::chunks_of(blob.len())),
{
    tree.lemma_root();
    tree.lemma_root_hash(blob);
    tree.lemma_all_valid(root, pairs, blob, 0, tree.root_level(), true);
    tree.lemma_chunks_before(0);
    tree.lemma_chunks_before(2 * pow2(tree.root_level()));
}

/// Whatever the outboard and the file: the valid ranges of the file are among those
/// of the outboard, and these among the chunks of the blob.
pub proof fn law_valid_ranges_are_nested(
    tree: BaoTree,
    root: Seq<u8>,
    pairs: Map<TreeNode, (Digest, Digest)>,
    file: Seq<u8>,
)
    requires
        tree.self_contained(),
    ensures
        tree.valid_file_chunks(pairs, file, 0, tree.root_level(), root, true).subset_of(
            tree.valid_chunks(pairs, 0, tree.root_level(), root, true),
        ),
        tree.valid_chunks(pairs, 0, tree.root_level(), root, true).subset_of(
            validate::chunk_range(0, num::chunks_of(tree.size.0 as nat)),
        ),
{
    tree.lemma_root();
    tree.lemma_valid_within(pairs, file, 0, tree.root_level(), root, true);
    tree.lemma_chunks_before(0);
    tree.lemma_chunks_before(2 * pow2(tree.root_level()));
}

/// Whatever the outboard and the file: in the valid ranges that are found for the
/// root hash and the size of a blob, the file has the bytes of the blob. Otherwise a
/// hash pair of the outboard or a block of the file differs from the blob's and has the
/// same hash.
pub proof fn law_valid_file_ranges_are_genuine(
    tree: BaoTree,
    blob: Seq<u8>,
    pairs: Map<TreeNode, (Digest, Digest)>,
    file: Seq<u8>,
)
    requires
        tree.self_contained(),
        blob.len() == tree.size.0,
    ensures
        ({
            let root = hash::subtree_hash(blob, 0, true);
            let level = tree.root_level();
            tree.has_blocks(pairs, file, 0, level, root, true) ==> tree.file_forged(
                blob,
                pairs,
                file,
            ) || tree.bytes_agree(
                blob,
                file,
                tree.valid_file_chunks(pairs, file, 0, level, root, true),
            )
        }),
{
    let root = hash::subtree_hash(blob, 0, true);
    let level = tree.root_level();
    if tree.has_blocks(pairs, file, 0, level, root, true) && !tree.file_forged(blob, pairs, file) {
        tree.lemma_root();
        tree.lemma_root_hash(blob);
        tree.lemma_valid_genuine(blob, pairs, file, 0, level);
    }
}

} // verus!
