//! What the hash pairs of a blob are.
use vstd::arithmetic::power2::*;
use vstd::prelude::*;

use crate::consistency;
use crate::hash;
use crate::hash::Digest;
use crate::laws::traversals::Place;
use crate::node::TreeNode;
use crate::num::{BlockSize, ByteNum, ChunkNum};
use crate::pow;
use crate::tree::BaoTree;

verus! {

/// The node of a run of blocks that has two halves.
pub open spec fn node_for(place: Place) -> TreeNode {
    TreeNode((place.first + pow2((place.height - 1) as nat) - 1) as u64)
}

/// The hash of the bytes of a blob from one block on and below another.
pub open spec fn hash_between(blob: Seq<u8>, log: nat, from: nat, to: nat) -> Seq<u8> {
    let block = 1024 * pow2(log);
    let end = if to * block <= blob.len() {
        to * block
    } else {
        blob.len()
    };
    hash::subtree_hash(
        blob.subrange((from * block) as int, end as int),
        from * pow2(log),
        false,
    )
}

/// Whether a store has the hashes of the two halves of a run of blocks.
pub open spec fn stores_halves(
    pairs: Map<TreeNode, (Digest, Digest)>,
    blob: Seq<u8>,
    log: nat,
    place: Place,
) -> bool {
    let mid = place.first + pow2((place.height - 1) as nat);
    &&& pairs.contains_key(node_for(place))
    &&& pairs[node_for(place)].0@ == hash_between(blob, log, place.first, mid)
    &&& pairs[node_for(place)].1@ == hash_between(blob, log, mid, place.end())
}

/// Whether a store has the hash pairs of a blob in blocks of `1024 << log` bytes.
pub open spec fn is_outboard(
    pairs: Map<TreeNode, (Digest, Digest)>,
    blob: Seq<u8>,
    log: nat,
) -> bool {
    forall|place: Place|
        place.height > 0 && #[trigger] place.is_there(blob.len(), log) ==> stores_halves(
            pairs,
            blob,
            log,
            place,
        )
}

/// The tree of a whole blob.
pub open spec fn tree_of(blob: Seq<u8>, log: u8) -> BaoTree {
    BaoTree {
        size: ByteNum(blob.len() as u64),
        block_size: BlockSize(log),
        start_chunk: ChunkNum(0),
    }
}

/// Whether a blob can be cut into blocks: its length fits into the header, and a block
/// into memory.
pub open spec fn fits(blob: Seq<u8>, log: u8) -> bool {
    blob.len() <= u64::MAX && 1024 * pow2(log as nat) <= isize::MAX
}

/// The hash of a run of blocks.
pub(crate) proof fn lemma_hash_between(blob: Seq<u8>, log: u8, from: nat, to: nat)
    requires
        fits(blob, log),
        from < tree_of(blob, log).spec_blocks(),
        from <= to,
    ensures
        hash_between(blob, log as nat, from, to) == hash::subtree_hash(
            tree_of(blob, log).span(blob, from, to),
            tree_of(blob, log).node_chunk(from),
            false,
        ),
{
    let tree = tree_of(blob, log);
    tree.lemma_block_start(from);
}

/// A hash pair of a node.
pub(crate) proof fn lemma_stores_halves(
    pairs: Map<TreeNode, (Digest, Digest)>,
    blob: Seq<u8>,
    log: u8,
    start: nat,
    level: nat,
)
    requires
        fits(blob, log),
    ensures
        ({
            let place = Place { first: start, height: level + 1 };
            let tree = tree_of(blob, log);
            &&& place.is_there(blob.len(), log as nat) <==> tree.has_node(start, level)
                && tree.has_pair(start, level)
            &&& node_for(place) == tree.node_of(start, level)
            &&& place.is_there(blob.len(), log as nat) ==> (stores_halves(
                pairs,
                blob,
                log as nat,
                place,
            ) <==> pairs.contains_key(tree.node_of(start, level)) && pairs[tree.node_of(
                start,
                level,
            )].0@ == tree.left_hash(blob, start, level) && pairs[tree.node_of(start, level)].1@
                == tree.right_hash(blob, start, level))
        }),
{
    let tree = tree_of(blob, log);
    crate::laws::traversals::lemma_node_there(tree, start, level);
    pow::lemma_pow2_step(level);
    pow::lemma_pow2_step(0);
    if tree.has_node(start, level) && tree.has_pair(start, level) {
        lemma_hash_between(blob, log, start, start + pow2(level));
        lemma_hash_between(blob, log, start + pow2(level), start + 2 * pow2(level));
    }
}

/// The hash pairs of a blob make a consistent store.
pub(crate) proof fn lemma_outboard_consistent(
    pairs: Map<TreeNode, (Digest, Digest)>,
    blob: Seq<u8>,
    log: u8,
)
    requires
        fits(blob, log),
    ensures
        is_outboard(pairs, blob, log as nat) <==> tree_of(blob, log).consistent(
            hash::subtree_hash(blob, 0, true),
            pairs,
            blob,
        ),
{
    let tree = tree_of(blob, log);
    let root = hash::subtree_hash(blob, 0, true);
    if is_outboard(pairs, blob, log as nat) {
        assert forall|start: nat, level: nat| #[trigger]
            tree.pair_consistent(pairs, blob, start, level) by {
            lemma_stores_halves(pairs, blob, log, start, level);
            let place = Place { first: start, height: level + 1 };
            if place.is_there(blob.len(), log as nat) {
                assert(stores_halves(pairs, blob, log as nat, place));
            }
        }
    }
    if tree.consistent(root, pairs, blob) {
        assert forall|place: Place|
            place.height > 0 && #[trigger] place.is_there(
                blob.len(),
                log as nat,
            ) implies stores_halves(pairs, blob, log as nat, place) by {
            let level = (place.height - 1) as nat;
            lemma_stores_halves(pairs, blob, log, place.first, level);
            assert(place == Place { first: place.first, height: level + 1 });
            assert(tree.pair_consistent(pairs, blob, place.first, level));
        }
    }
}

/// Every blob that can be cut into blocks has an outboard.
pub proof fn law_every_blob_has_an_outboard(blob: Seq<u8>, log: u8)
    requires
        blob.len() <= u64::MAX,
        1024 * pow2(log as nat) <= isize::MAX,
    ensures
        exists|pairs: Map<TreeNode, (Digest, Digest)>| is_outboard(pairs, blob, log as nat),
{
    let tree = tree_of(blob, log);
    consistency::law_blob_has_consistent_pairs(tree, blob);
    lemma_outboard_consistent(tree.pairs_of(blob), blob, log);
    assert(is_outboard(tree.pairs_of(blob), blob, log as nat));
}

} // verus!
