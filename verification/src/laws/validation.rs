//! Which chunks are found to be valid, and what is looked at to find out.
use vstd::arithmetic::power2::*;
use vstd::prelude::*;

use crate::decode;
use crate::genuine;
use crate::hash;
use crate::hash::Digest;
use crate::io;
use crate::laws::outboards;
use crate::laws::responses;
use crate::laws::traversals;
use crate::laws::traversals::Place;
use crate::node::TreeNode;
use crate::num::BlockSize;
use crate::pow;
use crate::ranges;
use crate::response;
use crate::tree::BaoTree;

verus! {

/// Whether a run of blocks holds a chunk.
pub open spec fn holds_chunk(place: Place, log: nat, c: int) -> bool {
    place.first * pow2(log) <= c < place.end() * pow2(log)
}

/// Whether the hash pair that is stored for a run of blocks is not that of the blob, but
/// has the same hash.
pub open spec fn collides(
    pairs: Map<TreeNode, (Digest, Digest)>,
    blob: Seq<u8>,
    log: nat,
    place: Place,
) -> bool {
    let mid = place.first + pow2((place.height - 1) as nat);
    let is_root = place.first == 0 && blob.len() <= pow2(place.height) * (1024 * pow2(log));
    let pair = pairs[outboards::node_for(place)];
    &&& place.height > 0
    &&& place.is_there(blob.len(), log)
    &&& pairs.contains_key(outboards::node_for(place))
    &&& !outboards::stores_halves(pairs, blob, log, place)
    &&& hash::parent_bytes(pair.0.0@, pair.1.0@, is_root) == hash::parent_bytes(
        outboards::hash_between(blob, log, place.first, mid),
        outboards::hash_between(blob, log, mid, place.end()),
        is_root,
    )
}

/// A stored hash pair with the hash of its node is the blob's, unless it collides.
proof fn lemma_stored_genuine(
    pairs: Map<TreeNode, (Digest, Digest)>,
    blob: Seq<u8>,
    log: u8,
    start: nat,
    level: nat,
)
    requires
        outboards::fits(blob, log),
        ({
            let tree = outboards::tree_of(blob, log);
            let pair = pairs[tree.node_of(start, level)];
            let is_root = tree.is_root(start, level);
            &&& tree.has_node(start, level)
            &&& tree.has_pair(start, level)
            &&& pairs.contains_key(tree.node_of(start, level))
            &&& hash::parent_hash(pair.0@, pair.1@, is_root) == tree.node_hash(
                blob,
                start,
                level,
                is_root,
            )
        }),
        forall|q: Place| !collides(pairs, blob, log as nat, q),
    ensures
        outboards::stores_halves(
            pairs,
            blob,
            log as nat,
            Place { first: start, height: level + 1 },
        ),
        ({
            let tree = outboards::tree_of(blob, log);
            let pair = pairs[tree.node_of(start, level)];
            pair.0@ == tree.left_hash(blob, start, level) && pair.1@ == tree.right_hash(
                blob,
                start,
                level,
            )
        }),
{
    let tree = outboards::tree_of(blob, log);
    let place = Place { first: start, height: level + 1 };
    let is_root = tree.is_root(start, level);
    let pair = pairs[tree.node_of(start, level)];
    pow::lemma_pow2_step(level);
    outboards::lemma_stores_halves(pairs, blob, log, start, level);
    traversals::lemma_node_there(tree, start, level);
    tree.lemma_node_hash(blob, start, level, is_root);
    outboards::lemma_hash_between(blob, log, start, start + pow2(level));
    tree.lemma_blocks();
    pow::lemma_pow2_step(0);
    outboards::lemma_hash_between(blob, log, start + pow2(level), start + 2 * pow2(level));
    assert(!collides(pairs, blob, log as nat, place));
    assert(hash::parent_bytes(pair.0@, pair.1@, is_root) =~= hash::parent_bytes(
        tree.left_hash(blob, start, level),
        tree.right_hash(blob, start, level),
        is_root,
    ));
}

/// The chunks that are found valid below a node are those that it covers.
proof fn lemma_valid_covered(
    tree: BaoTree,
    pairs: Map<TreeNode, (Digest, Digest)>,
    start: nat,
    level: nat,
    hash: Seq<u8>,
    is_root: bool,
    c: int,
)
    requires
        tree.self_contained(),
        tree.has_node(start, level),
        tree.valid_chunks(pairs, start, level, hash, is_root).contains(c),
    ensures
        start * pow2(tree.block_size.0 as nat) <= c < (start + 2 * pow2(level)) * pow2(
            tree.block_size.0 as nat,
        ),
        1024 * c < tree.size.0,
{
    tree.lemma_valid_within(pairs, Seq::empty(), start, level, hash, is_root);
    tree.lemma_chunks_before(start);
    tree.lemma_chunks_before(start + 2 * pow2(level));
}

/// Below a node with the hash of the blob, the stored hash pairs on the way to a valid
/// chunk are the blob's.
#[verifier::spinoff_prover]
#[verifier::rlimit(50)]
proof fn lemma_valid_path(
    blob: Seq<u8>,
    log: u8,
    pairs: Map<TreeNode, (Digest, Digest)>,
    start: nat,
    level: nat,
    c: int,
    p: Place,
)
    requires
        outboards::fits(blob, log),
        forall|q: Place| !collides(pairs, blob, log as nat, q),
        p.height > 0,
        p.is_there(blob.len(), log as nat),
        holds_chunk(p, log as nat, c),
        pairs.contains_key(outboards::node_for(p)),
        forall|q: Place|
            p.height < q.height && #[trigger] q.is_there(blob.len(), log as nat) && holds_chunk(
                q,
                log as nat,
                c,
            ) ==> pairs.contains_key(outboards::node_for(q)),
        start <= p.first < start + 2 * pow2(level),
        p.height <= level + 1,
        ({
            let tree = outboards::tree_of(blob, log);
            let is_root = tree.is_root(start, level);
            &&& tree.has_node(start, level)
            &&& tree.valid_chunks(
                pairs,
                start,
                level,
                tree.node_hash(blob, start, level, is_root),
                is_root,
            ).contains(c)
        }),
    ensures
        outboards::stores_halves(pairs, blob, log as nat, p),
    decreases level,
{
    let tree = outboards::tree_of(blob, log);
    let is_root = tree.is_root(start, level);
    let hash = tree.node_hash(blob, start, level, is_root);
    let this = Place { first: start, height: level + 1 };
    let mid = start + pow2(level);
    let g = pow2(log as nat);
    let m = pow2(p.height);
    pow::lemma_pow2_step(level);
    pow::lemma_pow2_step(0);
    pow::lemma_pow2_step(p.height);
    pow::lemma_pow2_step(log as nat);
    lemma_valid_covered(tree, pairs, start, level, hash, is_root, c);
    traversals::lemma_node_there(tree, start, level);
    traversals::lemma_node_there(tree, p.first, (p.height - 1) as nat);
    if p.height == level + 1 && start < p.first {
        pow::lemma_multiples_apart(start, p.first, m);
    }
    assert(p.height == level + 1 ==> p == this);
    if !tree.has_pair(start, level) {
        assert(p == this);
    }
    outboards::lemma_stores_halves(pairs, blob, log, start, level);
    assert(pairs.contains_key(tree.node_of(start, level))) by {
        if p != this {
            assert(this.is_there(blob.len(), log as nat) && holds_chunk(this, log as nat, c));
        }
    }
    lemma_stored_genuine(pairs, blob, log, start, level);
    if p != this {
        let pair = pairs[tree.node_of(start, level)];
        let r = tree.right_level(start, level);
        tree.lemma_children(start, level);
        tree.lemma_node_hash(blob, start, level, is_root);
        pow::lemma_pow2_divides(p.height, level);
        pow::lemma_multiple_of_smaller(start, p.height, level + 1);
        pow::lemma_sum_of_multiples(start, pow2(level), m);
        if tree.valid_chunks(pairs, start, (level - 1) as nat, pair.0@, false).contains(c) {
            lemma_valid_covered(tree, pairs, start, (level - 1) as nat, pair.0@, false, c);
            if p.first >= mid {
                assert(p.first * g >= mid * g) by (nonlinear_arith)
                    requires
                        p.first >= mid,
                ;
            }
            lemma_valid_path(blob, log, pairs, start, (level - 1) as nat, c, p);
        } else {
            lemma_valid_covered(tree, pairs, mid, r, pair.1@, false, c);
            if p.first < mid {
                pow::lemma_multiples_apart(p.first, mid, m);
                assert(p.end() * g <= mid * g) by (nonlinear_arith)
                    requires
                        p.end() <= mid,
                ;
            }
            traversals::lemma_below_right(tree, start, level, p);
            lemma_valid_path(blob, log, pairs, mid, r, c, p);
        }
    }
}

/// Whatever the store: where its root hash is that of a blob, and a chunk is found to be
/// valid, every hash pair that is stored on the way from the root to the chunk, down to
/// the first node without one, is that of the blob. Otherwise a stored hash pair differs
/// from the blob's and has the same hash.
pub proof fn law_valid_ranges_are_genuine(
    blob: Seq<u8>,
    log: u8,
    pairs: Map<TreeNode, (Digest, Digest)>,
    c: int,
    p: Place,
)
    requires
        blob.len() <= u64::MAX,
        1024 * pow2(log as nat) <= isize::MAX,
        p.height > 0,
        p.is_there(blob.len(), log as nat),
        holds_chunk(p, log as nat, c),
        pairs.contains_key(outboards::node_for(p)),
        forall|q: Place|
            p.height < q.height && #[trigger] q.is_there(blob.len(), log as nat) && holds_chunk(
                q,
                log as nat,
                c,
            ) ==> pairs.contains_key(outboards::node_for(q)),
        outboards::tree_of(blob, log).valid_chunks(
            pairs,
            0,
            outboards::tree_of(blob, log).root_level(),
            hash::subtree_hash(blob, 0, true),
            true,
        ).contains(c),
    ensures
        outboards::stores_halves(pairs, blob, log as nat, p) || exists|q: Place|
            collides(pairs, blob, log as nat, q),
{
    let tree = outboards::tree_of(blob, log);
    if forall|q: Place| !collides(pairs, blob, log as nat, q) {
        tree.lemma_root();
        tree.lemma_root_hash(blob);
        traversals::lemma_in_root(tree, p);
        lemma_valid_path(blob, log, pairs, 0, tree.root_level(), c, p);
    }
}

/// Where no hash pair is stored on the way, a chunk is valid.
proof fn lemma_nothing_stored(
    tree: BaoTree,
    pairs: Map<TreeNode, (Digest, Digest)>,
    start: nat,
    level: nat,
    hash: Seq<u8>,
    is_root: bool,
    c: int,
)
    requires
        tree.self_contained(),
        tree.has_node(start, level),
        start * pow2(tree.block_size.0 as nat) <= c < (start + 2 * pow2(level)) * pow2(
            tree.block_size.0 as nat,
        ),
        1024 * c < tree.size.0,
        forall|q: Place|
            0 < q.height <= level + 1 && q.first % pow2(q.height) == 0 && holds_chunk(
                q,
                tree.block_size.0 as nat,
                c,
            ) ==> !pairs.contains_key(#[trigger] outboards::node_for(q)),
    ensures
        tree.valid_chunks(pairs, start, level, hash, is_root).contains(c),
    decreases level,
{
    let log = tree.block_size.0 as nat;
    let this = Place { first: start, height: level + 1 };
    let mid = start + pow2(level);
    pow::lemma_pow2_step(level);
    pow::lemma_pow2_step(0);
    assert(outboards::node_for(this) == tree.node_of(start, level));
    assert(!pairs.contains_key(outboards::node_for(this)));
    if level == 0 {
        let g = pow2(log);
        assert((start + 2) * g == start * g + 2 * g) by (nonlinear_arith);
    } else {
        let r = tree.right_level(start, level);
        tree.lemma_children(start, level);
        if c < mid * pow2(log) {
            lemma_nothing_stored(tree, pairs, start, (level - 1) as nat, hash, false, c);
        } else {
            lemma_within_right(tree, start, level, c);
            lemma_nothing_stored(
                tree,
                pairs,
                mid,
                r,
                crate::validate::zeros(),
                false,
                c,
            );
        }
    }
}

/// The right child covers the chunks of the right half.
proof fn lemma_within_right(tree: BaoTree, start: nat, level: nat, c: int)
    requires
        tree.self_contained(),
        tree.has_node(start, level),
        level > 0,
        (start + pow2(level)) * pow2(tree.block_size.0 as nat) <= c,
        1024 * c < tree.size.0,
        c < (start + 2 * pow2(level)) * pow2(tree.block_size.0 as nat),
    ensures
        c < (start + pow2(level) + 2 * pow2(tree.right_level(start, level))) * pow2(
            tree.block_size.0 as nat,
        ),
{
    let end = start + pow2(level) + 2 * pow2(tree.right_level(start, level));
    tree.lemma_children(start, level);
    if end >= tree.spec_blocks() {
        tree.lemma_past_end(end);
        let g = pow2(tree.block_size.0 as nat);
        assert(end * (1024 * g) == 1024 * (end * g)) by (nonlinear_arith);
    }
}

/// Below a node with the hash of the blob, a chunk is valid if the blob's hash pairs are
/// stored on the way down to some height, and none below.
proof fn lemma_path_valid(
    blob: Seq<u8>,
    log: u8,
    pairs: Map<TreeNode, (Digest, Digest)>,
    start: nat,
    level: nat,
    c: int,
    t: nat,
)
    requires
        outboards::fits(blob, log),
        forall|q: Place|
            t < q.height && #[trigger] q.is_there(blob.len(), log as nat) && holds_chunk(
                q,
                log as nat,
                c,
            ) ==> q.height == 0 || outboards::stores_halves(pairs, blob, log as nat, q),
        forall|q: Place|
            0 < q.height && q.first % pow2(q.height) == 0 && holds_chunk(q, log as nat, c) && (
            q.height <= t || !q.is_there(blob.len(), log as nat)) ==> !pairs.contains_key(
                #[trigger] outboards::node_for(q),
            ),
        start * pow2(log as nat) <= c < (start + 2 * pow2(level)) * pow2(log as nat),
        1024 * c < blob.len(),
        outboards::tree_of(blob, log).has_node(start, level),
    ensures
        ({
            let tree = outboards::tree_of(blob, log);
            let is_root = tree.is_root(start, level);
            tree.valid_chunks(
                pairs,
                start,
                level,
                tree.node_hash(blob, start, level, is_root),
                is_root,
            ).contains(c)
        }),
    decreases level,
{
    let tree = outboards::tree_of(blob, log);
    let is_root = tree.is_root(start, level);
    let hash = tree.node_hash(blob, start, level, is_root);
    let this = Place { first: start, height: level + 1 };
    let mid = start + pow2(level);
    let g = pow2(log as nat);
    pow::lemma_pow2_step(level);
    pow::lemma_pow2_step(0);
    traversals::lemma_node_there(tree, start, level);
    outboards::lemma_stores_halves(pairs, blob, log, start, level);
    assert(holds_chunk(this, log as nat, c));
    assert(outboards::node_for(this) == tree.node_of(start, level));
    if level + 1 <= t {
        lemma_nothing_stored(tree, pairs, start, level, hash, is_root, c);
    } else if !tree.has_pair(start, level) {
        assert(!pairs.contains_key(outboards::node_for(this)));
        assert((start + 2) * g == start * g + 2 * g) by (nonlinear_arith);
    } else {
        assert(this.is_there(blob.len(), log as nat));
        assert(outboards::stores_halves(pairs, blob, log as nat, this));
        tree.lemma_node_hash(blob, start, level, is_root);
        if level == 0 {
            assert((start + 2) * g == start * g + 2 * g) by (nonlinear_arith);
        } else {
            tree.lemma_children(start, level);
            if c < mid * g {
                lemma_path_valid(blob, log, pairs, start, (level - 1) as nat, c, t);
            } else {
                lemma_within_right(tree, start, level, c);
                lemma_path_valid(blob, log, pairs, mid, tree.right_level(start, level), c, t);
            }
        }
    }
}

/// Whatever else is stored: where the root hash is that of a blob, a chunk is found to be
/// valid if the blob's hash pairs are stored for the nodes above some height that cover
/// it, and none for those below.
pub proof fn law_stored_ranges_are_valid(
    blob: Seq<u8>,
    log: u8,
    pairs: Map<TreeNode, (Digest, Digest)>,
    c: int,
    t: nat,
)
    requires
        blob.len() <= u64::MAX,
        1024 * pow2(log as nat) <= isize::MAX,
        0 <= c,
        1024 * c < blob.len(),
        forall|q: Place|
            t < q.height && #[trigger] q.is_there(blob.len(), log as nat) && holds_chunk(
                q,
                log as nat,
                c,
            ) ==> q.height == 0 || outboards::stores_halves(pairs, blob, log as nat, q),
        forall|q: Place|
            0 < q.height && q.first % pow2(q.height) == 0 && holds_chunk(q, log as nat, c) && (
            q.height <= t || !q.is_there(blob.len(), log as nat)) ==> !pairs.contains_key(
                #[trigger] outboards::node_for(q),
            ),
    ensures
        outboards::tree_of(blob, log).valid_chunks(
            pairs,
            0,
            outboards::tree_of(blob, log).root_level(),
            hash::subtree_hash(blob, 0, true),
            true,
        ).contains(c),
{
    let tree = outboards::tree_of(blob, log);
    lemma_in_the_tree(tree, c);
    tree.lemma_root_hash(blob);
    lemma_path_valid(blob, log, pairs, 0, tree.root_level(), c, t);
}

/// Every chunk of a blob is below the root.
proof fn lemma_in_the_tree(tree: BaoTree, c: int)
    requires
        tree.self_contained(),
        0 <= c,
        1024 * c < tree.size.0,
    ensures
        tree.has_node(0, tree.root_level()),
        0nat * pow2(tree.block_size.0 as nat) <= c < (0 + 2 * pow2(tree.root_level())) * pow2(
            tree.block_size.0 as nat,
        ),
{
    let end = 2 * pow2(tree.root_level());
    let g = pow2(tree.block_size.0 as nat);
    tree.lemma_root();
    tree.lemma_past_end(end);
    assert(end * (1024 * g) == 1024 * (end * g)) by (nonlinear_arith);
    assert(0nat * g == 0) by (nonlinear_arith);
}

/// Below a node with the hash of the blob, a chunk of a file is valid if the blob's hash
/// pairs on the way are stored and its block is there.
#[verifier::spinoff_prover]
#[verifier::rlimit(50)]
proof fn lemma_file_path_valid(
    blob: Seq<u8>,
    log: u8,
    pairs: Map<TreeNode, (Digest, Digest)>,
    file: Seq<u8>,
    start: nat,
    level: nat,
    c: int,
    block: Place,
)
    requires
        outboards::fits(blob, log),
        forall|q: Place|
            0 < q.height && #[trigger] q.is_there(blob.len(), log as nat) && holds_chunk(
                q,
                log as nat,
                c,
            ) ==> outboards::stores_halves(pairs, blob, log as nat, q),
        forall|q: Place|
            0 < q.height && q.first % pow2(q.height) == 0 && holds_chunk(q, log as nat, c)
                && !q.is_there(blob.len(), log as nat) ==> !pairs.contains_key(
                #[trigger] outboards::node_for(q),
            ),
        start * pow2(log as nat) <= c < (start + 2 * pow2(level)) * pow2(log as nat),
        1024 * c < blob.len(),
        block.height == 0,
        holds_chunk(block, log as nat, c),
        block.first < outboards::tree_of(blob, log).spec_blocks(),
        outboards::tree_of(blob, log).has_block(file, block.first),
        outboards::tree_of(blob, log).block_bytes(file, block.first) == outboards::tree_of(
            blob,
            log,
        ).span(blob, block.first, block.first + 1),
        outboards::tree_of(blob, log).has_node(start, level),
    ensures
        ({
            let tree = outboards::tree_of(blob, log);
            let is_root = tree.is_root(start, level);
            tree.valid_file_chunks(
                pairs,
                file,
                start,
                level,
                tree.node_hash(blob, start, level, is_root),
                is_root,
            ).contains(c)
        }),
    decreases level,
{
    let tree = outboards::tree_of(blob, log);
    let is_root = tree.is_root(start, level);
    let this = Place { first: start, height: level + 1 };
    let mid = start + pow2(level);
    let g = pow2(log as nat);
    pow::lemma_pow2_step(level);
    pow::lemma_pow2_step(0);
    pow::lemma_pow2_step(log as nat);
    traversals::lemma_node_there(tree, start, level);
    outboards::lemma_stores_halves(pairs, blob, log, start, level);
    assert(holds_chunk(this, log as nat, c));
    assert(outboards::node_for(this) == tree.node_of(start, level));
    tree.lemma_node_hash(blob, start, level, is_root);
    tree.lemma_block_slice(blob, block.first);
    tree.lemma_chunks_before(block.first);
    tree.lemma_chunks_before(block.first + 1);
    assert(tree.valid_block(
        file,
        block.first,
        hash::subtree_hash(
            tree.span(blob, block.first, block.first + 1),
            tree.node_chunk(block.first),
            false,
        ),
        false,
    ).contains(c));
    if tree.has_pair(start, level) {
        assert(this.is_there(blob.len(), log as nat));
        assert(outboards::stores_halves(pairs, blob, log as nat, this));
    } else {
        assert(!pairs.contains_key(outboards::node_for(this)));
    }
    if level == 0 {
        let j = block.first;
        assert(j == start || j == start + 1) by (nonlinear_arith)
            requires
                j * g <= c < (j + 1) * g,
                start * g <= c < (start + 2) * g,
                g >= 1,
        ;
    } else {
        tree.lemma_children(start, level);
        if c < mid * g {
            lemma_file_path_valid(blob, log, pairs, file, start, (level - 1) as nat, c, block);
        } else {
            lemma_within_right(tree, start, level, c);
            lemma_file_path_valid(
                blob,
                log,
                pairs,
                file,
                mid,
                tree.right_level(start, level),
                c,
                block,
            );
        }
    }
}

/// Whatever else is stored and in the file: where the root hash is that of a blob, a chunk
/// of a file is found to be valid if the blob's hash pairs are stored for the nodes that
/// cover it, and the file has the bytes of its block.
pub proof fn law_stored_chunks_of_a_file_are_valid(
    blob: Seq<u8>,
    log: u8,
    pairs: Map<TreeNode, (Digest, Digest)>,
    file: Seq<u8>,
    c: int,
    block: nat,
)
    requires
        blob.len() <= u64::MAX,
        1024 * pow2(log as nat) <= isize::MAX,
        1024 * c < blob.len(),
        block * pow2(log as nat) <= c < (block + 1) * pow2(log as nat),
        forall|q: Place|
            0 < q.height && #[trigger] q.is_there(blob.len(), log as nat) && holds_chunk(
                q,
                log as nat,
                c,
            ) ==> outboards::stores_halves(pairs, blob, log as nat, q),
        forall|q: Place|
            0 < q.height && q.first % pow2(q.height) == 0 && holds_chunk(q, log as nat, c)
                && !q.is_there(blob.len(), log as nat) ==> !pairs.contains_key(
                #[trigger] outboards::node_for(q),
            ),
        forall|x: int|
            block * (1024 * pow2(log as nat)) <= x < (block + 1) * (1024 * pow2(log as nat)) && x
                < blob.len() ==> x < file.len() && #[trigger] file[x] == blob[x],
    ensures
        outboards::tree_of(blob, log).valid_file_chunks(
            pairs,
            file,
            0,
            outboards::tree_of(blob, log).root_level(),
            hash::subtree_hash(blob, 0, true),
            true,
        ).contains(c),
{
    let tree = outboards::tree_of(blob, log);
    let g = pow2(log as nat);
    let bb = 1024 * g;
    assert(0 <= block * g) by (nonlinear_arith);
    assert(block * bb == 1024 * (block * g)) by (nonlinear_arith)
        requires
            bb == 1024 * g,
    ;
    assert((block + 1) * bb == block * bb + bb) by (nonlinear_arith);
    pow::lemma_pow2_step(0);
    pow::lemma_pow2_step(log as nat);
    tree.lemma_blocks();
    if block >= tree.spec_blocks() {
        tree.lemma_past_end(block);
    }
    tree.lemma_block_start(block);
    let s = tree.byte_at(block) as int;
    let e = tree.byte_at(block + 1) as int;
    assert(s < e);
    assert(s == block * bb && e <= (block + 1) * bb && e <= blob.len());
    assert(file.len() >= e) by {
        let last = file[e - 1];
        assert(s <= e - 1);
        assert(e - 1 < file.len());
    }
    assert(tree.block_bytes(file, block) =~= tree.span(blob, block, block + 1)) by {
        assert forall|i: int| 0 <= i < e - s implies tree.block_bytes(file, block)[i]
            == #[trigger] tree.span(blob, block, block + 1)[i] by {
            assert(file[s + i] == blob[s + i]);
        }
    }
    lemma_in_the_tree(tree, c);
    tree.lemma_root_hash(blob);
    lemma_file_path_valid(
        blob,
        log,
        pairs,
        file,
        0,
        tree.root_level(),
        c,
        Place { first: block, height: 0 },
    );
}

/// Whether all inner nodes up to a height that cover a block have a stored hash pair.
pub open spec fn reached(
    pairs: Map<TreeNode, (Digest, Digest)>,
    size: nat,
    log: nat,
    block: nat,
    height: nat,
) -> bool {
    forall|q: Place|
        2 <= q.height <= height && #[trigger] q.is_there(size, log) && q.first <= block < q.end()
            ==> pairs.contains_key(outboards::node_for(q))
}

/// Whether a file has what is read for the two blocks of a leaf: both blocks if a hash
/// pair is stored for the leaf, and the first otherwise.
pub open spec fn has_leaf(
    pairs: Map<TreeNode, (Digest, Digest)>,
    size: nat,
    log: nat,
    file: Seq<u8>,
    block: nat,
) -> bool {
    let end = (block + (if pairs.contains_key(TreeNode(block as u64)) {
        2nat
    } else {
        1nat
    })) * (1024 * pow2(log));
    file.len() >= size || file.len() >= end
}

/// Only leaves that are reached through stored hash pairs have to be there.
#[verifier::spinoff_prover]
#[verifier::rlimit(50)]
proof fn lemma_only_reached(
    tree: BaoTree,
    pairs: Map<TreeNode, (Digest, Digest)>,
    file: Seq<u8>,
    start: nat,
    level: nat,
    hash: Seq<u8>,
    is_root: bool,
)
    requires
        tree.valid(),
        tree.has_node(start, level),
        forall|block: nat|
            start <= block < start + 2 * pow2(level) && block < tree.spec_blocks() && block % 2 == 0
                && #[trigger] reached(
                pairs,
                tree.size.0 as nat,
                tree.block_size.0 as nat,
                block,
                level + 1,
            ) ==> has_leaf(pairs, tree.size.0 as nat, tree.block_size.0 as nat, file, block),
    ensures
        tree.has_blocks(pairs, file, start, level, hash, is_root),
    decreases level,
{
    let (size, log) = (tree.size.0 as nat, tree.block_size.0 as nat);
    let mid = start + pow2(level);
    let bb = 1024 * pow2(log);
    pow::lemma_pow2_step(level);
    pow::lemma_pow2_step(0);
    if level == 0 {
        assert(reached(pairs, size, log, start, 1));
        pow::lemma_multiple_of_smaller(start, 1, 1);
        pow::lemma_pow2_step(1);
        assert(start % 2 == 0);
        assert(has_leaf(pairs, size, log, file, start));
        assert(tree.node_of(start, 0) == TreeNode(start as u64));
        tree.lemma_chunk_at_mono(start, start + 1);
        tree.lemma_chunk_at_mono(start + 1, start + 2);
    } else if let Some(pair) = io::pair_at(pairs, tree.node_of(start, level)) {
        let r = tree.right_level(start, level);
        let this = Place { first: start, height: level + 1 };
        tree.lemma_children(start, level);
        pow::lemma_pow2_mono(r, (level - 1) as nat);
        assert(outboards::node_for(this) == tree.node_of(start, level));
        assert forall|block: nat|
            start <= block < start + 2 * pow2((level - 1) as nat) && block < tree.spec_blocks()
                && block % 2 == 0 && #[trigger] reached(
                pairs,
                size,
                log,
                block,
                (level - 1) as nat + 1,
            ) implies has_leaf(pairs, size, log, file, block) by {
            lemma_reached_above(tree, pairs, start, level, block, level);
        }
        assert forall|block: nat|
            mid <= block < mid + 2 * pow2(r) && block < tree.spec_blocks() && block % 2 == 0
                && #[trigger] reached(pairs, size, log, block, r + 1) implies has_leaf(
            pairs,
            size,
            log,
            file,
            block,
        ) by {
            assert forall|q: Place|
                2 <= q.height <= level && #[trigger] q.is_there(size, log) && q.first <= block
                    < q.end() implies pairs.contains_key(outboards::node_for(q)) by {
                pow::lemma_pow2_divides(q.height, level);
                pow::lemma_multiple_of_smaller(start, q.height, level + 1);
                pow::lemma_pow2_step(q.height);
                pow::lemma_sum_of_multiples(start, pow2(level), pow2(q.height));
                if q.first < mid {
                    pow::lemma_multiples_apart(q.first, mid, pow2(q.height));
                }
                traversals::lemma_below_right(tree, start, level, q);
            }
            assert(reached(pairs, size, log, block, level));
            lemma_reached_above(tree, pairs, start, level, block, level);
        }
        lemma_only_reached(tree, pairs, file, start, (level - 1) as nat, pair.0@, false);
        lemma_only_reached(tree, pairs, file, mid, r, pair.1@, false);
    }
}

/// A block that is reached below a node with a hash pair is reached through the node.
proof fn lemma_reached_above(
    tree: BaoTree,
    pairs: Map<TreeNode, (Digest, Digest)>,
    start: nat,
    level: nat,
    block: nat,
    height: nat,
)
    requires
        tree.valid(),
        tree.has_node(start, level),
        level > 0,
        height == level,
        pairs.contains_key(tree.node_of(start, level)),
        start <= block < start + 2 * pow2(level),
        reached(pairs, tree.size.0 as nat, tree.block_size.0 as nat, block, height),
    ensures
        reached(pairs, tree.size.0 as nat, tree.block_size.0 as nat, block, level + 1),
{
    let (size, log) = (tree.size.0 as nat, tree.block_size.0 as nat);
    let this = Place { first: start, height: level + 1 };
    pow::lemma_pow2_step(level);
    assert forall|q: Place|
        2 <= q.height <= level + 1 && #[trigger] q.is_there(size, log) && q.first <= block < q.end()
            implies pairs.contains_key(outboards::node_for(q)) by {
        if q.height == level + 1 {
            if q.first < start {
                pow::lemma_multiples_apart(q.first, start, pow2(level + 1));
            } else if start < q.first {
                pow::lemma_multiples_apart(start, q.first, pow2(level + 1));
            }
            assert(q == this);
            assert(outboards::node_for(q) == tree.node_of(start, level));
        }
    }
}

/// Whatever the store, its root hash and the file, however short: the file has all bytes
/// that have to be looked at if it has the blocks of those leaves for which the hash pairs
/// of all inner nodes on the way are stored. Nothing else has to be there.
pub proof fn law_only_reached_blocks_are_needed(
    tree: BaoTree,
    pairs: Map<TreeNode, (Digest, Digest)>,
    file: Seq<u8>,
    root: Seq<u8>,
)
    requires
        tree.valid(),
        forall|block: nat|
            (block == 0 || block * (1024 * pow2(tree.block_size.0 as nat)) < tree.size.0) && block
                % 2 == 0 && (forall|q: Place|
                2 <= q.height && #[trigger] q.is_there(
                    tree.size.0 as nat,
                    tree.block_size.0 as nat,
                ) && q.first <= block < q.end() ==> pairs.contains_key(outboards::node_for(q)))
                ==> #[trigger] has_leaf(
                pairs,
                tree.size.0 as nat,
                tree.block_size.0 as nat,
                file,
                block,
            ),
    ensures
        tree.has_blocks(pairs, file, 0, tree.root_level(), root, true),
{
    let (size, log) = (tree.size.0 as nat, tree.block_size.0 as nat);
    let level = tree.root_level();
    tree.lemma_root();
    assert forall|block: nat|
        0 <= block < 0 + 2 * pow2(level) && block < tree.spec_blocks() && block % 2 == 0
            && #[trigger] reached(pairs, size, log, block, level + 1) implies has_leaf(
        pairs,
        size,
        log,
        file,
        block,
    ) by {
        traversals::lemma_block_there(tree, block);
        assert forall|q: Place|
            2 <= q.height && #[trigger] q.is_there(size, log) && q.first <= block < q.end() implies
            pairs.contains_key(outboards::node_for(q)) by {
            traversals::lemma_in_root(tree, q);
        }
    }
    lemma_only_reached(tree, pairs, file, 0, level, root, true);
}

/// Where a response to a query for all chunks of the left half of a blob has been decoded,
/// and no hash pair is stored for the inner node to the right, the target has all bytes
/// that have to be looked at, though it may be shorter than the blob.
pub proof fn law_left_half_can_be_checked(
    blob: Seq<u8>,
    log: u8,
    b: Seq<u64>,
    pairs: Map<TreeNode, (Digest, Digest)>,
    whole: Place,
    right: Place,
    store: Map<TreeNode, (Digest, Digest)>,
    target: Seq<u8>,
)
    requires
        responses::well_asked(blob, log, b, pairs),
        whole.first == 0,
        whole.height >= 2,
        whole.is_there(blob.len(), log as nat),
        blob.len() <= whole.end() * (1024 * pow2(log as nat)),
        right.first == pow2((whole.height - 1) as nat),
        right.height >= 2,
        right.is_there(blob.len(), log as nat),
        blob.len() <= right.end() * (1024 * pow2(log as nat)),
        forall|c: int|
            0 <= c < right.first * pow2(log as nat) ==> #[trigger] ranges::in_ranges(b, c),
        !decode::pairs_saved(responses::given(blob, log, b, pairs), store).contains_key(
            outboards::node_for(right),
        ),
    ensures
        ({
            let tree = outboards::tree_of(blob, log);
            let root = hash::subtree_hash(blob, 0, true);
            let run = response::decode_response(
                root,
                BlockSize(log),
                b,
                responses::response_to(blob, log, b, pairs),
            );
            tree.has_blocks(
                decode::pairs_saved(run.items, store),
                decode::blocks_written(run.items, target),
                0,
                tree.root_level(),
                root,
                true,
            )
        }),
{
    let tree = outboards::tree_of(blob, log);
    let root = hash::subtree_hash(blob, 0, true);
    let items = responses::given(blob, log, b, pairs);
    let sent = responses::response_to(blob, log, b, pairs);
    let saved = decode::pairs_saved(items, store);
    let file = decode::blocks_written(items, target);
    let (size, l) = (blob.len(), log as nat);
    responses::law_any_query_is_answered(blob, log, b, pairs, Seq::empty());
    assert(sent + Seq::<u8>::empty() =~= sent);
    pow::lemma_pow2_step((whole.height - 1) as nat);
    assert(right.first * (1024 * pow2(l)) < size);
    lemma_left_half_there(blob, log, b, pairs, right.first, target);
    assert forall|block: nat|
        (block == 0 || block * (1024 * pow2(l)) < size) && block % 2 == 0 && (forall|q: Place|
            2 <= q.height && #[trigger] q.is_there(size, l) && q.first <= block < q.end()
                ==> saved.contains_key(outboards::node_for(q))) implies #[trigger] has_leaf(
        saved,
        size,
        l,
        file,
        block,
    ) by {
        lemma_leaf_of_half(saved, size, l, file, whole, right, block);
    }
    law_only_reached_blocks_are_needed(tree, saved, file, root);
}

/// A leaf of the left half is there, and one of the right half is not reached.
proof fn lemma_leaf_of_half(
    pairs: Map<TreeNode, (Digest, Digest)>,
    size: nat,
    log: nat,
    file: Seq<u8>,
    whole: Place,
    right: Place,
    block: nat,
)
    requires
        whole.height >= 2,
        right.first == pow2((whole.height - 1) as nat),
        right.height >= 2,
        right.is_there(size, log),
        size <= right.end() * (1024 * pow2(log)),
        !pairs.contains_key(outboards::node_for(right)),
        file.len() >= right.first * (1024 * pow2(log)),
        block == 0 || block * (1024 * pow2(log)) < size,
        block % 2 == 0,
        forall|q: Place|
            2 <= q.height && #[trigger] q.is_there(size, log) && q.first <= block < q.end()
                ==> pairs.contains_key(outboards::node_for(q)),
    ensures
        has_leaf(pairs, size, log, file, block),
{
    let bb = 1024 * pow2(log);
    let mid = right.first;
    pow::lemma_pow2_step((whole.height - 1) as nat);
    pow::lemma_pow2_step((whole.height - 2) as nat);
    pow::lemma_pow2_step(log);
    if block < mid {
        assert(mid % 2 == 0);
        assert((block + 2) * bb <= mid * bb) by (nonlinear_arith)
            requires
                block + 2 <= mid,
        ;
        assert((block + 1) * bb <= (block + 2) * bb) by (nonlinear_arith);
    } else {
        if block >= right.end() {
            assert(block * bb >= right.end() * bb) by (nonlinear_arith)
                requires
                    block >= right.end(),
            ;
        }
        assert(right.is_there(size, log));
    }
}

/// A target has the bytes of a first part of a blob, if the query has all its chunks.
proof fn lemma_left_half_there(
    blob: Seq<u8>,
    log: u8,
    b: Seq<u64>,
    pairs: Map<TreeNode, (Digest, Digest)>,
    mid: nat,
    target: Seq<u8>,
)
    requires
        responses::well_asked(blob, log, b, pairs),
        mid >= 1,
        mid * (1024 * pow2(log as nat)) <= blob.len(),
        forall|c: int| 0 <= c < mid * pow2(log as nat) ==> #[trigger] ranges::in_ranges(b, c),
    ensures
        decode::blocks_written(responses::given(blob, log, b, pairs), target).len() >= mid * (1024
            * pow2(log as nat)),
{
    let tree = outboards::tree_of(blob, log);
    let g = pow2(log as nat);
    let bb = 1024 * g;
    responses::lemma_well_asked(blob, log, b, pairs);
    genuine::lemma_genuine_target(tree, b, pairs, blob, target);
    pow::lemma_pow2_step(log as nat);
    assert(mid * bb == 1024 * (mid * g)) by (nonlinear_arith)
        requires
            bb == 1024 * g,
    ;
    assert(mid * g >= 1) by (nonlinear_arith)
        requires
            mid >= 1,
            g >= 1,
    ;
    let x = mid * bb - 1;
    assert(ranges::in_ranges(b, x / 1024));
}

} // verus!
