//! What hashes and outboards are.
use vstd::arithmetic::power2::*;
use vstd::prelude::*;

use crate::hash;
use crate::iter::BaoChunk;
use crate::num;
use crate::num::{ByteNum, ChunkNum};
use crate::pow;
use crate::tree::BaoTree;

verus! {

/// Up to 1024 bytes are one chunk, and their hash is the one that BLAKE3 gives for the
/// chunk with this very number, as the root or not.
pub proof fn law_hash_of_a_chunk(chunk: u64, data: Seq<u8>, is_root: bool)
    requires
        data.len() <= 1024,
    ensures
        hash::chunk_hash(chunk, data, is_root) == hash::chunk_bytes(chunk, data, is_root)@,
        hash::subtree_hash(data, chunk as nat, is_root) == hash::chunk_bytes(
            chunk,
            data,
            is_root,
        )@,
{
}

/// More than one chunk is split where a power of two of chunks, as many as possible,
/// comes first and leaves something over. The hash is the one that BLAKE3 gives for the
/// parent of the two parts, each hashed from its own chunk on and not as the root.
pub proof fn law_hash_of_two_parts(data: Seq<u8>, chunk: nat, is_root: bool, k: nat)
    requires
        1024 * pow2(k) < data.len() <= 2048 * pow2(k),
    ensures
        ({
            let m = 1024 * pow2(k) as int;
            hash::subtree_hash(data, chunk, is_root) == hash::parent_bytes(
                hash::subtree_hash(data.take(m), chunk, false),
                hash::subtree_hash(data.skip(m), chunk + pow2(k), false),
                is_root,
            )@
        }),
{
    lemma_split(data.len(), k);
}

/// The left part of `len` bytes.
proof fn lemma_split(len: nat, k: nat)
    requires
        1024 * pow2(k) < len <= 2048 * pow2(k),
    ensures
        hash::left_len(len) == 1024 * pow2(k),
        hash::left_len(len) / 1024 == pow2(k),
        len > 1024,
{
    pow::lemma_pow2_step(k);
    hash::lemma_left_chunks_pow2(num::chunks_of(len), k);
}

/// The outboard of a blob, or of a part of one, that is no larger than a block has no
/// hash pairs. That of a larger one has those of its first part, then those of its
/// second part, and then the hashes of the two parts.
pub proof fn law_outboard_of_two_parts(data: Seq<u8>, chunk: nat, block: nat, k: nat)
    requires
        block >= 1024,
    ensures
        data.len() <= block ==> hash::outboard_pairs(data, chunk, block) == Seq::<u8>::empty(),
        data.len() > block && 1024 * pow2(k) < data.len() <= 2048 * pow2(k) ==> {
            let m = 1024 * pow2(k) as int;
            let (left, right) = (data.take(m), data.skip(m));
            hash::outboard_pairs(data, chunk, block) == hash::outboard_pairs(left, chunk, block)
                + hash::outboard_pairs(right, chunk + pow2(k), block) + (hash::subtree_hash(
                left,
                chunk,
                false,
            ) + hash::subtree_hash(right, chunk + pow2(k), false))
        },
{
    if data.len() > block && 1024 * pow2(k) < data.len() <= 2048 * pow2(k) {
        lemma_split(data.len(), k);
    }
}

/// The largest exponent of a power of two that is no larger than a number.
spec fn top(n: nat) -> nat
    decreases n,
{
    if n <= 1 {
        0
    } else {
        1 + top(n / 2)
    }
}

proof fn lemma_top(n: nat)
    requires
        n >= 1,
    ensures
        pow2(top(n)) <= n < 2 * pow2(top(n)),
    decreases n,
{
    pow::lemma_pow2_step(0);
    if n > 1 {
        lemma_top(n / 2);
        pow::lemma_pow2_step(top(n / 2));
    }
}

proof fn lemma_top_unique(n: nat, k: nat)
    requires
        pow2(k) <= n < 2 * pow2(k),
    ensures
        top(n) == k,
        n >= 1,
{
    pow::lemma_pow2_step(k);
    lemma_top(n);
    pow::lemma_pow2_step(top(n));
    if k < top(n) {
        pow::lemma_pow2_mono(k + 1, top(n));
    } else if top(n) < k {
        pow::lemma_pow2_mono(top(n) + 1, k);
    }
}

/// The hash pairs of the first blocks of a blob, as far as they can be computed.
spec fn first_pairs(data: Seq<u8>, chunk: nat, log: nat) -> Seq<u8>
    decreases data.len(),
{
    let bb = 1024 * pow2(log);
    let k = top(data.len() / bb);
    let m = pow2(k) * bb;
    if data.len() < bb || m == 0 || m > data.len() {
        Seq::empty()
    } else {
        hash::outboard_pairs(data.take(m as int), chunk, bb) + first_pairs(
            data.skip(m as int),
            chunk + pow2(k) * pow2(log),
            log,
        )
    }
}

/// The first blocks of a blob, where `pow2(k)` of them come first.
proof fn lemma_first_pairs(data: Seq<u8>, chunk: nat, log: nat, k: nat)
    requires
        pow2(k) * (1024 * pow2(log)) <= data.len() < 2 * pow2(k) * (1024 * pow2(log)),
    ensures
        first_pairs(data, chunk, log) == hash::outboard_pairs(
            data.take((pow2(k) * (1024 * pow2(log))) as int),
            chunk,
            1024 * pow2(log),
        ) + first_pairs(
            data.skip((pow2(k) * (1024 * pow2(log))) as int),
            chunk + pow2(k) * pow2(log),
            log,
        ),
{
    let bb = 1024 * pow2(log);
    let j = data.len() / bb;
    pow::lemma_pow2_step(log);
    pow::lemma_pow2_step(k);
    vstd::arithmetic::div_mod::lemma_fundamental_div_mod(data.len() as int, bb as int);
    let q = data.len() as int / bb as int;
    assert(pow2(k) <= q < 2 * pow2(k)) by (nonlinear_arith)
        requires
            pow2(k) * bb <= data.len() < 2 * pow2(k) * bb,
            data.len() == bb * q + data.len() % bb,
            0 <= data.len() % bb < bb,
            bb > 0,
    ;
    lemma_top_unique(j, k);
    assert(pow2(k) * bb >= bb) by (nonlinear_arith)
        requires
            pow2(k) >= 1,
    ;
}

/// A run over the items of a node whose bytes the input does not have.
#[verifier::spinoff_prover]
#[verifier::rlimit(50)]
proof fn lemma_short_run(
    tree: BaoTree,
    start: nat,
    level: nat,
    more: Seq<BaoChunk>,
    can_be_root: bool,
    stack: Seq<Seq<u8>>,
    input: Seq<u8>,
    out: Seq<u8>,
)
    requires
        tree.valid(),
        tree.has_node(start, level),
        input.len() < tree.node_len(start, level),
    ensures
        ({
            let bb = 1024 * pow2(tree.block_size.0 as nat);
            let run = hash::post_run(
                tree.post_order(start, level) + more,
                can_be_root,
                stack,
                input,
                out,
            );
            &&& !run.done
            &&& run.out == out + first_pairs(
                input,
                tree.node_chunk(start),
                tree.block_size.0 as nat,
            )
            &&& run.rest.len() < bb
            &&& run.rest.len() <= input.len()
            &&& run.rest == input.skip(input.len() - run.rest.len())
            &&& (input.len() - run.rest.len()) % bb as int == 0
        }),
    decreases level,
{
    let log = tree.block_size.0 as nat;
    let bb = 1024 * pow2(log);
    let items = tree.post_order(start, level);
    let n = tree.node_len(start, level);
    let mid = start + pow2(level);
    let run = hash::post_run(items + more, can_be_root, stack, input, out);
    tree.lemma_blocks();
    pow::lemma_pow2_step(level);
    pow::lemma_pow2_step(0);
    tree.lemma_leaf_item(start, false);
    tree.lemma_block_start(start);
    assert((start + 1) * bb == start * bb + bb) by (nonlinear_arith);
    assert((start + 2) * bb == start * bb + 2 * bb) by (nonlinear_arith);
    assert(input.skip(0) =~= input);
    assert(out + Seq::<u8>::empty() =~= out);
    vstd::arithmetic::div_mod::lemma_small_mod(0, bb);
    vstd::arithmetic::div_mod::lemma_mod_self_0(bb as int);
    if level == 0 {
        let first = items[0];
        assert((items + more)[0] == first);
        if tree.half_leaf(start) {
            tree.lemma_past_end(start + 1);
            tree.lemma_past_end(start + 2);
            tree.lemma_leaf_item(start, tree.is_root(start, 0));
            assert(run.rest == input);
        } else {
            tree.lemma_node_split(start, 0);
            tree.lemma_block_start(start + 1);
            tree.lemma_leaf_item(start + 1, false);
            if input.len() < bb {
                assert(run.rest == input);
            } else {
                let rest = (items + more).drop_first();
                assert(rest[0] == items[1]);
                let h = hash::subtree_hash(input.take(bb as int), tree.node_chunk(start), false);
                assert(first == tree.leaf_item(start, false));
                assert(run == hash::post_run(
                    rest,
                    can_be_root,
                    stack.push(h),
                    input.skip(bb as int),
                    out,
                ));
                assert(run.rest == input.skip(bb as int));
                assert(pow2(0) * bb == bb);
                lemma_first_pairs(input, tree.node_chunk(start), log, 0);
                assert(first_pairs(
                    input.skip(bb as int),
                    tree.node_chunk(start) + pow2(0) * pow2(log),
                    log,
                ) =~= Seq::empty());
                assert(run.out =~= out + first_pairs(input, tree.node_chunk(start), log));
            }
        }
    } else {
        let l = (level - 1) as nat;
        let r = tree.right_level(start, level);
        let il = tree.post_order(start, l);
        let ir = tree.post_order(mid, r);
        let parent = tree.parent_item(start, level, true, true);
        let tail = seq![parent] + more;
        tree.lemma_children(start, level);
        tree.lemma_node_split(start, level);
        tree.lemma_block_start(mid);
        assert(items + more =~= il + (ir + tail));
        let m = tree.node_len(start, l);
        assert(mid * bb == start * bb + pow2(level) * bb) by (nonlinear_arith)
            requires
                mid == start + pow2(level),
        ;
        assert(m == pow2(level) * bb);
        if input.len() < m {
            lemma_short_run(tree, start, l, ir + tail, can_be_root, stack, input, out);
        } else {
            let chunk = tree.node_chunk(start);
            let ol = hash::outboard_pairs(input.take(m as int), chunk, bb);
            let h = hash::subtree_hash(input.take(m as int), chunk, false);
            let rest = input.skip(m as int);
            tree.lemma_post_run(start, l, ir + tail, can_be_root, stack, input, out);
            lemma_short_run(tree, mid, r, tail, can_be_root, stack.push(h), rest, out + ol);
            let e = start + 2 * pow2(level);
            assert(e * bb == start * bb + 2 * pow2(level) * bb) by (nonlinear_arith)
                requires
                    e == start + 2 * pow2(level),
            ;
            lemma_first_pairs(input, chunk, log, level);
            let g = pow2(log);
            assert(mid * g == start * g + pow2(level) * g) by (nonlinear_arith)
                requires
                    mid == start + pow2(level),
            ;
            assert(run.out =~= out + first_pairs(input, chunk, log));
            assert(run.rest =~= input.skip(input.len() - run.rest.len()));
            vstd::arithmetic::div_mod::lemma_mod_multiples_basic(pow2(level) as int, bb as int);
            pow::lemma_sum_of_multiples(m, (rest.len() - run.rest.len()) as nat, bb);
        }
    }
}

/// Input that is shorter than the blob: whole blocks are taken off it, as many as there
/// are, and the hash pairs are those that these blocks give. Of the largest power of two of
/// blocks all hash pairs come first, and then what the blocks behind them give for
/// themselves, as the start of a blob of their own that goes on from their chunk.
pub proof fn law_outboard_of_short_input(tree: BaoTree, can_be_root: bool, input: Seq<u8>, k: nat)
    requires
        tree.valid(),
        input.len() < tree.size.0,
    ensures
        ({
            let block = 1024 * pow2(tree.block_size.0 as nat);
            let m = pow2(k) * block;
            let run = hash::post_run(
                tree.post_order_plan(),
                can_be_root,
                Seq::empty(),
                input,
                Seq::empty(),
            );
            let behind = BaoTree {
                size: ByteNum((tree.size.0 - m) as u64),
                block_size: tree.block_size,
                start_chunk: ChunkNum(
                    (tree.start_chunk.0 + pow2(k) * pow2(tree.block_size.0 as nat)) as u64,
                ),
            };
            &&& !run.done
            &&& run.rest == input.skip(input.len() - input.len() as int % block as int)
            &&& input.len() < block ==> run.out == Seq::<u8>::empty()
            &&& m <= input.len() < 2 * m ==> run.out == hash::outboard_pairs(
                input.take(m as int),
                tree.start_chunk.0 as nat,
                block,
            ) + hash::post_run(
                behind.post_order_plan(),
                can_be_root,
                Seq::empty(),
                input.skip(m as int),
                Seq::empty(),
            ).out
        }),
{
    let log = tree.block_size.0 as nat;
    let block = 1024 * pow2(log);
    let m = pow2(k) * block;
    lemma_short_plan(tree, can_be_root, input);
    pow::lemma_pow2_step(log);
    if m <= input.len() < 2 * m {
        let behind = BaoTree {
            size: ByteNum((tree.size.0 - m) as u64),
            block_size: tree.block_size,
            start_chunk: ChunkNum((tree.start_chunk.0 + pow2(k) * pow2(log)) as u64),
        };
        assert(2 * pow2(k) * block == 2 * m) by (nonlinear_arith)
            requires
                m == pow2(k) * block,
        ;
        assert(m == 1024 * (pow2(k) * pow2(log))) by (nonlinear_arith)
            requires
                m == pow2(k) * block,
                block == 1024 * pow2(log),
        ;
        lemma_first_pairs(input, tree.start_chunk.0 as nat, log, k);
        lemma_short_plan(behind, can_be_root, input.skip(m as int));
    }
}

proof fn lemma_short_plan(tree: BaoTree, can_be_root: bool, input: Seq<u8>)
    requires
        tree.valid(),
        input.len() < tree.size.0,
    ensures
        ({
            let block = 1024 * pow2(tree.block_size.0 as nat);
            let run = hash::post_run(
                tree.post_order_plan(),
                can_be_root,
                Seq::empty(),
                input,
                Seq::empty(),
            );
            &&& !run.done
            &&& run.rest == input.skip(input.len() - input.len() as int % block as int)
            &&& run.out == first_pairs(
                input,
                tree.start_chunk.0 as nat,
                tree.block_size.0 as nat,
            )
        }),
{
    let plan = tree.post_order_plan();
    let level = tree.root_level();
    let bb = 1024 * pow2(tree.block_size.0 as nat);
    let run = hash::post_run(plan, can_be_root, Seq::empty(), input, Seq::empty());
    tree.lemma_root();
    tree.lemma_past_end(2 * pow2(level));
    assert(0nat * tree.block_size.spec_chunks() == 0) by (nonlinear_arith);
    assert(0nat * tree.block_size.spec_bytes() == 0) by (nonlinear_arith);
    assert(plan + Seq::<BaoChunk>::empty() =~= plan);
    lemma_short_run(
        tree,
        0,
        level,
        Seq::empty(),
        can_be_root,
        Seq::empty(),
        input,
        Seq::empty(),
    );
    let pairs = first_pairs(input, tree.start_chunk.0 as nat, tree.block_size.0 as nat);
    assert(Seq::<u8>::empty() + pairs =~= pairs);
    pow::lemma_pow2_step(tree.block_size.0 as nat);
    let taken = input.len() - run.rest.len();
    vstd::arithmetic::div_mod::lemma_fundamental_div_mod(taken as int, bb as int);
    let q = taken as int / bb as int;
    vstd::arithmetic::div_mod::lemma_fundamental_div_mod_converse(
        input.len() as int,
        bb as int,
        q,
        run.rest.len() as int,
    );
}

} // verus!
