//! Computing a root hash and an outboard.
use vstd::prelude::*;

use crate::error;
use crate::hash;
use crate::hash::{Digest, HashStack};
use crate::iter::BaoChunk;
use crate::num;
use crate::num::{BlockSize, ByteNum, ChunkNum};
use crate::source;
use crate::tree::BaoTree;

verus! {

/// Goes on by one item in post order. The hash of a block goes on the stack; a
/// parent replaces the two hashes on top by their own, and they are appended to
/// the outboard.
pub fn post_order_step(
    stack: &mut HashStack,
    item: BaoChunk,
    data: &[u8],
    outboard: &mut Vec<u8>,
)
    requires
        match item {
            BaoChunk::Leaf { size, start_chunk, is_root } => data@.len() == size && start_chunk.0
                + data@.len() / 1024 < u64::MAX && hash::root_possible(
                start_chunk.0 as nat,
                data@.len(),
                is_root,
            ),
            BaoChunk::Parent { .. } => old(stack)@.len() >= 2,
        },
    ensures
        match item {
            BaoChunk::Leaf { is_root, start_chunk, .. } => {
                &&& final(stack)@ == old(stack)@.push(
                    hash::subtree_hash(data@, start_chunk.0 as nat, is_root),
                )
                &&& data@.len() <= 1024 ==> final(stack)@.last() == hash::chunk_bytes(
                    start_chunk.0,
                    data@,
                    is_root,
                )@
                &&& final(outboard)@ == old(outboard)@
            },
            BaoChunk::Parent { is_root, .. } => {
                let n = old(stack)@.len() as int;
                let left = old(stack)@[n - 2];
                let right = old(stack)@[n - 1];
                &&& final(stack)@ == old(stack)@.take(n - 2).push(
                    hash::parent_hash(left, right, is_root),
                )
                &&& final(stack)@.last() == hash::parent_bytes(left, right, is_root)@
                &&& final(outboard)@ == old(outboard)@ + (left + right)
                &&& final(outboard)@.len() == old(outboard)@.len() + 64
            },
        },
{
    match item {
        BaoChunk::Parent { is_root, .. } => {
            let right_hash = stack.pop().unwrap();
            let left_hash = stack.pop().unwrap();
            left_hash.append_to(outboard);
            right_hash.append_to(outboard);
            let parent = hash::parent_cv(&left_hash, &right_hash, is_root);
            proof {
                let n = old(stack)@.len() as int;
                assert(old(stack)@.drop_last().drop_last() =~= old(stack)@.take(n - 2));
                assert(outboard@ =~= old(outboard)@ + (left_hash@ + right_hash@));
            }
            stack.push(parent);
        },
        BaoChunk::Leaf { is_root, start_chunk, .. } => {
            let hash = hash::hash_block(start_chunk, data, is_root);
            stack.push(hash);
        },
    }
}

/// Computes the root hash of a blob and appends its outboard: the hash pairs in
/// post order, then the size. Input that is shorter than `size` is an error; the
/// hash pairs that could be computed are appended all the same.
pub fn outboard_post_order(
    data: &mut &[u8],
    size: u64,
    block_size: BlockSize,
    outboard: &mut Vec<u8>,
) -> (r: Result<Digest, std::io::Error>)
    requires
        block_size.valid(),
    ensures
        r is Ok <==> old(data)@.len() >= size,
        r matches Ok(hash) ==> hash@ == hash::subtree_hash(old(data)@.take(size as int), 0, true),
        r is Ok ==> final(data)@ == old(data)@.skip(size as int),
        r is Ok ==> final(outboard)@ == old(outboard)@ + hash::outboard_pairs(
            old(data)@.take(size as int),
            0,
            block_size.spec_bytes(),
        ) + num::le_bytes(size),
        r is Ok ==> final(outboard)@.len() == old(outboard)@.len() + 64 * ((BaoTree {
            size: ByteNum(size),
            block_size,
            start_chunk: ChunkNum(0),
        }).spec_blocks() - 1) + 8,
        r is Err ==> ({
            let tree = BaoTree { size: ByteNum(size), block_size, start_chunk: ChunkNum(0) };
            let run = hash::post_run(
                tree.post_order_plan(),
                true,
                Seq::empty(),
                old(data)@,
                Seq::empty(),
            );
            final(outboard)@ == old(outboard)@ + run.out && final(data)@ == run.rest
        }),
        r matches Err(e) ==> error::is_unexpected_eof(e),
{
    let tree = BaoTree::new_with_start_chunk(ByteNum(size), block_size, ChunkNum(0));
    let hash = outboard_post_order_impl(tree, data, outboard)?;
    num::push_u64_le(outboard, size);
    Ok(hash)
}

/// Computes the root hash of a blob, or of a part of one, and appends its hash
/// pairs in post order.
pub fn outboard_post_order_impl(tree: BaoTree, data: &mut &[u8], outboard: &mut Vec<u8>) -> (r: Result<
    Digest,
    std::io::Error,
>)
    requires
        tree.valid(),
        hash::root_possible(tree.start_chunk.0 as nat, tree.size.0 as nat, true),
    ensures
        r is Ok <==> old(data)@.len() >= tree.size.0,
        r matches Ok(hash) ==> hash@ == hash::subtree_hash(
            old(data)@.take(tree.size.0 as int),
            tree.start_chunk.0 as nat,
            true,
        ),
        r is Ok ==> final(data)@ == old(data)@.skip(tree.size.0 as int),
        r is Ok ==> final(outboard)@ == old(outboard)@ + hash::outboard_pairs(
            old(data)@.take(tree.size.0 as int),
            tree.start_chunk.0 as nat,
            tree.block_size.spec_bytes(),
        ),
        r is Ok ==> final(outboard)@.len() == old(outboard)@.len() + 64 * (tree.spec_blocks() - 1),
        r is Err ==> ({
            let run = hash::post_run(
                tree.post_order_plan(),
                true,
                Seq::empty(),
                old(data)@,
                Seq::empty(),
            );
            final(outboard)@ == old(outboard)@ + run.out && final(data)@ == run.rest
        }),
        r matches Err(e) ==> error::is_unexpected_eof(e),
{
    let mut stack = HashStack::new();
    let mut iter = tree.post_order_chunks_iter();
    let ghost run = hash::post_run(
        tree.post_order_plan(),
        true,
        Seq::empty(),
        data@,
        Seq::empty(),
    );
    let ghost mut out: Seq<u8> = Seq::empty();
    proof {
        tree.lemma_post_plan(true, data@);
        tree.lemma_root();
        tree.lemma_post_chunks(0, tree.root_level());
        tree.lemma_post_parents(0, tree.root_level(), Seq::empty());
        assert(tree.post_order_plan() + Seq::<BaoChunk>::empty() =~= tree.post_order_plan());
        assert(outboard@ =~= old(outboard)@ + out);
    }
    loop
        invariant
            iter.valid(),
            tree.valid(),
            hash::root_possible(tree.start_chunk.0 as nat, tree.size.0 as nat, true),
            hash::post_safe(iter.remaining(), stack@.len()),
            tree.chunks_within(iter.remaining()),
            run == hash::post_run(iter.remaining(), true, stack@, data@, out),
            outboard@ == old(outboard)@ + out,
            out.len() + 64 * hash::parents(iter.remaining()) == 64 * (tree.spec_blocks() - 1),
            run == hash::post_run(
                tree.post_order_plan(),
                true,
                Seq::empty(),
                old(data)@,
                Seq::empty(),
            ),
            run.done <==> old(data)@.len() >= tree.size.0,
        ensures
            iter.remaining().len() == 0,
        decreases iter.remaining().len(),
    {
        let ghost items = iter.remaining();
        match iter.next() {
            None => break,
            Some(item) => match item {
                BaoChunk::Leaf { size, .. } => {
                    let buf = source::read_exact(data, size)?;
                    post_order_step(&mut stack, item, buf, outboard);
                },
                BaoChunk::Parent { .. } => {
                    let ghost n = stack@.len() as int;
                    proof {
                        out = out + (stack@[n - 2] + stack@[n - 1]);
                    }
                    let empty: &[u8] = &[];
                    post_order_step(&mut stack, item, empty, outboard);
                    assert(outboard@ =~= old(outboard)@ + out);
                },
            },
        }
    }
    proof {
        tree.lemma_post_plan(true, old(data)@);
    }
    Ok(stack.pop().unwrap())
}

} // verus!
