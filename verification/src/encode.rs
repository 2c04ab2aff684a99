//! Encoding responses.
use range_collections::RangeSetRef;
use vstd::prelude::*;

use crate::error::EncodeError;
use crate::hash;
use crate::hash::{Digest, HashStack};
use crate::io;
use crate::io::{Outboard, SliceReader};
use crate::iter::{BaoChunk, PreOrderChunkIterRef};
use crate::node::TreeNode;
use crate::num;
use crate::num::{ByteNum, ChunkNum};
use crate::ranges;
use crate::response;
use crate::tree::BaoTree;

verus! {

/// The start of a response: the header and the first `count` items.
pub open spec fn response_start(
    tree: BaoTree,
    pairs: Map<TreeNode, (Digest, Digest)>,
    b: Seq<u64>,
    blob: Seq<u8>,
    count: int,
) -> Seq<u8> {
    num::le_bytes(tree.size.0) + response::encode_items(
        tree.pre_order_plan(b).take(count),
        pairs,
        blob,
    )
}

/// Whether a response can be encoded at all: the sizes agree and the query is
/// canonical.
pub open spec fn encodable(tree: BaoTree, b: Seq<u64>, blob: Seq<u8>) -> bool {
    &&& blob.len() == tree.size.0
    &&& ranges::ranges_canonical(b, num::chunks_of(tree.size.0 as nat))
}

/// Whether getting the bytes of an item can fail with an error.
pub open spec fn item_can_fail<D: SliceReader, O: Outboard>(
    item: BaoChunk,
    data: &D,
    outboard: &O,
    e: std::io::Error,
) -> bool {
    match item {
        BaoChunk::Parent { node, .. } => !outboard.loads(node) && outboard.load_errors(
            node,
        ).contains(e),
        BaoChunk::Leaf { .. } => !data.reliable() && data.errors().contains(e),
    }
}

/// Whether no hash pair of the items is one that is sure not to be loaded.
pub open spec fn items_can_pass<O: Outboard>(items: Seq<BaoChunk>, outboard: &O) -> bool {
    forall|i: int|
        0 <= i < items.len() ==> (#[trigger] items[i] matches BaoChunk::Parent { node, .. }
            ==> !outboard.load_fails(node))
}

/// Whether encoding stopped at item `k`, whose bytes could not be had.
pub open spec fn stopped_at<D: SliceReader, O: Outboard>(
    data: &D,
    outboard: &O,
    b: Seq<u64>,
    before: Seq<u8>,
    e: std::io::Error,
    after: Seq<u8>,
    k: int,
) -> bool {
    let tree = outboard.spec_tree();
    let plan = tree.pre_order_plan(b);
    &&& 0 <= k < plan.len()
    &&& encodable(tree, b, data.bytes())
    &&& item_can_fail(plan[k], data, outboard, e)
    &&& items_can_pass(plan.take(k), outboard)
    &&& after == before + response_start(tree, outboard.pairs(), b, data.bytes(), k)
}

/// Whether encoding stopped before anything was put out, as the number of bytes of
/// the data could not be had.
pub open spec fn stopped_early<D: SliceReader>(
    data: &D,
    before: Seq<u8>,
    e: std::io::Error,
    after: Seq<u8>,
) -> bool {
    after == before && !data.len_known() && data.errors().contains(e)
}

/// What encoding without checks comes to: which result is had, and what is put out.
pub open spec fn encode_outcome<D: SliceReader, O: Outboard>(
    data: &D,
    outboard: &O,
    b: Seq<u64>,
    before: Seq<u8>,
    r: Result<(), EncodeError>,
    after: Seq<u8>,
) -> bool {
    let tree = outboard.spec_tree();
    let pairs = outboard.pairs();
    let blob = data.bytes();
    match r {
        Ok(_) => encodable(tree, b, blob) && items_can_pass(tree.pre_order_plan(b), outboard)
            && response::has_pairs(tree.pre_order_plan(b), pairs) && after == before
            + response::encode_response(tree, pairs, b, blob),
        Err(EncodeError::SizeMismatch) => blob.len() != tree.size.0 && after == before,
        Err(EncodeError::InvalidQueryRange) => blob.len() == tree.size.0 && !encodable(
            tree,
            b,
            blob,
        ) && after == before,
        Err(EncodeError::Io(e)) => stopped_early(data, before, e, after) || exists|k: int|
            #[trigger] stopped_at(data, outboard, b, before, e, after, k),
        Err(_) => false,
    }
}

/// What decoding gives of a response, given the root hash. The number of items says
/// how far encoding with checks gets.
pub open spec fn checked_run<D: SliceReader, O: Outboard>(
    data: &D,
    outboard: &O,
    b: Seq<u64>,
) -> response::Decoded {
    let plan = outboard.spec_tree().pre_order_plan(b);
    response::decode_items(
        plan,
        seq![outboard.spec_root()@],
        response::encode_items(plan, outboard.pairs(), data.bytes()),
    )
}

/// The items that encoding with checks looks at: those that match, and the first that
/// does not.
pub open spec fn looked_at<D: SliceReader, O: Outboard>(
    data: &D,
    outboard: &O,
    b: Seq<u64>,
) -> Seq<BaoChunk> {
    let plan = outboard.spec_tree().pre_order_plan(b);
    let n = checked_run(data, outboard, b).items.len() as int;
    if n < plan.len() {
        plan.take(n + 1)
    } else {
        plan
    }
}

/// What encoding with checks comes to: which result is had, and what is put out.
pub open spec fn encode_validated_outcome<D: SliceReader, O: Outboard>(
    data: &D,
    outboard: &O,
    b: Seq<u64>,
    before: Seq<u8>,
    r: Result<(), EncodeError>,
    after: Seq<u8>,
) -> bool {
    let tree = outboard.spec_tree();
    let pairs = outboard.pairs();
    let blob = data.bytes();
    let run = checked_run(data, outboard, b);
    let n = run.items.len() as int;
    match r {
        Ok(_) => encodable(tree, b, blob) && run.failure is None && items_can_pass(
            tree.pre_order_plan(b),
            outboard,
        ) && response::has_pairs(tree.pre_order_plan(b), pairs) && after == before
            + response::encode_response(tree, pairs, b, blob),
        Err(EncodeError::SizeMismatch) => blob.len() != tree.size.0 && after == before,
        Err(EncodeError::InvalidQueryRange) => blob.len() == tree.size.0 && !encodable(
            tree,
            b,
            blob,
        ) && after == before,
        Err(EncodeError::ParentHashMismatch(node)) => encodable(tree, b, blob) && run.failure
            == Some(response::Failure::Parent(node)) && items_can_pass(
            looked_at(data, outboard, b),
            outboard,
        ) && after == before + response_start(tree, pairs, b, blob, n),
        Err(EncodeError::LeafHashMismatch(chunk)) => encodable(tree, b, blob) && run.failure
            == Some(response::Failure::Leaf(chunk)) && items_can_pass(
            looked_at(data, outboard, b),
            outboard,
        ) && after == before + response_start(tree, pairs, b, blob, n),
        Err(EncodeError::Io(e)) => stopped_early(data, before, e, after) || exists|k: int|
            k <= n && #[trigger] stopped_at(data, outboard, b, before, e, after, k),
    }
}

/// Encoding without checks does not look at the root hash: outboards that differ in
/// it alone come to the same, also where loading or reading fails.
pub proof fn law_encoding_ignores_the_root<D: SliceReader, O: Outboard, P: Outboard>(
    data: &D,
    outboard: &O,
    that: &P,
    b: Seq<u64>,
    before: Seq<u8>,
    r: Result<(), EncodeError>,
    after: Seq<u8>,
)
    requires
        outboard.spec_tree() == that.spec_tree(),
        outboard.pairs() == that.pairs(),
        forall|node: TreeNode| #[trigger] outboard.loads(node) == that.loads(node),
        forall|node: TreeNode| #[trigger] outboard.load_fails(node) == that.load_fails(node),
        forall|node: TreeNode| #[trigger] outboard.load_errors(node) == that.load_errors(node),
    ensures
        encode_outcome(data, outboard, b, before, r, after) == encode_outcome(
            data,
            that,
            b,
            before,
            r,
            after,
        ),
{
    let plan = outboard.spec_tree().pre_order_plan(b);
    lemma_same_passes(plan, outboard, that);
    if let Err(EncodeError::Io(e)) = r {
        assert forall|k: int|
            #![trigger stopped_at(data, outboard, b, before, e, after, k)]
            #![trigger stopped_at(data, that, b, before, e, after, k)]
            stopped_at(data, outboard, b, before, e, after, k) == stopped_at(
                data,
                that,
                b,
                before,
                e,
                after,
                k,
            ) by {
            lemma_same_passes(plan.take(k), outboard, that);
            if let BaoChunk::Parent { node, .. } = plan[k] {
                assert(outboard.loads(node) == that.loads(node));
                assert(outboard.load_errors(node) == that.load_errors(node));
            }
        }
    }
}

/// Outboards that fail for the same nodes let the same items pass.
proof fn lemma_same_passes<O: Outboard, P: Outboard>(
    items: Seq<BaoChunk>,
    outboard: &O,
    that: &P,
)
    requires
        forall|node: TreeNode| #[trigger] outboard.load_fails(node) == that.load_fails(node),
    ensures
        items_can_pass(items, outboard) == items_can_pass(items, that),
{
    assert forall|i: int| 0 <= i < items.len() implies (match #[trigger] items[i] {
        BaoChunk::Parent { node, .. } => outboard.load_fails(node) == that.load_fails(node),
        _ => true,
    }) by {}
}

/// Whether there is a hash pair for every parent among the items, up to the first one
/// that is sure not to be loaded.
pub open spec fn has_pairs_to_load<O: Outboard>(items: Seq<BaoChunk>, outboard: &O) -> bool {
    forall|i: int|
        0 <= i < items.len() && items_can_pass(items.take(i + 1), outboard) ==> (
        #[trigger] items[i] matches BaoChunk::Parent { node, .. } ==> outboard.pairs().contains_key(
            node,
        ))
}

/// An outboard that has all hash pairs of a response has what encoding asks for, with
/// checks and without.
pub proof fn law_full_outboard_can_be_encoded<D: SliceReader, O: Outboard>(
    data: &D,
    outboard: &O,
    b: Seq<u64>,
)
    requires
        response::has_pairs(outboard.spec_tree().pre_order_plan(b), outboard.pairs()),
    ensures
        has_pairs_to_load(outboard.spec_tree().pre_order_plan(b), outboard),
        has_pairs_to_load(looked_at(data, outboard, b), outboard),
{
    let plan = outboard.spec_tree().pre_order_plan(b);
    let looked = looked_at(data, outboard, b);
    assert forall|i: int| 0 <= i < looked.len() implies (
    #[trigger] looked[i] matches BaoChunk::Parent { node, .. } ==> outboard.pairs().contains_key(
        node,
    )) by {
        assert(looked[i] == plan[i]);
    }
}

/// Whether the bytes of an item are there: the hash pair of its node, unless it is sure
/// not to be loaded, or its block, with room for it in a buffer.
pub open spec fn item_available<O: Outboard>(
    item: BaoChunk,
    outboard: &O,
    blob: Seq<u8>,
    room: nat,
) -> bool {
    match item {
        BaoChunk::Parent { node, .. } => outboard.pairs().contains_key(node)
            || outboard.load_fails(node),
        BaoChunk::Leaf { size, start_chunk, .. } => 1024 * start_chunk.0 + size <= blob.len()
            && 1024 * start_chunk.0 + size <= u64::MAX && size <= room,
    }
}

/// One item more, and its bytes more.
proof fn lemma_encode_next(
    items: Seq<BaoChunk>,
    k: int,
    pairs: Map<TreeNode, (Digest, Digest)>,
    blob: Seq<u8>,
)
    requires
        0 <= k < items.len(),
    ensures
        response::encode_items(items.take(k + 1), pairs, blob) == response::encode_items(
            items.take(k),
            pairs,
            blob,
        ) + response::item_bytes(items[k], pairs, blob),
    decreases k,
{
    if k == 0 {
        assert(items.take(1).drop_first() =~= Seq::<BaoChunk>::empty());
        assert(response::encode_items(Seq::<BaoChunk>::empty(), pairs, blob) =~= Seq::<
            u8,
        >::empty());
        assert(items.take(0) =~= Seq::<BaoChunk>::empty());
        assert(response::encode_items(items.take(1), pairs, blob) =~= response::item_bytes(
            items[0],
            pairs,
            blob,
        ));
        assert(response::encode_items(items.take(1), pairs, blob) =~= response::encode_items(
            items.take(0),
            pairs,
            blob,
        ) + response::item_bytes(items[0], pairs, blob));
    } else {
        lemma_encode_next(items.drop_first(), k - 1, pairs, blob);
        assert(items.take(k + 1).drop_first() =~= items.drop_first().take(k));
        assert(items.take(k).drop_first() =~= items.drop_first().take(k - 1));
        assert(response::encode_items(items.take(k + 1), pairs, blob) =~= response::encode_items(
            items.take(k),
            pairs,
            blob,
        ) + response::item_bytes(items[k], pairs, blob));
    }
}

/// A response up to an item, with the bytes of the item behind it.
proof fn lemma_start_next(
    tree: BaoTree,
    pairs: Map<TreeNode, (Digest, Digest)>,
    b: Seq<u64>,
    blob: Seq<u8>,
    before: Seq<u8>,
    k: int,
)
    requires
        0 <= k < tree.pre_order_plan(b).len(),
    ensures
        before + response_start(tree, pairs, b, blob, k) + response::item_bytes(
            tree.pre_order_plan(b)[k],
            pairs,
            blob,
        ) == before + response_start(tree, pairs, b, blob, k + 1),
{
    lemma_encode_next(tree.pre_order_plan(b), k, pairs, blob);
    assert(before + response_start(tree, pairs, b, blob, k) + response::item_bytes(
        tree.pre_order_plan(b)[k],
        pairs,
        blob,
    ) =~= before + response_start(tree, pairs, b, blob, k + 1));
}

/// A response without items is a header.
proof fn lemma_start_empty(
    tree: BaoTree,
    pairs: Map<TreeNode, (Digest, Digest)>,
    b: Seq<u64>,
    blob: Seq<u8>,
)
    ensures
        response_start(tree, pairs, b, blob, 0) == num::le_bytes(tree.size.0),
        tree.pre_order_plan(b).skip(0) == tree.pre_order_plan(b),
{
    assert(tree.pre_order_plan(b).take(0) =~= Seq::<BaoChunk>::empty());
    assert(tree.pre_order_plan(b).skip(0) =~= tree.pre_order_plan(b));
    assert(response_start(tree, pairs, b, blob, 0) =~= num::le_bytes(tree.size.0));
}

/// Decoding what was encoded goes item by item.
proof fn lemma_decode_step(
    items: Seq<BaoChunk>,
    stack: Seq<Seq<u8>>,
    pairs: Map<TreeNode, (Digest, Digest)>,
    blob: Seq<u8>,
)
    requires
        items.len() > 0,
        items[0] matches BaoChunk::Leaf { size, start_chunk, .. } ==> 1024 * start_chunk.0 + size
            <= blob.len(),
    ensures
        ({
            let run = response::decode_items(
                items,
                stack,
                response::encode_items(items, pairs, blob),
            );
            match response::check_item(
                items[0],
                stack,
                response::item_bytes(items[0], pairs, blob),
            ) {
                None => run.failure == Some(response::mismatch(items[0])) && run.items.len() == 0,
                Some(next) => {
                    let tail = response::decode_items(
                        items.drop_first(),
                        next,
                        response::encode_items(items.drop_first(), pairs, blob),
                    );
                    run.failure == tail.failure && run.items.len() == 1 + tail.items.len()
                },
            }
        }),
{
    let input = response::encode_items(items, pairs, blob);
    let n = response::item_len(items[0]) as int;
    assert(response::item_bytes(items[0], pairs, blob).len() == n);
    assert(input.take(n) =~= response::item_bytes(items[0], pairs, blob));
    assert(input.skip(n) =~= response::encode_items(items.drop_first(), pairs, blob));
}

/// Appends a hash pair.
fn put_pair(pair: &(Digest, Digest), encoded: &mut Vec<u8>)
    ensures
        final(encoded)@ == old(encoded)@ + (pair.0@ + pair.1@),
{
    pair.0.append_to(encoded);
    pair.1.append_to(encoded);
    assert(encoded@ =~= old(encoded)@ + (pair.0@ + pair.1@));
}

/// One item more that can pass.
proof fn lemma_passes_next<O: Outboard>(items: Seq<BaoChunk>, k: int, outboard: &O)
    requires
        0 <= k < items.len(),
        items_can_pass(items.take(k), outboard),
        items[k] is Leaf || items_can_pass(seq![items[k]], outboard),
    ensures
        items_can_pass(items.take(k + 1), outboard),
{
    assert forall|i: int| 0 <= i < k + 1 implies (
    #[trigger] items.take(k + 1)[i] matches BaoChunk::Parent { node, .. } ==> !outboard.load_fails(
        node,
    )) by {
        if i < k {
            assert(items.take(k)[i] == items.take(k + 1)[i]);
        } else {
            assert(seq![items[k]][0] == items.take(k + 1)[i]);
        }
    }
}

/// The hash pair of an item is there, or sure not to be loaded, if those before it can
/// pass.
proof fn lemma_item_available<O: Outboard>(items: Seq<BaoChunk>, k: int, outboard: &O)
    requires
        0 <= k < items.len(),
        items_can_pass(items.take(k), outboard),
        has_pairs_to_load(items, outboard),
    ensures
        items[k] matches BaoChunk::Parent { node, .. } ==> outboard.pairs().contains_key(node)
            || outboard.load_fails(node),
{
    if let BaoChunk::Parent { node, .. } = items[k] {
        if !outboard.load_fails(node) {
            lemma_passes_next(items, k, outboard);
        }
    }
}

/// Where all hash pairs can be loaded, they are all there.
proof fn lemma_all_loaded<O: Outboard>(items: Seq<BaoChunk>, outboard: &O)
    requires
        items_can_pass(items, outboard),
        has_pairs_to_load(items, outboard),
    ensures
        response::has_pairs(items, outboard.pairs()),
{
    assert forall|i: int| 0 <= i < items.len() implies (
    #[trigger] items[i] matches BaoChunk::Parent { node, .. } ==> outboard.pairs().contains_key(
        node,
    )) by {
        let first = items.take(i + 1);
        assert forall|j: int| 0 <= j < first.len() implies (
        #[trigger] first[j] matches BaoChunk::Parent { node, .. } ==> !outboard.load_fails(node)) by {
            assert(first[j] == items[j]);
        }
    }
}

/// Whether a reader is as it was: the bytes are the same, and so is what can fail.
pub open spec fn same_reader<D: SliceReader>(a: &D, b: &D) -> bool {
    &&& a.bytes() == b.bytes()
    &&& a.reliable() == b.reliable()
    &&& a.len_known() == b.len_known()
    &&& a.errors() == b.errors()
}

/// Loads a hash pair that is known to be in the store, or not to be loaded.
fn load_pair<O: Outboard>(outboard: &O, node: TreeNode) -> (r: Result<
    (Digest, Digest),
    std::io::Error,
>)
    requires
        outboard.pairs().contains_key(node) || outboard.load_fails(node),
    ensures
        r matches Ok(pair) ==> pair == outboard.pairs()[node],
        r matches Err(e) ==> outboard.load_errors(node).contains(e),
        outboard.loads(node) ==> r is Ok,
        outboard.load_fails(node) ==> r is Err,
{
    match outboard.load(node) {
        Ok(pair) => Ok(pair.unwrap()),
        Err(e) => Err(e),
    }
}

/// Reads a block into the start of a buffer, and gives that start back.
fn read_block<'a, D: SliceReader>(
    data: &mut D,
    start_chunk: ChunkNum,
    size: usize,
    buffer: &'a mut Vec<u8>,
) -> (r: Result<&'a [u8], std::io::Error>)
    requires
        1024 * start_chunk.0 + size <= u64::MAX,
        1024 * start_chunk.0 + size <= old(data).bytes().len(),
        size <= old(buffer)@.len(),
    ensures
        same_reader(final(data), old(data)),
        final(buffer)@.len() == old(buffer)@.len(),
        r matches Ok(bytes) ==> bytes@ == old(data).bytes().subrange(
            1024 * start_chunk.0 as int,
            1024 * start_chunk.0 as int + size,
        ),
        r matches Err(e) ==> old(data).errors().contains(e),
        old(data).reliable() ==> r is Ok,
{
    proof {
        let offset = 1024 * start_chunk.0 as nat;
        let bytes = data.bytes();
        assert(io::slice_at(bytes, offset, size as nat) =~= bytes.subrange(
            offset as int,
            offset as int + size,
        ));
    }
    let start = start_chunk.to_bytes();
    let end = ByteNum(start.0 + size as u64);
    io::read_range(data, start..end, buffer.as_mut_slice())
}

/// Checks that a query can be answered, and starts the answer with its header: the
/// data has to be as long as the outboard says, and the query has to be canonical. What
/// is given back is the traversal of the items that follow.
pub fn start_encoding<'a, D: SliceReader, O: Outboard>(
    data: &mut D,
    outboard: &O,
    ranges: &'a RangeSetRef<u64>,
    encoded: &mut Vec<u8>,
) -> (r: Result<PreOrderChunkIterRef<'a>, EncodeError>)
    requires
        outboard.spec_tree().valid(),
    ensures
        same_reader(final(data), old(data)),
        ({
            let tree = outboard.spec_tree();
            let b = ranges::boundaries_of(ranges);
            let blob = old(data).bytes();
            match r {
                Ok(iter) => encodable(tree, b, blob) && iter.valid() && iter.spec_tree() == tree
                    && iter.remaining() == tree.pre_order_plan(b) && final(encoded)@ == old(
                    encoded,
                )@ + num::le_bytes(tree.size.0),
                Err(EncodeError::SizeMismatch) => blob.len() != tree.size.0,
                Err(EncodeError::InvalidQueryRange) => blob.len() == tree.size.0 && !encodable(
                    tree,
                    b,
                    blob,
                ),
                Err(EncodeError::Io(e)) => !old(data).len_known() && old(data).errors().contains(e),
                Err(_) => false,
            }
        }),
        r is Err ==> final(encoded)@ == old(encoded)@,
        ({
            let b = ranges::boundaries_of(ranges);
            let size = outboard.spec_tree().size.0;
            let answered = forall|i: int|
                0 <= i < b.len() ==> (#[trigger] b[i] == 0 || 1024 * b[i] < size);
            &&& r is Ok ==> old(data).bytes().len() == size && answered
            &&& old(data).len_known() && old(data).bytes().len() == size && answered ==> r is Ok
            &&& r matches Err(EncodeError::InvalidQueryRange) ==> old(data).bytes().len() == size
                && !answered
        }),
{
    let file_len: u64 = match data.len() {
        Ok(len) => len,
        Err(e) => return Err(EncodeError::Io(e)),
    };
    let tree = outboard.tree();
    if file_len != tree.size.0 {
        return Err(EncodeError::SizeMismatch);
    }
    if !ranges::range_ok(ranges, tree.chunks()) {
        return Err(EncodeError::InvalidQueryRange);
    }
    num::push_u64_le(encoded, tree.size.0);
    Ok(tree.ranges_pre_order_chunks_iter_ref(ranges))
}

/// Appends the bytes of an item: the hash pair of a node, or a block. The buffer is
/// for the block.
pub fn encode_item<D: SliceReader, O: Outboard>(
    item: BaoChunk,
    data: &mut D,
    outboard: &O,
    buffer: &mut Vec<u8>,
    encoded: &mut Vec<u8>,
) -> (r: Result<(), std::io::Error>)
    requires
        item_available(item, outboard, old(data).bytes(), old(buffer)@.len()),
    ensures
        same_reader(final(data), old(data)),
        final(buffer)@.len() == old(buffer)@.len(),
        r is Ok ==> final(encoded)@ == old(encoded)@ + response::item_bytes(
            item,
            outboard.pairs(),
            old(data).bytes(),
        ),
        r is Ok ==> items_can_pass(seq![item], outboard),
        r matches Err(e) ==> final(encoded)@ == old(encoded)@ && item_can_fail(
            item,
            old(data),
            outboard,
            e,
        ),
{
    match item {
        BaoChunk::Parent { node, .. } => {
            let pair = load_pair(outboard, node)?;
            put_pair(&pair, encoded);
        },
        BaoChunk::Leaf { start_chunk, size, .. } => {
            let buf = read_block(data, start_chunk, size, buffer)?;
            encoded.extend_from_slice(buf);
        },
    }
    Ok(())
}

/// Checks an item against the hash on top of the stack, as a decoder does, and then
/// appends its bytes. The buffer is for the block.
pub fn encode_item_validated<D: SliceReader, O: Outboard>(
    stack: &mut HashStack,
    item: BaoChunk,
    data: &mut D,
    outboard: &O,
    buffer: &mut Vec<u8>,
    encoded: &mut Vec<u8>,
) -> (r: Result<(), EncodeError>)
    requires
        item_available(item, outboard, old(data).bytes(), old(buffer)@.len()),
        old(stack)@.len() >= 1,
        item matches BaoChunk::Leaf { start_chunk, size, is_root } ==> hash::root_possible(
            start_chunk.0 as nat,
            size as nat,
            is_root,
        ),
    ensures
        same_reader(final(data), old(data)),
        final(buffer)@.len() == old(buffer)@.len(),
        ({
            let bytes = response::item_bytes(item, outboard.pairs(), old(data).bytes());
            let checked = response::check_item(item, old(stack)@, bytes);
            match r {
                Ok(_) => checked == Some(final(stack)@) && final(encoded)@ == old(encoded)@ + bytes
                    && items_can_pass(seq![item], outboard),
                Err(e) => final(encoded)@ == old(encoded)@ && match e {
                    EncodeError::Io(e) => item_can_fail(item, old(data), outboard, e),
                    EncodeError::ParentHashMismatch(node) => checked is None && response::mismatch(
                        item,
                    ) == response::Failure::Parent(node) && items_can_pass(seq![item], outboard),
                    EncodeError::LeafHashMismatch(chunk) => checked is None && response::mismatch(
                        item,
                    ) == response::Failure::Leaf(chunk),
                    _ => false,
                },
            }
        }),
{
    match item {
        BaoChunk::Parent { is_root, left, right, node } => {
            let pair = match load_pair(outboard, node) {
                Ok(pair) => pair,
                Err(e) => return Err(EncodeError::Io(e)),
            };
            if !response::verify_parent(stack, &pair, is_root, left, right) {
                return Err(EncodeError::ParentHashMismatch(node));
            }
            put_pair(&pair, encoded);
        },
        BaoChunk::Leaf { start_chunk, size, is_root } => {
            let buf = match read_block(data, start_chunk, size, buffer) {
                Ok(buf) => buf,
                Err(e) => return Err(EncodeError::Io(e)),
            };
            if !response::verify_leaf(stack, buf, start_chunk, is_root) {
                return Err(EncodeError::LeafHashMismatch(start_chunk));
            }
            encoded.extend_from_slice(buf);
        },
    }
    Ok(())
}

/// Encodes the response to a query from the data and the outboard of a blob.
///
/// Nothing is checked against the root hash: corrupt data is found by the one who
/// decodes the response.
pub fn encode_ranges<D: SliceReader, O: Outboard>(
    data: D,
    outboard: O,
    ranges: &RangeSetRef<u64>,
    encoded: &mut Vec<u8>,
) -> (r: Result<(), EncodeError>)
    requires
        outboard.spec_tree().valid(),
        encodable(outboard.spec_tree(), ranges::boundaries_of(ranges), data.bytes())
            ==> outboard.spec_tree().self_contained() && has_pairs_to_load(
            outboard.spec_tree().pre_order_plan(ranges::boundaries_of(ranges)),
            &outboard,
        ),
    ensures
        encode_outcome(
            &data,
            &outboard,
            ranges::boundaries_of(ranges),
            old(encoded)@,
            r,
            final(encoded)@,
        ),
        ({
            let b = ranges::boundaries_of(ranges);
            let size = outboard.spec_tree().size.0;
            let answered = forall|i: int|
                0 <= i < b.len() ==> (#[trigger] b[i] == 0 || 1024 * b[i] < size);
            &&& r is Ok ==> data.bytes().len() == size && answered
            &&& r matches Err(EncodeError::SizeMismatch) ==> data.bytes().len() != size
            &&& r matches Err(EncodeError::InvalidQueryRange) ==> data.bytes().len() == size
                && !answered
            &&& data.len_known() && data.reliable() && (forall|node: TreeNode| #[trigger]
                outboard.loads(node)) && data.bytes().len() == size && answered ==> r is Ok
        }),
{
    let mut reader = data;
    let mut iter = match start_encoding(&mut reader, &outboard, ranges, encoded) {
        Ok(iter) => iter,
        Err(e) => return Err(e),
    };
    let tree = outboard.tree();
    let mut buffer: Vec<u8> = vec![0u8; tree.chunk_group_bytes().0 as usize];
    let ghost b = ranges::boundaries_of(ranges);
    let ghost plan = tree.pre_order_plan(b);
    let ghost pairs = outboard.pairs();
    let ghost blob = data.bytes();
    let ghost mut k: int = 0;
    proof {
        tree.lemma_pre_plan(b);
        lemma_start_empty(tree, pairs, b, blob);
    }
    loop
        invariant
            iter.valid(),
            tree == outboard.spec_tree(),
            tree.self_contained(),
            b == ranges::boundaries_of(ranges),
            plan == tree.pre_order_plan(b),
            pairs == outboard.pairs(),
            blob == data.bytes(),
            same_reader(&reader, &data),
            encodable(tree, b, blob),
            items_can_pass(plan.take(k), &outboard),
            has_pairs_to_load(plan, &outboard),
            response::leaves_in_blob(tree, plan),
            buffer@.len() == tree.block_size.spec_bytes(),
            0 <= k <= plan.len(),
            iter.remaining() == plan.skip(k),
            encoded@ == old(encoded)@ + response_start(tree, pairs, b, blob, k),
        ensures
            k == plan.len(),
        decreases plan.len() - k,
    {
        proof {
            if k < plan.len() {
                assert(plan.skip(k)[0] == plan[k]);
                assert(plan.skip(k).drop_first() =~= plan.skip(k + 1));
                lemma_start_next(tree, pairs, b, blob, old(encoded)@, k);
                lemma_item_available(plan, k, &outboard);
            }
        }
        let item = match iter.next() {
            None => break,
            Some(item) => item,
        };
        match encode_item(item, &mut reader, &outboard, &mut buffer, encoded) {
            Ok(_) => {},
            Err(e) => {
                assert(stopped_at(&data, &outboard, b, old(encoded)@, e, encoded@, k));
                return Err(EncodeError::Io(e));
            },
        }
        proof {
            lemma_passes_next(plan, k, &outboard);
            k = k + 1;
        }
    }
    proof {
        assert(plan.take(plan.len() as int) =~= plan);
        lemma_all_loaded(plan, &outboard);
    }
    Ok(())
}

/// Encodes the response to a query from the data and the outboard of a blob, and
/// checks each hash pair and each block before it is put out.
///
/// It fails where decoding the unchecked response would, with the items before that
/// put out.
pub fn encode_ranges_validated<D: SliceReader, O: Outboard>(
    data: D,
    outboard: O,
    ranges: &RangeSetRef<u64>,
    encoded: &mut Vec<u8>,
) -> (r: Result<(), EncodeError>)
    requires
        outboard.spec_tree().valid(),
        encodable(outboard.spec_tree(), ranges::boundaries_of(ranges), data.bytes())
            ==> outboard.spec_tree().self_contained() && has_pairs_to_load(
            looked_at(&data, &outboard, ranges::boundaries_of(ranges)),
            &outboard,
        ),
    ensures
        encode_validated_outcome(
            &data,
            &outboard,
            ranges::boundaries_of(ranges),
            old(encoded)@,
            r,
            final(encoded)@,
        ),
        ({
            let b = ranges::boundaries_of(ranges);
            let size = outboard.spec_tree().size.0;
            let answered = forall|i: int|
                0 <= i < b.len() ==> (#[trigger] b[i] == 0 || 1024 * b[i] < size);
            &&& r is Ok ==> data.bytes().len() == size && answered
            &&& r matches Err(EncodeError::SizeMismatch) ==> data.bytes().len() != size
            &&& r matches Err(EncodeError::InvalidQueryRange) ==> data.bytes().len() == size
                && !answered
        }),
{
    let mut stack = HashStack::new();
    stack.push(outboard.root());
    let mut reader = data;
    let mut iter = match start_encoding(&mut reader, &outboard, ranges, encoded) {
        Ok(iter) => iter,
        Err(e) => return Err(e),
    };
    let tree = outboard.tree();
    let mut buffer: Vec<u8> = vec![0u8; tree.chunk_group_bytes().0 as usize];
    let ghost b = ranges::boundaries_of(ranges);
    let ghost plan = tree.pre_order_plan(b);
    let ghost pairs = outboard.pairs();
    let ghost blob = data.bytes();
    let ghost run = checked_run(&data, &outboard, b);
    let ghost mut k: int = 0;
    proof {
        tree.lemma_pre_plan(b);
        lemma_start_empty(tree, pairs, b, blob);
        assert(stack@ =~= seq![outboard.spec_root()@]);
    }
    loop
        invariant
            iter.valid(),
            tree == outboard.spec_tree(),
            tree.self_contained(),
            b == ranges::boundaries_of(ranges),
            plan == tree.pre_order_plan(b),
            pairs == outboard.pairs(),
            blob == data.bytes(),
            same_reader(&reader, &data),
            encodable(tree, b, blob),
            items_can_pass(plan.take(k), &outboard),
            run == checked_run(&data, &outboard, b),
            has_pairs_to_load(looked_at(&data, &outboard, b), &outboard),
            response::leaves_in_blob(tree, plan),
            buffer@.len() == tree.block_size.spec_bytes(),
            0 <= k <= plan.len(),
            iter.remaining() == plan.skip(k),
            response::pre_safe(plan.skip(k), stack@.len()),
            encoded@ == old(encoded)@ + response_start(tree, pairs, b, blob, k),
            run.failure == response::decode_items(
                plan.skip(k),
                stack@,
                response::encode_items(plan.skip(k), pairs, blob),
            ).failure,
            run.items.len() == k + response::decode_items(
                plan.skip(k),
                stack@,
                response::encode_items(plan.skip(k), pairs, blob),
            ).items.len(),
        ensures
            k == plan.len(),
            run.items.len() == k,
        decreases plan.len() - k,
    {
        let ghost items = plan.skip(k);
        proof {
            if k < plan.len() {
                assert(items[0] == plan[k]);
                assert(items.drop_first() =~= plan.skip(k + 1));
                lemma_start_next(tree, pairs, b, blob, old(encoded)@, k);
                lemma_decode_step(items, stack@, pairs, blob);
                let looked = looked_at(&data, &outboard, b);
                assert(looked[k] == plan[k]);
                assert(looked.take(k) =~= plan.take(k));
                lemma_item_available(looked, k, &outboard);
            }
        }
        let item = match iter.next() {
            None => break,
            Some(item) => item,
        };
        match encode_item_validated(
            &mut stack,
            item,
            &mut reader,
            &outboard,
            &mut buffer,
            encoded,
        ) {
            Ok(_) => {},
            Err(e) => {
                proof {
                    if e is Io {
                        assert(stopped_at(
                            &data,
                            &outboard,
                            b,
                            old(encoded)@,
                            e->Io_0,
                            encoded@,
                            k,
                        ));
                    } else {
                        lemma_passes_next(plan, k, &outboard);
                    }
                }
                return Err(e);
            },
        }
        proof {
            lemma_passes_next(plan, k, &outboard);
            k = k + 1;
        }
    }
    proof {
        assert(plan.take(plan.len() as int) =~= plan);
        assert(looked_at(&data, &outboard, b) == plan);
        lemma_all_loaded(plan, &outboard);
    }
    Ok(())
}

} // verus!
