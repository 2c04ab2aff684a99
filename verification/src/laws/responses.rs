//! What responses hold, when they can be encoded, and what decoding gives of them.
use vstd::arithmetic::power2::pow2;
use vstd::prelude::*;

use crate::encode;
use crate::error::EncodeError;
use crate::genuine;
use crate::hash;
use crate::hash::Digest;
use crate::io::{Outboard, SliceReader};
use crate::iter::BaoChunk;
use crate::laws::outboards;
use crate::node::TreeNode;
use crate::num;
use crate::num::BlockSize;
use crate::ranges;
use crate::response;
use crate::response::{Decoded, Failure, ItemView};
use crate::round_trip;
use crate::tree::BaoTree;

verus! {

/// The bytes of an item: the two hashes that are stored for a node, or the bytes of the
/// blob from the start of a chunk on.
pub open spec fn bytes_of(
    item: BaoChunk,
    pairs: Map<TreeNode, (Digest, Digest)>,
    blob: Seq<u8>,
) -> Seq<u8> {
    match item {
        BaoChunk::Parent { node, .. } => pairs[node].0.0@ + pairs[node].1.0@,
        BaoChunk::Leaf { size, start_chunk, .. } => blob.subrange(
            1024 * start_chunk.0,
            1024 * start_chunk.0 + size,
        ),
    }
}

/// What is decoded from the bytes of an item.
pub open spec fn decoded_from(item: BaoChunk, bytes: Seq<u8>) -> ItemView {
    match item {
        BaoChunk::Parent { node, .. } => ItemView::Parent {
            node,
            pair: (bytes.subrange(0, 32), bytes.subrange(32, bytes.len() as int)),
        },
        BaoChunk::Leaf { start_chunk, .. } => ItemView::Leaf {
            offset: 1024 * start_chunk.0 as nat,
            data: bytes,
        },
    }
}

/// The hash of the bytes of an item.
pub open spec fn hash_of(item: BaoChunk, bytes: Seq<u8>) -> Seq<u8> {
    match item {
        BaoChunk::Parent { is_root, .. } => hash::parent_bytes(
            bytes.subrange(0, 32),
            bytes.subrange(32, bytes.len() as int),
            is_root,
        )@,
        BaoChunk::Leaf { is_root, start_chunk, .. } => hash::subtree_hash(
            bytes,
            start_chunk.0 as nat,
            is_root,
        ),
    }
}

/// The items of a response come one after the other, each with its own bytes and as many
/// as are read for it.
pub proof fn law_bytes_of_items(
    a: Seq<BaoChunk>,
    item: BaoChunk,
    c: Seq<BaoChunk>,
    pairs: Map<TreeNode, (Digest, Digest)>,
    blob: Seq<u8>,
)
    ensures
        response::encode_items(Seq::empty(), pairs, blob) == Seq::<u8>::empty(),
        response::item_bytes(item, pairs, blob) == bytes_of(item, pairs, blob),
        response::encode_items(a + (seq![item] + c), pairs, blob) == response::encode_items(
            a,
            pairs,
            blob,
        ) + bytes_of(item, pairs, blob) + response::encode_items(c, pairs, blob),
        item is Parent ==> response::item_len(item) == 64,
        item matches BaoChunk::Leaf { size, .. } ==> response::item_len(item) == size,
    decreases a.len(),
{
    let rest = seq![item] + c;
    assert(rest.drop_first() =~= c);
    assert(response::encode_items(rest, pairs, blob) =~= bytes_of(item, pairs, blob)
        + response::encode_items(c, pairs, blob));
    if a.len() == 0 {
        assert(a + rest =~= rest);
        assert(response::encode_items(a + rest, pairs, blob) =~= response::encode_items(
            a,
            pairs,
            blob,
        ) + bytes_of(item, pairs, blob) + response::encode_items(c, pairs, blob));
    } else {
        law_bytes_of_items(a.drop_first(), item, c, pairs, blob);
        assert((a + rest).drop_first() =~= a.drop_first() + rest);
        assert(response::encode_items(a + rest, pairs, blob) =~= response::encode_items(
            a,
            pairs,
            blob,
        ) + bytes_of(item, pairs, blob) + response::encode_items(c, pairs, blob));
    }
}

/// An item is accepted if and only if its bytes have the hash that is expected next. That
/// hash is then no longer expected; behind a hash pair, the hashes of those of its halves
/// that follow are, the left one first.
pub proof fn law_accepted_items(item: BaoChunk, stack: Seq<Seq<u8>>, payload: Seq<u8>)
    requires
        stack.len() > 0,
        item is Parent ==> payload.len() == 64,
    ensures
        ({
            let expected = stack[stack.len() - 1];
            let rest = stack.take(stack.len() - 1);
            let (l, r) = (payload.subrange(0, 32), payload.subrange(32, payload.len() as int));
            &&& response::check_item(item, stack, payload) is Some <==> hash_of(item, payload)
                == expected
            &&& response::check_item(item, stack, payload) matches Some(next) ==> match item {
                BaoChunk::Leaf { .. } => next == rest,
                BaoChunk::Parent { left, right, .. } => next == (if left && right {
                    rest.push(r).push(l)
                } else if left {
                    rest.push(l)
                } else if right {
                    rest.push(r)
                } else {
                    rest
                }),
            }
            &&& response::item_view(item, payload) == decoded_from(item, payload)
            &&& response::mismatch(item) == match item {
                BaoChunk::Parent { node, .. } => Failure::Parent(node),
                BaoChunk::Leaf { start_chunk, .. } => Failure::Leaf(start_chunk),
            }
        }),
{
    assert(payload.take(32) =~= payload.subrange(0, 32) || payload.len() < 32);
    assert(payload.skip(32) =~= payload.subrange(32, payload.len() as int) || payload.len() < 32);
    assert(stack.drop_last() =~= stack.take(stack.len() - 1));
}

/// Whether a query can be answered for a blob of some length: its boundaries, however
/// many, are chunks of the blob, or zero.
pub open spec fn answerable(b: Seq<u64>, len: nat) -> bool {
    forall|i: int| 0 <= i < b.len() ==> (#[trigger] b[i] == 0 || 1024 * b[i] < len)
}

/// A response starts with its size. Without eight bytes it is cut short; with a query that
/// cannot be answered for that size it is refused, and with no other.
pub proof fn law_header_of_a_response(
    root: Seq<u8>,
    block_size: BlockSize,
    b: Seq<u64>,
    size: u64,
    input: Seq<u8>,
)
    ensures
        ({
            let run = response::decode_response(root, block_size, b, input);
            let answered = forall|i: int|
                0 <= i < b.len() ==> (#[trigger] b[i] == 0 || 1024 * b[i] < size);
            &&& input.len() < 8 ==> run == (Decoded {
                items: Seq::empty(),
                failure: Some(Failure::Eof),
                rest: input,
            })
            &&& input.len() >= 8 && input.take(8) == num::le_bytes(size) ==> {
                &&& !answered ==> run == (Decoded {
                    items: Seq::empty(),
                    failure: Some(Failure::InvalidQueryRange),
                    rest: input.skip(8),
                })
                &&& answered ==> run.items.len() > 0 && run.items[0]
                    == (ItemView::Header { size }) && !(run.failure matches Some(
                    Failure::InvalidQueryRange,
                ))
            }
        }),
{
    crate::laws::numbers::law_canonical_queries(b, size as nat);
    num::law_le_bytes_read_back(size);
    if input.len() >= 8 && input.take(8) == num::le_bytes(size) && answerable(b, size as nat) {
        let tree = BaoTree {
            size: crate::num::ByteNum(size),
            block_size,
            start_chunk: crate::num::ChunkNum(0),
        };
        lemma_never_refused(tree.pre_order_plan(b), seq![root], input.skip(8));
    }
}

/// Behind the header the query is not looked at again.
proof fn lemma_never_refused(items: Seq<BaoChunk>, stack: Seq<Seq<u8>>, input: Seq<u8>)
    ensures
        !(response::decode_items(items, stack, input).failure matches Some(
            Failure::InvalidQueryRange,
        )),
    decreases items.len(),
{
    if items.len() > 0 {
        let n = response::item_len(items[0]) as int;
        if let Some(next) = response::check_item(items[0], stack, input.take(n)) {
            lemma_never_refused(items.drop_first(), next, input.skip(n));
        }
    }
}

/// The whole response to a query.
pub open spec fn response_to(
    blob: Seq<u8>,
    log: u8,
    b: Seq<u64>,
    pairs: Map<TreeNode, (Digest, Digest)>,
) -> Seq<u8> {
    num::le_bytes(blob.len() as u64) + response::encode_items(
        outboards::tree_of(blob, log).pre_order_plan(b),
        pairs,
        blob,
    )
}

/// What a query gives of a blob: its size, and then the hash pairs and blocks of the
/// answer.
pub open spec fn given(
    blob: Seq<u8>,
    log: u8,
    b: Seq<u64>,
    pairs: Map<TreeNode, (Digest, Digest)>,
) -> Seq<ItemView> {
    let plan = outboards::tree_of(blob, log).pre_order_plan(b);
    Seq::new(
        plan.len() + 1,
        |i: int|
            if i == 0 {
                ItemView::Header { size: blob.len() as u64 }
            } else {
                decoded_from(plan[i - 1], bytes_of(plan[i - 1], pairs, blob))
            },
    )
}

/// Whether a blob with its outboard is asked for by a query of any number of ranges, in
/// order, that can be answered for it.
pub open spec fn well_asked(
    blob: Seq<u8>,
    log: u8,
    b: Seq<u64>,
    pairs: Map<TreeNode, (Digest, Digest)>,
) -> bool {
    &&& outboards::fits(blob, log)
    &&& outboards::is_outboard(pairs, blob, log as nat)
    &&& answerable(b, blob.len())
}

/// All that is known of a query that is well asked.
pub(crate) proof fn lemma_well_asked(
    blob: Seq<u8>,
    log: u8,
    b: Seq<u64>,
    pairs: Map<TreeNode, (Digest, Digest)>,
)
    requires
        well_asked(blob, log, b, pairs),
    ensures
        ({
            let tree = outboards::tree_of(blob, log);
            let root = hash::subtree_hash(blob, 0, true);
            let plan = tree.pre_order_plan(b);
            let views = round_trip::genuine_views(plan, pairs, blob);
            &&& tree.consistent(root, pairs, blob)
            &&& ranges::ranges_canonical(b, num::chunks_of(blob.len()))
            &&& round_trip::decoded_back(plan, seq![root], pairs, blob) == (Decoded {
                items: views,
                failure: None,
                rest: Seq::empty(),
            })
            &&& forall|i: int| 0 <= i < plan.len() ==> round_trip::item_in_blob(
                #[trigger] plan[i],
                blob,
            )
            &&& given(blob, log, b, pairs) == seq![ItemView::Header { size: blob.len() as u64 }]
                + views
        }),
{
    let tree = outboards::tree_of(blob, log);
    let root = hash::subtree_hash(blob, 0, true);
    let plan = tree.pre_order_plan(b);
    let views = round_trip::genuine_views(plan, pairs, blob);
    outboards::lemma_outboard_consistent(pairs, blob, log);
    crate::laws::numbers::law_canonical_queries(b, blob.len());
    tree.lemma_plan_decoded_back(b, root, pairs, blob);
    tree.lemma_pre_plan(b);
    assert forall|i: int| 0 <= i < plan.len() implies round_trip::item_in_blob(
        #[trigger] plan[i],
        blob,
    ) by {}
    assert forall|i: int| 0 <= i < plan.len() implies decoded_from(
        #[trigger] plan[i],
        bytes_of(plan[i], pairs, blob),
    ) == views[i] by {
        let bytes = bytes_of(plan[i], pairs, blob);
        if plan[i] is Parent {
            assert(bytes.take(32) =~= bytes.subrange(0, 32));
            assert(bytes.skip(32) =~= bytes.subrange(32, bytes.len() as int));
        }
    }
    assert(given(blob, log, b, pairs) =~= seq![ItemView::Header { size: blob.len() as u64 }]
        + views);
}

/// What is behind the items is left.
proof fn lemma_left_over(
    items: Seq<BaoChunk>,
    stack: Seq<Seq<u8>>,
    pairs: Map<TreeNode, (Digest, Digest)>,
    blob: Seq<u8>,
    more: Seq<u8>,
)
    requires
        forall|i: int| 0 <= i < items.len() ==> round_trip::item_in_blob(#[trigger] items[i], blob),
        round_trip::decoded_back(items, stack, pairs, blob).failure is None,
    ensures
        response::decode_items(items, stack, response::encode_items(items, pairs, blob) + more) == (
        Decoded {
            items: round_trip::decoded_back(items, stack, pairs, blob).items,
            failure: None,
            rest: more,
        }),
    decreases items.len(),
{
    let encoded = response::encode_items(items, pairs, blob);
    if items.len() == 0 {
        assert(encoded + more =~= more);
    } else {
        let n = response::item_len(items[0]) as int;
        let bytes = response::item_bytes(items[0], pairs, blob);
        let rest = items.drop_first();
        assert(round_trip::item_in_blob(items[0], blob));
        assert(bytes.len() == n);
        assert(encoded.take(n) =~= bytes);
        assert(encoded.skip(n) =~= response::encode_items(rest, pairs, blob));
        assert((encoded + more).take(n) =~= bytes);
        assert((encoded + more).skip(n) =~= response::encode_items(rest, pairs, blob) + more);
        assert forall|i: int| 0 <= i < rest.len() implies round_trip::item_in_blob(
            #[trigger] rest[i],
            blob,
        ) by {
            assert(rest[i] == items[i + 1]);
        }
        let next = response::check_item(items[0], stack, bytes)->Some_0;
        lemma_left_over(rest, next, pairs, blob, more);
    }
}

/// Whatever the blob, the size of its blocks and the query, with any number of ranges:
/// the response is decoded, with the BLAKE3 hash of the blob, without a failure. It gives
/// exactly what the query asks for, with the bytes of the blob in every chunk of the
/// query, and what is behind the response is left.
pub proof fn law_any_query_is_answered(
    blob: Seq<u8>,
    log: u8,
    b: Seq<u64>,
    pairs: Map<TreeNode, (Digest, Digest)>,
    more: Seq<u8>,
)
    requires
        blob.len() <= u64::MAX,
        1024 * pow2(log as nat) <= isize::MAX,
        outboards::is_outboard(pairs, blob, log as nat),
        forall|i: int| 0 <= i < b.len() ==> (#[trigger] b[i] == 0 || 1024 * b[i] < blob.len()),
    ensures
        response::encode_response(outboards::tree_of(blob, log), pairs, b, blob) == response_to(
            blob,
            log,
            b,
            pairs,
        ),
        response::decode_response(
            hash::subtree_hash(blob, 0, true),
            BlockSize(log),
            b,
            response_to(blob, log, b, pairs) + more,
        ) == (Decoded { items: given(blob, log, b, pairs), failure: None, rest: more }),
        forall|x: int|
            0 <= x < blob.len() && #[trigger] ranges::in_ranges(b, x / 1024) ==> exists|i: int|
                {
                    &&& 0 <= i < given(blob, log, b, pairs).len()
                    &&& #[trigger] given(blob, log, b, pairs)[i] matches ItemView::Leaf {
                        offset,
                        data,
                    }
                    &&& offset <= x < offset + data.len()
                    &&& data[x - offset] == blob[x]
                },
{
    let tree = outboards::tree_of(blob, log);
    let root = hash::subtree_hash(blob, 0, true);
    let plan = tree.pre_order_plan(b);
    let input = response_to(blob, log, b, pairs) + more;
    let items = given(blob, log, b, pairs);
    lemma_well_asked(blob, log, b, pairs);
    lemma_left_over(plan, seq![root], pairs, blob, more);
    num::law_le_bytes_read_back(blob.len() as u64);
    assert(input.take(8) =~= num::le_bytes(blob.len() as u64));
    assert(input.skip(8) =~= response::encode_items(plan, pairs, blob) + more);
    tree.lemma_views_cover(b, pairs, blob);
    assert forall|x: int|
        0 <= x < blob.len() && #[trigger] ranges::in_ranges(b, x / 1024) implies exists|i: int|
        {
            &&& 0 <= i < items.len()
            &&& #[trigger] items[i] matches ItemView::Leaf { offset, data }
            &&& offset <= x < offset + data.len()
            &&& data[x - offset] == blob[x]
        } by {
        tree.lemma_block_of(x);
        assert(tree.meets_block(b, tree.block_of(x)));
        assert(genuine::covered(items, x));
        let i = choose|i: int| 0 <= i < items.len() && genuine::view_covers(#[trigger] items[i], x);
        assert(genuine::view_genuine(items[i], blob));
        assert(items[i] is Leaf);
    }
}

/// Decoding goes on as long as the bytes are those of the response.
#[verifier::spinoff_prover]
#[verifier::rlimit(50)]
proof fn lemma_first_difference(
    items: Seq<BaoChunk>,
    stack: Seq<Seq<u8>>,
    input: Seq<u8>,
    k: int,
    pairs: Map<TreeNode, (Digest, Digest)>,
    blob: Seq<u8>,
)
    requires
        forall|i: int| 0 <= i < items.len() ==> round_trip::item_in_blob(#[trigger] items[i], blob),
        round_trip::decoded_back(items, stack, pairs, blob).failure is None,
        0 <= k < items.len(),
        ({
            let at = response::encode_items(items.take(k), pairs, blob);
            let n = response::item_len(items[k]) as int;
            &&& at.len() <= input.len()
            &&& input.take(at.len() as int) == at
            &&& input.len() < at.len() + n || input.subrange(at.len() as int, at.len() + n)
                != response::item_bytes(items[k], pairs, blob)
        }),
    ensures
        ({
            let at = response::encode_items(items.take(k), pairs, blob).len();
            let n = response::item_len(items[k]) as int;
            let run = response::decode_items(items, stack, input);
            let views = round_trip::genuine_views(items, pairs, blob);
            if input.len() < at + n {
                run == (Decoded {
                    items: views.take(k),
                    failure: Some(Failure::Eof),
                    rest: input.skip(at as int),
                })
            } else {
                ||| run == (Decoded {
                    items: views.take(k),
                    failure: Some(response::mismatch(items[k])),
                    rest: input.skip(at + n),
                })
                ||| hash_of(items[k], input.subrange(at as int, at + n)) == hash_of(
                    items[k],
                    response::item_bytes(items[k], pairs, blob),
                )
            }
        }),
    decreases k,
{
    let run = response::decode_items(items, stack, input);
    let views = round_trip::genuine_views(items, pairs, blob);
    let encoded = response::encode_items(items, pairs, blob);
    let n0 = response::item_len(items[0]) as int;
    let bytes = response::item_bytes(items[0], pairs, blob);
    assert(round_trip::item_in_blob(items[0], blob));
    assert(bytes.len() == n0);
    assert(encoded.take(n0) =~= bytes);
    assert(encoded.skip(n0) =~= response::encode_items(items.drop_first(), pairs, blob));
    let next = response::check_item(items[0], stack, bytes)->Some_0;
    assert(response::check_item(items[0], stack, bytes) is Some);
    if k == 0 {
        assert(items.take(0) =~= Seq::<BaoChunk>::empty());
        assert(input.skip(0) =~= input);
        if input.len() >= n0 {
            let payload = input.subrange(0, n0);
            assert(payload =~= input.take(n0));
            if items[0] is Parent {
                assert(payload.take(32) =~= payload.subrange(0, 32));
                assert(payload.skip(32) =~= payload.subrange(32, payload.len() as int));
                assert(bytes.take(32) =~= bytes.subrange(0, 32));
                assert(bytes.skip(32) =~= bytes.subrange(32, bytes.len() as int));
            }
        }
        assert(run.items.len() == 0 ==> run.items =~= views.take(0));
    } else {
        let rest = items.drop_first();
        let at = response::encode_items(items.take(k), pairs, blob);
        let at_rest = response::encode_items(rest.take(k - 1), pairs, blob);
        let n = response::item_len(items[k]) as int;
        assert(items.take(k).drop_first() =~= rest.take(k - 1));
        assert(items.take(k)[0] == items[0]);
        assert(at == bytes + at_rest);
        assert(input.take(n0) =~= at.take(n0));
        assert(at.take(n0) =~= bytes);
        assert(input.skip(n0).take(at_rest.len() as int) =~= at_rest) by {
            assert forall|i: int| 0 <= i < at_rest.len() implies input.skip(n0)[i]
                == #[trigger] at_rest[i] by {
                assert(input.take(at.len() as int)[n0 + i] == at[n0 + i]);
            }
        }
        assert(rest[k - 1] == items[k]);
        if input.len() >= at.len() + n {
            assert(input.skip(n0).subrange(at_rest.len() as int, at_rest.len() + n)
                =~= input.subrange(at.len() as int, at.len() + n));
        }
        assert forall|i: int| 0 <= i < rest.len() implies round_trip::item_in_blob(
            #[trigger] rest[i],
            blob,
        ) by {
            assert(rest[i] == items[i + 1]);
        }
        lemma_first_difference(rest, next, input.skip(n0), k - 1, pairs, blob);
        let tail_views = round_trip::genuine_views(rest, pairs, blob);
        assert(views.take(k) =~= seq![response::item_view(items[0], bytes)] + tail_views.take(
            k - 1,
        ));
        assert(input.skip(n0).skip(at_rest.len() as int) =~= input.skip(at.len() as int));
        if input.len() >= at.len() + n {
            assert(input.skip(n0).skip(at_rest.len() + n) =~= input.skip(at.len() + n));
        }
    }
}

/// Whatever the blob and the query: input that is the response up to item `k`, and
/// differs from it in that item, gives what is before the item and then fails. If the
/// item is cut short, it fails as input that ends too early; otherwise at the item, unless
/// the item has the hash of the right one.
pub proof fn law_decoding_stops_at_first_difference(
    blob: Seq<u8>,
    log: u8,
    b: Seq<u64>,
    pairs: Map<TreeNode, (Digest, Digest)>,
    input: Seq<u8>,
    k: int,
)
    requires
        blob.len() <= u64::MAX,
        1024 * pow2(log as nat) <= isize::MAX,
        outboards::is_outboard(pairs, blob, log as nat),
        forall|i: int| 0 <= i < b.len() ==> (#[trigger] b[i] == 0 || 1024 * b[i] < blob.len()),
        0 <= k < outboards::tree_of(blob, log).pre_order_plan(b).len(),
        ({
            let plan = outboards::tree_of(blob, log).pre_order_plan(b);
            let at = num::le_bytes(blob.len() as u64) + response::encode_items(
                plan.take(k),
                pairs,
                blob,
            );
            let bytes = bytes_of(plan[k], pairs, blob);
            &&& at.len() <= input.len()
            &&& input.take(at.len() as int) == at
            &&& input.len() < at.len() + bytes.len() || input.subrange(
                at.len() as int,
                (at.len() + bytes.len()) as int,
            ) != bytes
        }),
    ensures
        ({
            let plan = outboards::tree_of(blob, log).pre_order_plan(b);
            let at = 8 + response::encode_items(plan.take(k), pairs, blob).len();
            let bytes = bytes_of(plan[k], pairs, blob);
            let end = (at + bytes.len()) as int;
            let root = hash::subtree_hash(blob, 0, true);
            let run = response::decode_response(root, BlockSize(log), b, input);
            if input.len() < end {
                run == (Decoded {
                    items: given(blob, log, b, pairs).take(k + 1),
                    failure: Some(Failure::Eof),
                    rest: input.skip(at as int),
                })
            } else {
                ||| run == (Decoded {
                    items: given(blob, log, b, pairs).take(k + 1),
                    failure: Some(
                        match plan[k] {
                            BaoChunk::Parent { node, .. } => Failure::Parent(node),
                            BaoChunk::Leaf { start_chunk, .. } => Failure::Leaf(start_chunk),
                        },
                    ),
                    rest: input.skip(end),
                })
                ||| hash_of(plan[k], input.subrange(at as int, end)) == hash_of(plan[k], bytes)
            }
        }),
{
    let tree = outboards::tree_of(blob, log);
    let root = hash::subtree_hash(blob, 0, true);
    let plan = tree.pre_order_plan(b);
    let before = response::encode_items(plan.take(k), pairs, blob);
    let header = num::le_bytes(blob.len() as u64);
    let at = header + before;
    let bytes = bytes_of(plan[k], pairs, blob);
    lemma_well_asked(blob, log, b, pairs);
    num::law_le_bytes_read_back(blob.len() as u64);
    assert(round_trip::item_in_blob(plan[k], blob));
    assert(bytes.len() == response::item_len(plan[k]));
    assert(input.take(8) =~= header) by {
        assert(input.take(at.len() as int).take(8) =~= input.take(8));
        assert(at.take(8) =~= header);
    }
    let rest = input.skip(8);
    assert(rest.take(before.len() as int) =~= before) by {
        assert forall|i: int| 0 <= i < before.len() implies rest[i] == #[trigger] before[i] by {
            assert(input.take(at.len() as int)[8 + i] == at[8 + i]);
        }
    }
    if input.len() >= at.len() + bytes.len() {
        assert(rest.subrange(before.len() as int, (before.len() + bytes.len()) as int)
            =~= input.subrange(at.len() as int, (at.len() + bytes.len()) as int));
        assert(rest.skip((before.len() + bytes.len()) as int) =~= input.skip(
            (at.len() + bytes.len()) as int,
        ));
    }
    lemma_first_difference(plan, seq![root], rest, k, pairs, blob);
    assert(rest.skip(before.len() as int) =~= input.skip(at.len() as int));
    let views = round_trip::genuine_views(plan, pairs, blob);
    assert(given(blob, log, b, pairs).take(k + 1) =~= seq![
        ItemView::Header { size: blob.len() as u64 },
    ] + views.take(k));
}

/// Whether loading and reading for an encoder is sure not to fail.
pub open spec fn nothing_fails<D: SliceReader, O: Outboard>(data: &D, outboard: &O) -> bool {
    &&& data.len_known()
    &&& data.reliable()
    &&& forall|node: TreeNode| #[trigger] outboard.loads(node)
}

/// Whether encoding stopped at item `k`: the header and the items before it are put out,
/// and its bytes could not be had.
pub open spec fn stopped_before<D: SliceReader, O: Outboard>(
    data: &D,
    outboard: &O,
    b: Seq<u64>,
    before: Seq<u8>,
    e: std::io::Error,
    after: Seq<u8>,
    k: int,
) -> bool {
    let tree = outboard.spec_tree();
    let plan = tree.pre_order_plan(b);
    &&& 0 <= k < plan.len()
    &&& after == before + (num::le_bytes(tree.size.0) + response::encode_items(
        plan.take(k),
        outboard.pairs(),
        data.bytes(),
    ))
    &&& match plan[k] {
        BaoChunk::Parent { node, .. } => !outboard.loads(node) && outboard.load_errors(
            node,
        ).contains(e),
        BaoChunk::Leaf { .. } => !data.reliable() && data.errors().contains(e),
    }
    &&& forall|i: int|
        0 <= i < k ==> (#[trigger] plan[i] matches BaoChunk::Parent { node, .. }
            ==> !outboard.load_fails(node))
}

/// Encoding without checks gives an error if the length of the data is not that of the
/// outboard, or else if the query cannot be answered, and no other of its own. Otherwise,
/// unless loading or reading fails, the response is put out: the size, then the bytes of
/// each item.
#[verifier::spinoff_prover]
#[verifier::rlimit(50)]
pub proof fn law_encoding_without_checks<D: SliceReader, O: Outboard>(
    data: &D,
    outboard: &O,
    b: Seq<u64>,
    before: Seq<u8>,
    r: Result<(), EncodeError>,
    after: Seq<u8>,
)
    requires
        encode::encode_outcome(data, outboard, b, before, r, after),
    ensures
        ({
            let size = outboard.spec_tree().size.0;
            let plan = outboard.spec_tree().pre_order_plan(b);
            let same_size = data.bytes().len() == size;
            let answered = forall|i: int|
                0 <= i < b.len() ==> (#[trigger] b[i] == 0 || 1024 * b[i] < size);
            &&& r is Ok ==> same_size && answered && after == before + (num::le_bytes(size)
                + response::encode_items(plan, outboard.pairs(), data.bytes()))
            &&& r matches Err(e) ==> match e {
                EncodeError::SizeMismatch => !same_size && after == before,
                EncodeError::InvalidQueryRange => same_size && !answered && after == before,
                EncodeError::Io(e) => {
                    ||| !data.len_known() && data.errors().contains(e) && after == before
                    ||| same_size && answered && exists|k: int| #[trigger]
                        stopped_before(data, outboard, b, before, e, after, k)
                },
                _ => false,
            }
            &&& same_size && answered && nothing_fails(data, outboard) ==> r is Ok
            &&& !same_size && data.len_known() ==> (r matches Err(EncodeError::SizeMismatch))
            &&& same_size && !answered && data.len_known() ==> (r matches Err(
                EncodeError::InvalidQueryRange,
            ))
        }),
{
    let tree = outboard.spec_tree();
    let size = tree.size.0;
    let plan = tree.pre_order_plan(b);
    crate::laws::numbers::law_canonical_queries(b, size as nat);
    if let Err(EncodeError::Io(e)) = r {
        if !encode::stopped_early(data, before, e, after) {
            let k = choose|k: int| #[trigger]
                encode::stopped_at(data, outboard, b, before, e, after, k);
            lemma_stopped(data, outboard, b, before, e, after, k);
        }
    }
}

/// Where encoding stopped.
proof fn lemma_stopped<D: SliceReader, O: Outboard>(
    data: &D,
    outboard: &O,
    b: Seq<u64>,
    before: Seq<u8>,
    e: std::io::Error,
    after: Seq<u8>,
    k: int,
)
    requires
        encode::stopped_at(data, outboard, b, before, e, after, k),
    ensures
        stopped_before(data, outboard, b, before, e, after, k),
        encode::encodable(outboard.spec_tree(), b, data.bytes()),
{
    let plan = outboard.spec_tree().pre_order_plan(b);
    assert forall|i: int| 0 <= i < k implies (
    #[trigger] plan[i] matches BaoChunk::Parent { node, .. } ==> !outboard.load_fails(node)) by {
        assert(plan.take(k)[i] == plan[i]);
    }
}

/// Encoding with checks gives an error if the length of the data is not that of the
/// outboard, or else if the query cannot be answered. Otherwise, unless loading or reading
/// fails, it comes to what decoding the response without checks would: all of it is put
/// out, or what comes before the item at which decoding fails. With the outboard of the
/// data, and its hash, all of it is.
#[verifier::spinoff_prover]
#[verifier::rlimit(50)]
pub proof fn law_encoding_with_checks<D: SliceReader, O: Outboard>(
    data: &D,
    outboard: &O,
    b: Seq<u64>,
    before: Seq<u8>,
    r: Result<(), EncodeError>,
    after: Seq<u8>,
)
    requires
        encode::encode_validated_outcome(data, outboard, b, before, r, after),
        outboard.spec_tree().self_contained(),
    ensures
        ({
            let tree = outboard.spec_tree();
            let size = tree.size.0;
            let plan = tree.pre_order_plan(b);
            let same_size = data.bytes().len() == size;
            let answered = forall|i: int|
                0 <= i < b.len() ==> (#[trigger] b[i] == 0 || 1024 * b[i] < size);
            let whole = num::le_bytes(size) + response::encode_items(
                plan,
                outboard.pairs(),
                data.bytes(),
            );
            let run = response::decode_response(
                outboard.spec_root().0@,
                tree.block_size,
                b,
                whole,
            );
            let n = run.items.len() - 1;
            let put_out = before + (num::le_bytes(size) + response::encode_items(
                plan.take(n),
                outboard.pairs(),
                data.bytes(),
            ));
            &&& r is Ok ==> same_size && answered && run.failure is None && after == before + whole
            &&& r matches Err(e) ==> match e {
                EncodeError::SizeMismatch => !same_size && after == before,
                EncodeError::InvalidQueryRange => same_size && !answered && after == before,
                EncodeError::ParentHashMismatch(node) => same_size && answered && run.failure
                    == Some(Failure::Parent(node)) && after == put_out,
                EncodeError::LeafHashMismatch(chunk) => same_size && answered && run.failure
                    == Some(Failure::Leaf(chunk)) && after == put_out,
                EncodeError::Io(e) => {
                    ||| !data.len_known() && data.errors().contains(e) && after == before
                    ||| same_size && answered && exists|k: int|
                        k <= n && #[trigger] stopped_before(
                            data,
                            outboard,
                            b,
                            before,
                            e,
                            after,
                            k,
                        )
                },
            }
            &&& same_size && answered && nothing_fails(data, outboard) && run.failure is None
                ==> r is Ok
            &&& same_size && answered && nothing_fails(data, outboard) && outboards::is_outboard(
                outboard.pairs(),
                data.bytes(),
                tree.block_size.0 as nat,
            ) && outboard.spec_root().0@ == hash::subtree_hash(data.bytes(), 0, true) ==> r is Ok
            &&& !same_size && data.len_known() ==> (r matches Err(EncodeError::SizeMismatch))
            &&& same_size && !answered && data.len_known() ==> (r matches Err(
                EncodeError::InvalidQueryRange,
            ))
        }),
{
    let tree = outboard.spec_tree();
    let size = tree.size.0;
    let plan = tree.pre_order_plan(b);
    let root = outboard.spec_root()@;
    let blob = data.bytes();
    let pairs = outboard.pairs();
    crate::laws::numbers::law_canonical_queries(b, size as nat);
    if encode::encodable(tree, b, blob) {
        round_trip::law_decoding_finds_what_validation_finds(tree, b, root, pairs, blob);
        let run = response::decode_response(
            root,
            tree.block_size,
            b,
            response::encode_response(tree, pairs, b, blob),
        );
        assert(run.items.len() - 1 == encode::checked_run(data, outboard, b).items.len());
        if outboards::is_outboard(pairs, blob, tree.block_size.0 as nat) && root
            == hash::subtree_hash(blob, 0, true) {
            assert(tree == outboards::tree_of(blob, tree.block_size.0));
            lemma_well_asked(blob, tree.block_size.0, b, pairs);
        }
    }
    if let Err(EncodeError::Io(e)) = r {
        if !encode::stopped_early(data, before, e, after) {
            let k = choose|k: int|
                k <= encode::checked_run(data, outboard, b).items.len()
                    && #[trigger] encode::stopped_at(data, outboard, b, before, e, after, k);
            lemma_stopped(data, outboard, b, before, e, after, k);
        }
    }
}

/// What encoding asks of an outboard: the hash pairs of the answer up to the first that is
/// sure not to be loaded. The outboard of a blob has them for every query.
pub proof fn law_outboards_can_be_encoded<D: SliceReader, O: Outboard>(
    data: &D,
    outboard: &O,
    b: Seq<u64>,
)
    requires
        outboard.spec_tree().self_contained(),
    ensures
        ({
            let plan = outboard.spec_tree().pre_order_plan(b);
            let blob = data.bytes();
            &&& outboards::is_outboard(
                outboard.pairs(),
                blob,
                outboard.spec_tree().block_size.0 as nat,
            ) && blob.len() == outboard.spec_tree().size.0 ==> encode::has_pairs_to_load(
                plan,
                outboard,
            ) && encode::has_pairs_to_load(encode::looked_at(data, outboard, b), outboard)
            &&& (forall|i: int|
                0 <= i < plan.len() ==> (#[trigger] plan[i] matches BaoChunk::Parent { node, .. }
                    ==> outboard.pairs().contains_key(node) || exists|j: int|
                    0 <= j <= i && (#[trigger] plan[j] matches BaoChunk::Parent { node: n, .. }
                        && outboard.load_fails(n)))) ==> encode::has_pairs_to_load(
                plan,
                outboard,
            ) && encode::has_pairs_to_load(encode::looked_at(data, outboard, b), outboard)
        }),
{
    let tree = outboard.spec_tree();
    let plan = tree.pre_order_plan(b);
    let blob = data.bytes();
    let pairs = outboard.pairs();
    if outboards::is_outboard(pairs, blob, tree.block_size.0 as nat) && blob.len() == tree.size.0 {
        let root = hash::subtree_hash(blob, 0, true);
        assert(tree == outboards::tree_of(blob, tree.block_size.0));
        outboards::lemma_outboard_consistent(pairs, blob, tree.block_size.0);
        round_trip::law_consistent_outboard_can_be_encoded(tree, b, root, pairs, blob);
        encode::law_full_outboard_can_be_encoded(data, outboard, b);
    }
    if forall|i: int|
        0 <= i < plan.len() ==> (#[trigger] plan[i] matches BaoChunk::Parent { node, .. }
            ==> pairs.contains_key(node) || exists|j: int|
            0 <= j <= i && (#[trigger] plan[j] matches BaoChunk::Parent { node: n, .. }
                && outboard.load_fails(n))) {
        assert(plan =~= plan.take(plan.len() as int));
        lemma_pairs_to_load(plan, plan, outboard);
        lemma_pairs_to_load(encode::looked_at(data, outboard, b), plan, outboard);
    }
}

/// The first of the items have the hash pairs to load that all of them have.
proof fn lemma_pairs_to_load<O: Outboard>(
    items: Seq<BaoChunk>,
    plan: Seq<BaoChunk>,
    outboard: &O,
)
    requires
        items.len() <= plan.len(),
        items == plan.take(items.len() as int),
        forall|i: int|
            0 <= i < plan.len() ==> (#[trigger] plan[i] matches BaoChunk::Parent { node, .. }
                ==> outboard.pairs().contains_key(node) || exists|j: int|
                0 <= j <= i && (#[trigger] plan[j] matches BaoChunk::Parent { node: n, .. }
                    && outboard.load_fails(n))),
    ensures
        encode::has_pairs_to_load(items, outboard),
{
    assert forall|i: int|
        0 <= i < items.len() && encode::items_can_pass(items.take(i + 1), outboard) implies (
    #[trigger] items[i] matches BaoChunk::Parent { node, .. } ==> outboard.pairs().contains_key(
        node,
    )) by {
        assert(items[i] == plan[i]);
        if let BaoChunk::Parent { node, .. } = plan[i] {
            if !outboard.pairs().contains_key(node) {
                let j = choose|j: int|
                    0 <= j <= i && (#[trigger] plan[j] matches BaoChunk::Parent { node: n, .. }
                        && outboard.load_fails(n));
                assert(items.take(i + 1)[j] == plan[j]);
            }
        }
    }
}

} // verus!
