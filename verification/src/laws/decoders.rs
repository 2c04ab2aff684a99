//! What a decoder does, one step at a time.
use vstd::prelude::*;

use crate::decode::{DecodeResponseItem, DecodeResponseIter, PositionView};
use crate::error;
use crate::error::DecodeError;
use crate::iter::BaoChunk;
use crate::laws::responses;
use crate::num;
use crate::num::{ByteNum, ChunkNum};
use crate::response;
use crate::response::{Decoded, Failure, ItemView};
use crate::tree::BaoTree;

verus! {

/// How many bytes an item has.
pub open spec fn len_of(item: BaoChunk) -> int {
    match item {
        BaoChunk::Parent { .. } => 64,
        BaoChunk::Leaf { size, .. } => size as int,
    }
}

/// The hashes that are expected once an item has been accepted.
pub open spec fn expected_after(item: BaoChunk, stack: Seq<Seq<u8>>, bytes: Seq<u8>) -> Seq<
    Seq<u8>,
> {
    let rest = stack.take(stack.len() - 1);
    match item {
        BaoChunk::Leaf { .. } => rest,
        BaoChunk::Parent { left, right, .. } => {
            let (l, r) = (bytes.subrange(0, 32), bytes.subrange(32, 64));
            if left && right {
                rest.push(r).push(l)
            } else if left {
                rest.push(l)
            } else if right {
                rest.push(r)
            } else {
                rest
            }
        },
    }
}

/// The failure of an item.
pub open spec fn failure_of(item: BaoChunk) -> Failure {
    match item {
        BaoChunk::Parent { node, .. } => Failure::Parent(node),
        BaoChunk::Leaf { start_chunk, .. } => Failure::Leaf(start_chunk),
    }
}

/// Whatever is expected, and whatever the input: an item that the input does not have is
/// a failure that takes nothing, one without the hash that is expected a failure that
/// takes the item, and behind one with that hash decoding goes on with the input that is
/// left.
pub proof fn law_decoding_item_by_item(
    item: BaoChunk,
    more: Seq<BaoChunk>,
    stack: Seq<Seq<u8>>,
    input: Seq<u8>,
)
    requires
        stack.len() > 0,
    ensures
        response::decode_items(Seq::empty(), stack, input) == (Decoded {
            items: Seq::empty(),
            failure: None,
            rest: input,
        }),
        ({
            let n = len_of(item);
            let bytes = input.take(n);
            let run = response::decode_items(seq![item] + more, stack, input);
            if input.len() < n {
                run == (Decoded {
                    items: Seq::empty(),
                    failure: Some(Failure::Eof),
                    rest: input,
                })
            } else if responses::hash_of(item, bytes) != stack[stack.len() - 1] {
                run == (Decoded {
                    items: Seq::empty(),
                    failure: Some(failure_of(item)),
                    rest: input.skip(n),
                })
            } else {
                let tail = response::decode_items(
                    more,
                    expected_after(item, stack, bytes),
                    input.skip(n),
                );
                run == (Decoded {
                    items: seq![responses::decoded_from(item, bytes)] + tail.items,
                    failure: tail.failure,
                    rest: tail.rest,
                })
            }
        }),
{
    let items = seq![item] + more;
    let n = len_of(item);
    assert(items.drop_first() =~= more);
    assert(items[0] == item);
    if input.len() >= n {
        responses::law_accepted_items(item, stack, input.take(n));
    }
}

/// Behind the header, the items of the answer to the query are decoded, with the root hash
/// expected first.
pub proof fn law_decoding_behind_the_header(
    root: Seq<u8>,
    block_size: crate::num::BlockSize,
    b: Seq<u64>,
    size: u64,
    input: Seq<u8>,
)
    requires
        input.len() >= 8,
        input.take(8) == num::le_bytes(size),
        forall|i: int| 0 <= i < b.len() ==> (#[trigger] b[i] == 0 || 1024 * b[i] < size),
    ensures
        ({
            let tree = BaoTree { size: ByteNum(size), block_size, start_chunk: ChunkNum(0) };
            let tail = response::decode_items(tree.pre_order_plan(b), seq![root], input.skip(8));
            response::decode_response(root, block_size, b, input) == (Decoded {
                items: seq![ItemView::Header { size }] + tail.items,
                failure: tail.failure,
                rest: tail.rest,
            })
        }),
{
    crate::laws::numbers::law_canonical_queries(b, size as nat);
    num::law_le_bytes_read_back(size);
}

/// What a decoder is still to give is what its part of the response decodes to. A step can
/// be taken as long as a hash is expected, or the input does not have the next item.
pub proof fn law_where_decoders_stand(decoder: DecodeResponseIter<'_>, input: Seq<u8>)
    ensures
        match decoder.position() {
            PositionView::Header { b, block_size } => {
                &&& decoder.pending(input) == response::decode_response(
                    decoder.expected()[0],
                    block_size,
                    b,
                    input,
                )
                &&& decoder.ready()
                &&& decoder.ready_for(input)
                &&& decoder.safe()
            },
            PositionView::Content { items, .. } => {
                &&& decoder.pending(input) == response::decode_items(
                    items,
                    decoder.expected(),
                    input,
                )
                &&& decoder.ready() <==> items.len() == 0 || decoder.expected().len() > 0
                &&& decoder.ready() ==> decoder.ready_for(input)
                &&& items.len() > 0 && input.len() < len_of(items[0]) ==> decoder.ready_for(input)
                &&& decoder.safe() ==> decoder.ready()
            },
        },
{
}

/// The step at the header: with eight bytes it gives the size and goes on to the items, or
/// refuses the query and stays; with fewer it stays. No hash is taken.
pub proof fn law_step_at_the_header<'a>(
    before: DecodeResponseIter<'a>,
    input: Seq<u8>,
    size: u64,
    r: Result<Option<DecodeResponseItem>, DecodeError>,
    after: DecodeResponseIter<'a>,
    rest: Seq<u8>,
)
    requires
        DecodeResponseIter::header_step(before, input, r, after, rest),
        input.len() >= 8 ==> input.take(8) == num::le_bytes(size),
    ensures
        after.expected() == before.expected(),
        after.buffered() == before.buffered(),
        before.position() matches PositionView::Header { b, block_size } && {
            let tree = BaoTree { size: ByteNum(size), block_size, start_chunk: ChunkNum(0) };
            let answered = forall|i: int|
                0 <= i < b.len() ==> (#[trigger] b[i] == 0 || 1024 * b[i] < size);
            if input.len() < 8 {
                &&& r matches Err(DecodeError::Io(e)) && error::is_unexpected_eof(e)
                &&& after.position() == before.position()
                &&& rest == input
            } else if answered {
                &&& r matches Ok(Some(item)) && item@ == (ItemView::Header { size })
                &&& after.position() == (PositionView::Content {
                    tree,
                    items: tree.pre_order_plan(b),
                })
                &&& rest == input.skip(8)
            } else {
                &&& r matches Err(DecodeError::InvalidQueryRange)
                &&& after.position() == before.position()
                &&& rest == input.skip(8)
            }
        },
{
    crate::laws::numbers::law_canonical_queries(before.position()->b, size as nat);
    num::law_le_bytes_read_back(size);
}

/// The step at an item. The item counts as taken in any case; its bytes do if they are
/// there, and the hash that was expected if it was compared. A block that does not match
/// stays in the buffer.
pub proof fn law_step_at_an_item<'a>(
    before: DecodeResponseIter<'a>,
    input: Seq<u8>,
    r: Result<Option<DecodeResponseItem>, DecodeError>,
    after: DecodeResponseIter<'a>,
    rest: Seq<u8>,
)
    requires
        DecodeResponseIter::item_step(before, input, r, after, rest),
        before.ready_for(input),
    ensures
        before.position() matches PositionView::Content { tree, items } && {
            let stack = before.expected();
            let n = len_of(items[0]);
            let bytes = input.take(n);
            if items.len() == 0 {
                &&& r matches Ok(None)
                &&& after == before
                &&& rest == input
            } else {
                &&& after.position() == (PositionView::Content { tree, items: items.skip(1) })
                &&& items[0] is Parent ==> after.buffered() == before.buffered()
                &&& if input.len() < n {
                    &&& r matches Err(DecodeError::Io(e)) && error::is_unexpected_eof(e)
                    &&& after.expected() == stack
                    &&& items[0] is Leaf ==> after.buffered().len() == n
                    &&& rest == input
                } else if responses::hash_of(items[0], bytes) != stack[stack.len() - 1] {
                    &&& match items[0] {
                        BaoChunk::Parent { node, .. } => r matches Err(
                            DecodeError::ParentHashMismatch(m),
                        ) && m == node,
                        BaoChunk::Leaf { start_chunk, .. } => r matches Err(
                            DecodeError::LeafHashMismatch(c),
                        ) && c == start_chunk,
                    }
                    &&& after.expected() == stack.take(stack.len() - 1)
                    &&& items[0] is Leaf ==> after.buffered() == bytes
                    &&& rest == input.skip(n)
                } else {
                    &&& r matches Ok(Some(item)) && item@ == responses::decoded_from(
                        items[0],
                        bytes,
                    )
                    &&& after.expected() == expected_after(items[0], stack, bytes)
                    &&& items[0] is Leaf ==> after.buffered() == Seq::<u8>::empty()
                    &&& rest == input.skip(n)
                }
            }
        },
{
    let items = before.position()->items;
    let stack = before.expected();
    if items.len() > 0 {
        let n = len_of(items[0]);
        assert(items.drop_first() =~= items.skip(1));
        if input.len() >= n {
            responses::law_accepted_items(items[0], stack, input.take(n));
            assert(stack.drop_last() =~= stack.take(stack.len() - 1));
        }
    }
}

} // verus!
