//! What is put into stores and files, and what is read from them.
use vstd::prelude::*;

use crate::decode;
use crate::decode::{DecodeResponseItem, Header, Leaf, Parent};
use crate::encode;
use crate::error;
use crate::error::DecodeError;
use crate::buffer;
use crate::hash;
use crate::hash::Digest;
use crate::io;
use crate::io::{Outboard, OutboardMut, SliceReader, SliceWriter};
use crate::iter::BaoChunk;
use crate::node::TreeNode;
use crate::num::ByteNum;
use crate::ranges;
use crate::response::{Decoded, Failure, ItemView};
use crate::tree::BaoTree;

verus! {

/// A slice that is there has its bytes in order; one without bytes is always there.
pub proof fn law_slices(bytes: Seq<u8>, offset: nat, len: nat, i: int)
    ensures
        io::has_slice(bytes, offset, len) <==> len == 0 || offset + len <= bytes.len(),
        io::has_slice(bytes, offset, len) ==> io::slice_at(bytes, offset, len).len() == len,
        io::has_slice(bytes, offset, len) && 0 <= i < len ==> io::slice_at(bytes, offset, len)[i]
            == bytes[offset + i],
{
}

/// Writing puts bytes at their offset, keeps the others, and extends with zeros up to an
/// offset past the end. A write that fails has got through a first part.
pub proof fn law_writing(bytes: Seq<u8>, offset: nat, src: Seq<u8>, after: Seq<u8>)
    ensures
        ({
            let end = offset + src.len();
            let new = io::spliced(bytes, offset, src);
            &&& src.len() == 0 ==> new == bytes
            &&& src.len() > 0 ==> new.len() == (if end > bytes.len() {
                end
            } else {
                bytes.len()
            }) && forall|i: int|
                0 <= i < new.len() ==> #[trigger] new[i] == (if offset <= i < end {
                    src[i - offset]
                } else if i < bytes.len() {
                    bytes[i]
                } else {
                    0
                })
            &&& io::partly_spliced(bytes, offset, src, after) <==> exists|n: int|
                0 <= n <= src.len() && after == #[trigger] io::spliced(bytes, offset, src.take(n))
        }),
{
}

/// An outboard that is lent is the one that it is lent from.
pub proof fn law_lent_outboards<O: Outboard>(outboard: &O, node: TreeNode)
    ensures
        (&outboard).spec_root() == outboard.spec_root(),
        (&outboard).spec_tree() == outboard.spec_tree(),
        (&outboard).pairs() == outboard.pairs(),
        (&outboard).loads(node) == outboard.loads(node),
        (&outboard).load_fails(node) == outboard.load_fails(node),
        (&outboard).load_errors(node) == outboard.load_errors(node),
{
}

/// What comes out of a decoder, by its parts.
pub proof fn law_views_of_items(header: Header, parent: Parent, leaf: Leaf)
    ensures
        DecodeResponseItem::Header(header)@ == (ItemView::Header { size: header.size.0 }),
        DecodeResponseItem::Parent(parent)@ == (ItemView::Parent {
            node: parent.node,
            pair: (parent.pair.0.0@, parent.pair.1.0@),
        }),
        DecodeResponseItem::Leaf(leaf)@ == (ItemView::Leaf {
            offset: leaf.offset.0 as nat,
            data: buffer::bytes_contents(leaf.data),
        }),
{
}

/// One item more: a block is written over what is there, a hash pair is stored for its
/// node in place of any other, a header sets the size. It takes its bytes off the input.
pub proof fn law_one_item_more(
    items: Seq<ItemView>,
    item: ItemView,
    bytes: Seq<u8>,
    pairs: Map<TreeNode, (Digest, Digest)>,
    tree: BaoTree,
)
    ensures
        ({
            let all = items.push(item);
            let written = decode::blocks_written(items, bytes);
            let saved = decode::pairs_saved(items, pairs);
            &&& decode::blocks_written(Seq::empty(), bytes) == bytes
            &&& decode::pairs_saved(Seq::empty(), pairs) == pairs
            &&& decode::size_set(Seq::empty(), tree) == tree
            &&& decode::views_len(Seq::empty()) == 0
            &&& match item {
                ItemView::Header { size } => {
                    &&& decode::blocks_written(all, bytes) == written
                    &&& decode::pairs_saved(all, pairs) == saved
                    &&& decode::size_set(all, tree) == (BaoTree { size: ByteNum(size), ..tree })
                    &&& decode::views_len(all) == decode::views_len(items) + 8
                },
                ItemView::Parent { node, pair } => {
                    let kept = decode::pairs_saved(all, pairs);
                    &&& decode::blocks_written(all, bytes) == written
                    &&& pair.0.len() == 32 && pair.1.len() == 32 ==> kept.contains_key(node)
                        && kept[node].0.0@ == pair.0 && kept[node].1.0@ == pair.1
                    &&& forall|n: TreeNode|
                        n != node ==> #[trigger] kept.contains_key(n) == saved.contains_key(n) && (
                        saved.contains_key(n) ==> kept[n] == saved[n])
                    &&& decode::size_set(all, tree) == decode::size_set(items, tree)
                    &&& decode::views_len(all) == decode::views_len(items) + 64
                },
                ItemView::Leaf { offset, data } => {
                    &&& decode::blocks_written(all, bytes) == io::spliced(written, offset, data)
                    &&& decode::pairs_saved(all, pairs) == saved
                    &&& decode::size_set(all, tree) == decode::size_set(items, tree)
                    &&& decode::views_len(all) == decode::views_len(items) + data.len()
                },
            }
        }),
{
    let all = items.push(item);
    assert(all.drop_last() =~= items);
    if let ItemView::Parent { node, pair } = item {
        if pair.0.len() == 32 && pair.1.len() == 32 {
            hash::lemma_digest_bytes(pair.0);
            hash::lemma_digest_bytes(pair.1);
        }
    }
}

/// Which call puts an item where it belongs, and that there is one for each, in order.
pub proof fn law_one_call_for_each_item<O: OutboardMut, W: SliceWriter>(
    items: Seq<ItemView>,
    item: ItemView,
    failed: Option<std::io::Error>,
    outboard: O,
    target: W,
    outboard_after: O,
    target_after: W,
)
    ensures
        decode::items_put(Seq::empty(), outboard, target, outboard_after, target_after)
            <==> outboard_after == outboard && target_after == target,
        decode::items_put(items.push(item), outboard, target, outboard_after, target_after)
            <==> exists|o: O, t: W|
            decode::items_put(items, outboard, target, o, t) && #[trigger] decode::item_put(
                item,
                o,
                t,
                None,
                outboard_after,
                target_after,
            ),
        decode::item_put(item, outboard, target, failed, outboard_after, target_after)
            <==> match item {
            ItemView::Header { size } => outboard.size_put(ByteNum(size), failed, &outboard_after)
                && target_after == target,
            ItemView::Parent { node, pair } => outboard.pair_put(
                node,
                (hash::digest_of(pair.0), hash::digest_of(pair.1)),
                failed,
                &outboard_after,
            ) && target_after == target,
            ItemView::Leaf { offset, data } => target.slice_put(
                offset as u64,
                data,
                failed,
                &target_after,
            ) && outboard_after == outboard,
        },
{
    let all = items.push(item);
    assert(all.drop_last() =~= items);
    assert(all.last() == item);
    if decode::items_put(all, outboard, target, outboard_after, target_after) {
        let (o, t) = choose|o: O, t: W|
            decode::items_put(all.drop_last(), outboard, target, o, t)
                && #[trigger] decode::item_put(
                all.last(),
                o,
                t,
                None,
                outboard_after,
                target_after,
            );
        assert(decode::items_put(items, outboard, target, o, t) && decode::item_put(
            item,
            o,
            t,
            None,
            outboard_after,
            target_after,
        ));
    }
    if exists|o: O, t: W|
        decode::items_put(items, outboard, target, o, t) && #[trigger] decode::item_put(
            item,
            o,
            t,
            None,
            outboard_after,
            target_after,
        ) {
        let (o, t) = choose|o: O, t: W|
            decode::items_put(items, outboard, target, o, t) && #[trigger] decode::item_put(
                item,
                o,
                t,
                None,
                outboard_after,
                target_after,
            );
        assert(decode::items_put(all.drop_last(), outboard, target, o, t) && decode::item_put(
            all.last(),
            o,
            t,
            None,
            outboard_after,
            target_after,
        ));
    }
}

/// Whether decoding ended because item `k` could not be put where it belongs: those before
/// it were, the call for it failed and was the last, and the input behind it is left.
pub open spec fn ended_at<O: OutboardMut, W: SliceWriter>(
    items: Seq<ItemView>,
    k: int,
    e: std::io::Error,
    input: Seq<u8>,
    rest: Seq<u8>,
    outboard: O,
    o: O,
    outboard_after: O,
    target: W,
    t: W,
    target_after: W,
) -> bool {
    &&& 0 <= k < items.len()
    &&& if items[k] is Leaf {
        !target.reliable() && target.errors().contains(e)
    } else {
        !outboard.reliable() && outboard.errors().contains(e)
    }
    &&& decode::items_put(items.take(k), outboard, target, o, t)
    &&& all_arrived(items.take(k), outboard, o, target, t)
    &&& decode::item_put(items[k], o, t, Some(e), outboard_after, target_after)
    &&& rest == input.skip(decode::views_len(items.take(k + 1)) as int)
    &&& items[k] is Parent ==> outboard_after.spec_tree() == o.spec_tree()
    &&& items[k] matches ItemView::Leaf { offset, data } ==> io::partly_spliced(
        t.bytes(),
        offset,
        data,
        target_after.bytes(),
    )
}

/// Whether a store and a target have what some items give, and nothing else has changed.
pub open spec fn all_arrived<O: OutboardMut, W: SliceWriter>(
    items: Seq<ItemView>,
    outboard: O,
    outboard_after: O,
    target: W,
    target_after: W,
) -> bool {
    &&& target_after.bytes() == decode::blocks_written(items, target.bytes())
    &&& outboard_after.spec_tree() == decode::size_set(items, outboard.spec_tree())
    &&& items.len() == 0 ==> outboard_after == outboard
    &&& items.len() > 0 ==> (items[0] matches ItemView::Header { size } && outboard_after.pairs()
        == decode::pairs_saved(items, outboard.resized(ByteNum(size))))
}

/// Decoding into a store and a target that do not fail comes to what the input decodes to:
/// all items are put where they belong, whatever comes after them, and the result is `Ok`
/// if and only if there is no failure, and otherwise the error that the failure is. With
/// others it may also end at an item that cannot be put where it belongs.
pub proof fn law_decoding_into_a_store<O: OutboardMut, W: SliceWriter>(
    run: Decoded,
    input: Seq<u8>,
    r: Result<(), DecodeError>,
    rest: Seq<u8>,
    outboard: O,
    outboard_after: O,
    target: W,
    target_after: W,
)
    requires
        decode::decode_outcome(
            run,
            input,
            r,
            rest,
            outboard,
            outboard_after,
            target,
            target_after,
        ),
    ensures
        ({
            let through = {
                &&& rest == run.rest
                &&& all_arrived(run.items, outboard, outboard_after, target, target_after)
                &&& decode::items_put(run.items, outboard, target, outboard_after, target_after)
                &&& r is Ok <==> run.failure is None
                &&& r matches Err(e) ==> match run.failure {
                    None => false,
                    Some(Failure::Eof) => e matches DecodeError::Io(e) && error::is_unexpected_eof(
                        e,
                    ),
                    Some(Failure::InvalidQueryRange) => e is InvalidQueryRange,
                    Some(Failure::Parent(node)) => e matches DecodeError::ParentHashMismatch(n)
                        && n == node,
                    Some(Failure::Leaf(chunk)) => e matches DecodeError::LeafHashMismatch(c) && c
                        == chunk,
                }
            };
            &&& outboard.reliable() && target.reliable() ==> through
            &&& r is Ok ==> through
            &&& through || (r matches Err(DecodeError::Io(e)) && exists|k: int, o: O, t: W|
                ended_at(
                    run.items,
                    k,
                    e,
                    input,
                    rest,
                    outboard,
                    o,
                    outboard_after,
                    target,
                    t,
                    target_after,
                ))
        }),
{
    if let Err(DecodeError::Io(e)) = r {
        if decode::put_failed(
            run.items,
            e,
            input,
            rest,
            outboard,
            outboard_after,
            target,
            target_after,
        ) {
            let (k, o, t) = choose|k: int, o: O, t: W|
                decode::put_stopped(
                    run.items,
                    k,
                    e,
                    input,
                    rest,
                    outboard,
                    o,
                    outboard_after,
                    target,
                    t,
                    target_after,
                );
            assert(ended_at(
                run.items,
                k,
                e,
                input,
                rest,
                outboard,
                o,
                outboard_after,
                target,
                t,
                target_after,
            ));
        }
    }
}

/// The ranges of a set are written from the first to the last, each from its first boundary
/// to the one that follows, or to the end of the source.
pub proof fn law_slices_of_ranges(from: Seq<u8>, b: Seq<u64>, i: int)
    ensures
        io::slices_of(from, b).len() == (b.len() + 1) / 2,
        0 <= 2 * i < b.len() ==> io::slices_of(from, b)[i].0 == b[2 * i],
        0 <= 2 * i && 2 * i + 1 < b.len() ==> io::slices_of(from, b)[i].1 == from.subrange(
            b[2 * i] as int,
            b[2 * i + 1] as int,
        ),
        0 <= 2 * i && 2 * i + 1 == b.len() ==> io::slices_of(from, b)[i].1 == from.subrange(
            b[2 * i] as int,
            from.len() as int,
        ),
{
}

/// Slices are written by one call for each, in order, up to the first that fails.
pub proof fn law_one_call_for_each_slice<W: SliceWriter>(
    slices: Seq<(u64, Seq<u8>)>,
    slice: (u64, Seq<u8>),
    before: W,
    e: std::io::Error,
    after: W,
)
    ensures
        io::slices_put(Seq::empty(), before, after) <==> after == before,
        io::slices_put(slices.push(slice), before, after) <==> exists|to: W|
            io::slices_put(slices, before, to) && #[trigger] to.slice_put(
                slice.0,
                slice.1,
                None,
                &after,
            ),
        io::slices_stopped(slices, before, e, after) ==> exists|k: int, to: W|
            0 <= k < slices.len() && io::slices_put(slices.take(k), before, to)
                && #[trigger] to.slice_put(slices[k].0, slices[k].1, Some(e), &after),
{
    let all = slices.push(slice);
    assert(all.drop_last() =~= slices);
    assert(all.last() == slice);
    if io::slices_put(all, before, after) {
        let to = choose|to: W|
            io::slices_put(all.drop_last(), before, to) && #[trigger] to.slice_put(
                all.last().0,
                all.last().1,
                None,
                &after,
            );
        assert(io::slices_put(slices, before, to) && to.slice_put(slice.0, slice.1, None, &after));
    }
    if exists|to: W|
        io::slices_put(slices, before, to) && #[trigger] to.slice_put(
            slice.0,
            slice.1,
            None,
            &after,
        ) {
        let to = choose|to: W|
            io::slices_put(slices, before, to) && #[trigger] to.slice_put(
                slice.0,
                slice.1,
                None,
                &after,
            );
        assert(io::slices_put(all.drop_last(), before, to) && to.slice_put(
            all.last().0,
            all.last().1,
            None,
            &after,
        ));
    }
    if io::slices_stopped(slices, before, e, after) {
        let (k, to) = choose|k: int, to: W|
            io::slices_stopped_at(slices, k, before, to, e, after);
        assert(to.slice_put(slices[k].0, slices[k].1, Some(e), &after));
    }
}

/// What has been written of some ranges, up to an offset: the bytes of the source in the
/// ranges, and elsewhere what was there, or zeros.
pub proof fn law_ranges_written(
    old_bytes: Seq<u8>,
    from: Seq<u8>,
    b: Seq<u64>,
    end: nat,
    new_bytes: Seq<u8>,
    x: int,
)
    requires
        io::ranges_written(old_bytes, from, b, end, new_bytes),
        0 <= x,
    ensures
        x < end && ranges::in_ranges(b, x) ==> x < new_bytes.len() && new_bytes[x] == from[x],
        !(x < end && ranges::in_ranges(b, x)) && x < old_bytes.len() ==> x < new_bytes.len()
            && new_bytes[x] == old_bytes[x],
        !(x < end && ranges::in_ranges(b, x)) && old_bytes.len() <= x < new_bytes.len()
            ==> new_bytes[x] == 0,
        new_bytes.len() > old_bytes.len() ==> new_bytes.len() <= end && ranges::in_ranges(
            b,
            new_bytes.len() - 1,
        ),
{
}

/// What encoding one item asks for, and how it can fail.
pub proof fn law_encoding_one_item<D: SliceReader, O: Outboard>(
    item: BaoChunk,
    data: &D,
    outboard: &O,
    e: std::io::Error,
    room: nat,
)
    ensures
        ({
            let available = encode::item_available(item, outboard, data.bytes(), room);
            let can_fail = encode::item_can_fail(item, data, outboard, e);
            let can_pass = encode::items_can_pass(seq![item], outboard);
            match item {
                BaoChunk::Parent { node, .. } => {
                    &&& available <==> outboard.pairs().contains_key(node) || outboard.load_fails(
                        node,
                    )
                    &&& can_fail <==> !outboard.loads(node) && outboard.load_errors(
                        node,
                    ).contains(e)
                    &&& can_pass <==> !outboard.load_fails(node)
                },
                BaoChunk::Leaf { size, start_chunk, .. } => {
                    &&& available <==> 1024 * start_chunk.0 + size <= data.bytes().len() && 1024
                        * start_chunk.0 + size <= u64::MAX && size <= room
                    &&& can_fail <==> !data.reliable() && data.errors().contains(e)
                    &&& can_pass
                },
            }
        }),
{
    assert(seq![item][0] == item);
}

} // verus!
