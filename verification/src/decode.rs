//! Decoding responses.
use bytes::{Bytes, BytesMut};
use range_collections::RangeSetRef;
use vstd::prelude::*;

use crate::buffer;
use crate::error;
use crate::error::DecodeError;
use crate::hash;
use crate::hash::{Digest, HashStack};
use crate::io;
use crate::io::{OutboardMut, SliceWriter};
use crate::iter::{BaoChunk, PreOrderChunkIterRef};
use crate::node::TreeNode;
use crate::num;
use crate::num::{BlockSize, ByteNum, ChunkNum};
use crate::ranges;
use crate::response;
use crate::response::{Decoded, Failure, ItemView};
use crate::source;
use crate::tree::BaoTree;

verus! {

/// The size of the blob.
#[derive(Debug)]
pub struct Header {
    /// The size, as the response claims it.
    pub size: ByteNum,
}

/// A hash pair that has been checked.
#[derive(Debug)]
pub struct Parent {
    /// The node that the pair is for.
    pub node: TreeNode,
    /// The hashes of the left and of the right child.
    pub pair: (Digest, Digest),
}

/// A block that has been checked.
#[derive(Debug)]
pub struct Leaf {
    /// Where the block is in the blob.
    pub offset: ByteNum,
    /// The bytes of the block.
    pub data: Bytes,
}

/// What a response decodes to, piece by piece.
#[derive(Debug)]
pub enum DecodeResponseItem {
    /// Comes first.
    Header(Header),
    /// Comes before the blocks below it.
    Parent(Parent),
    /// A block.
    Leaf(Leaf),
}

impl View for DecodeResponseItem {
    type V = ItemView;

    open spec fn view(&self) -> ItemView {
        match *self {
            DecodeResponseItem::Header(header) => ItemView::Header { size: header.size.0 },
            DecodeResponseItem::Parent(parent) => ItemView::Parent {
                node: parent.node,
                pair: (parent.pair.0@, parent.pair.1@),
            },
            DecodeResponseItem::Leaf(leaf) => ItemView::Leaf {
                offset: leaf.offset.0 as nat,
                data: buffer::bytes_contents(leaf.data),
            },
        }
    }
}

/// Where a decoder stands.
#[derive(Debug)]
enum Position<'a> {
    /// The header is still to come, so the size of the tree is not known.
    Header { ranges: &'a RangeSetRef<u64>, block_size: BlockSize },
    /// The header has been decoded: the item that is next, and those after it.
    Content { next: Option<BaoChunk>, iter: PreOrderChunkIterRef<'a> },
}

/// Where a decoder stands.
pub enum PositionView {
    /// The header is still to come.
    Header { b: Seq<u64>, block_size: BlockSize },
    /// The header has been decoded, and these items are still to come.
    Content { tree: BaoTree, items: Seq<BaoChunk> },
}

/// A decoder of one response. It is given the bytes of the response as they come,
/// those of one item at a time or more.
#[derive(Debug)]
pub struct DecodeResponseIter<'a> {
    inner: Position<'a>,
    stack: HashStack,
    buf: BytesMut,
}

/// Whether a failure and an error are the same.
pub open spec fn fails_as(failure: Failure, e: DecodeError) -> bool {
    match failure {
        Failure::Eof => e matches DecodeError::Io(e) && error::is_unexpected_eof(e),
        Failure::InvalidQueryRange => e is InvalidQueryRange,
        Failure::Parent(node) => e matches DecodeError::ParentHashMismatch(n) && n == node,
        Failure::Leaf(chunk) => e matches DecodeError::LeafHashMismatch(c) && c == chunk,
    }
}

impl<'a> DecodeResponseIter<'a> {
    /// Where the decoder stands.
    pub closed spec fn position(self) -> PositionView {
        match self.inner {
            Position::Header { ranges, block_size } => PositionView::Header {
                b: ranges::boundaries_of(ranges),
                block_size,
            },
            Position::Content { next, iter } => PositionView::Content {
                tree: iter.spec_tree(),
                items: match next {
                    None => Seq::empty(),
                    Some(item) => seq![item] + iter.remaining(),
                },
            },
        }
    }

    /// The hashes that are expected, the next one last.
    pub closed spec fn expected(self) -> Seq<Seq<u8>> {
        self.stack@
    }

    /// What is in the buffer.
    pub closed spec fn buffered(self) -> Seq<u8> {
        buffer::buf_contents(self.buf)
    }

    /// The decoder is of a tree that the arithmetic of this crate can hold.
    pub closed spec fn valid(self) -> bool {
        match self.inner {
            Position::Header { block_size, .. } => block_size.valid() && self.stack@.len() == 1,
            Position::Content { next, iter } => iter.valid() && iter.spec_tree().self_contained()
                && response::leaves_in_blob(iter.spec_tree(), iter.remaining())
                && (next matches Some(item) ==> response::leaves_in_blob(
                iter.spec_tree(),
                seq![item],
            )),
        }
    }

    /// Whether there is a hash for the next item.
    pub open spec fn ready(self) -> bool {
        match self.position() {
            PositionView::Header { .. } => true,
            PositionView::Content { items, .. } => items.len() > 0 ==> self.expected().len() > 0,
        }
    }

    /// Whether a step can be taken with an input: there is a hash for the next item,
    /// or the input does not have the item.
    pub open spec fn ready_for(self, input: Seq<u8>) -> bool {
        self.ready() || match self.position() {
            PositionView::Header { .. } => true,
            PositionView::Content { items, .. } => input.len() < response::item_len(items[0]),
        }
    }

    /// Whether there will be a hash for every item that is still to come, as long
    /// as there is no error.
    pub open spec fn safe(self) -> bool {
        match self.position() {
            PositionView::Header { .. } => true,
            PositionView::Content { items, .. } => response::pre_safe(items, self.expected().len()),
        }
    }

    /// What the decoder would give from here on, with this input.
    pub open spec fn pending(self, input: Seq<u8>) -> Decoded {
        match self.position() {
            PositionView::Header { b, block_size } => response::decode_response(
                self.expected()[0],
                block_size,
                b,
                input,
            ),
            PositionView::Content { items, .. } => response::decode_items(
                items,
                self.expected(),
                input,
            ),
        }
    }

    /// A decoder for the response to a query, given the root hash.
    pub fn new(
        root: Digest,
        block_size: BlockSize,
        ranges: &'a RangeSetRef<u64>,
        buf: BytesMut,
    ) -> (r: DecodeResponseIter<'a>)
        requires
            block_size.valid(),
        ensures
            r.valid(),
            r.safe(),
            r.position() == (PositionView::Header { b: ranges::boundaries_of(ranges), block_size }),
            r.expected() == seq![root@],
            r.buffered() == buffer::buf_contents(buf),
    {
        let mut stack = HashStack::new();
        stack.push(root);
        assert(stack@ =~= seq![root@]);
        DecodeResponseIter { inner: Position::Header { ranges, block_size }, stack, buf }
    }

    /// The bytes in the buffer.
    pub fn buffer(&self) -> (r: &[u8])
        ensures
            r@ == self.buffered(),
    {
        buffer::buf_as_slice(&self.buf)
    }

    /// The tree, once the header has been decoded.
    pub fn tree(&self) -> (r: Option<&BaoTree>)
        ensures
            r matches Some(tree) ==> self.position() matches PositionView::Content { tree: t, .. }
                && t == *tree,
            r is None ==> self.position() is Header,
    {
        match &self.inner {
            Position::Content { iter, .. } => Some(iter.tree()),
            Position::Header { .. } => None,
        }
    }

    /// How many bytes the next step takes off the input.
    pub fn wanted(&self) -> (r: usize)
        ensures
            r == (match self.position() {
                PositionView::Header { .. } => 8,
                PositionView::Content { items, .. } => if items.len() == 0 {
                    0
                } else {
                    response::item_len(items[0])
                },
            }),
    {
        match &self.inner {
            Position::Header { .. } => 8,
            Position::Content { next, .. } => match *next {
                None => 0,
                Some(BaoChunk::Parent { .. }) => 64,
                Some(BaoChunk::Leaf { size, .. }) => size,
            },
        }
    }

    /// Whether there is a hash for the next item.
    pub fn is_ready(&self) -> (r: bool)
        ensures
            r == self.ready(),
    {
        match &self.inner {
            Position::Header { .. } => true,
            Position::Content { next, .. } => match *next {
                None => true,
                Some(_) => !self.stack.is_empty(),
            },
        }
    }

    /// What the step that decodes the header does.
    pub open spec fn header_step(
        before: Self,
        input: Seq<u8>,
        r: Result<Option<DecodeResponseItem>, DecodeError>,
        after: Self,
        rest: Seq<u8>,
    ) -> bool {
        let size = num::le_value(input.take(8)) as u64;
        &&& before.position() matches PositionView::Header { b, block_size }
        &&& after.expected() == before.expected()
        &&& after.buffered() == before.buffered()
        &&& match r {
            Ok(Some(item)) => {
                let tree = BaoTree { size: ByteNum(size), block_size, start_chunk: ChunkNum(0) };
                &&& input.len() >= 8
                &&& ranges::ranges_canonical(b, num::chunks_of(size as nat))
                &&& item@ == ItemView::Header { size }
                &&& after.position() == PositionView::Content {
                    tree,
                    items: tree.pre_order_plan(b),
                }
                &&& rest == input.skip(8)
            },
            Ok(None) => false,
            Err(DecodeError::Io(e)) => {
                &&& error::is_unexpected_eof(e)
                &&& input.len() < 8
                &&& after.position() == before.position()
                &&& rest == input
            },
            Err(DecodeError::InvalidQueryRange) => {
                &&& input.len() >= 8
                &&& !ranges::ranges_canonical(b, num::chunks_of(size as nat))
                &&& after.position() == before.position()
                &&& rest == input.skip(8)
            },
            Err(_) => false,
        }
    }

    /// What a step that decodes an item does. The item counts as taken even where
    /// the input is too short or does not match.
    pub open spec fn item_step(
        before: Self,
        input: Seq<u8>,
        r: Result<Option<DecodeResponseItem>, DecodeError>,
        after: Self,
        rest: Seq<u8>,
    ) -> bool {
        &&& before.position() matches PositionView::Content { tree, items }
        &&& if items.len() == 0 {
            &&& r matches Ok(None)
            &&& after == before
            &&& rest == input
        } else {
            let n = response::item_len(items[0]) as int;
            let payload = input.take(n);
            let checked = response::check_item(items[0], before.expected(), payload);
            &&& after.position() == PositionView::Content { tree, items: items.drop_first() }
            &&& items[0] is Parent ==> after.buffered() == before.buffered()
            &&& if input.len() < n {
                &&& r matches Err(DecodeError::Io(e))
                &&& error::is_unexpected_eof(e)
                &&& after.expected() == before.expected()
                &&& items[0] is Leaf ==> after.buffered().len() == n
                &&& rest == input
            } else {
                &&& rest == input.skip(n)
                &&& match checked {
                    None => {
                        &&& r matches Err(e)
                        &&& fails_as(response::mismatch(items[0]), e)
                        &&& after.expected() == before.expected().drop_last()
                        &&& items[0] is Leaf ==> after.buffered() == payload
                    },
                    Some(next) => {
                        &&& r matches Ok(Some(item))
                        &&& item@ == response::item_view(items[0], payload)
                        &&& after.expected() == next
                        &&& items[0] is Leaf ==> after.buffered() == Seq::<u8>::empty()
                    },
                }
            }
        }
    }

    /// Decodes the header, or the next item, from the start of the input.
    pub fn next0(&mut self, encoded: &mut &[u8]) -> (r: Result<
        Option<DecodeResponseItem>,
        DecodeError,
    >)
        requires
            old(self).valid(),
            old(self).ready_for(old(encoded)@),
        ensures
            final(self).valid(),
            old(self).position() is Header ==> Self::header_step(
                *old(self),
                old(encoded)@,
                r,
                *final(self),
                final(encoded)@,
            ),
            old(self).position() is Content ==> Self::item_step(
                *old(self),
                old(encoded)@,
                r,
                *final(self),
                final(encoded)@,
            ),
            old(self).safe() && r is Ok ==> final(self).safe(),
            match r {
                Ok(None) => old(self).pending(old(encoded)@) == (Decoded {
                    items: Seq::empty(),
                    failure: None,
                    rest: final(encoded)@,
                }),
                Ok(Some(item)) => {
                    let tail = final(self).pending(final(encoded)@);
                    old(self).pending(old(encoded)@) == (Decoded {
                        items: seq![item@] + tail.items,
                        failure: tail.failure,
                        rest: tail.rest,
                    })
                },
                Err(e) => {
                    let run = old(self).pending(old(encoded)@);
                    run.items.len() == 0 && (run.failure matches Some(failure) && fails_as(
                        failure,
                        e,
                    )) && run.rest == final(encoded)@
                },
            },
    {
        let (ranges, block_size) = match &self.inner {
            Position::Header { ranges, block_size } => (*ranges, *block_size),
            Position::Content { .. } => {
                return self.next_item(encoded);
            },
        };
        let size = match io::read_len(encoded) {
            Ok(size) => size,
            Err(e) => return Err(DecodeError::Io(e)),
        };
        if !ranges::range_ok(ranges, size.chunks()) {
            return Err(DecodeError::InvalidQueryRange);
        }
        let tree = BaoTree::new(size, block_size);
        let mut iter = tree.ranges_pre_order_chunks_iter_ref(ranges);
        let ghost plan = iter.remaining();
        let next = iter.next();
        self.inner = Position::Content { next, iter };
        proof {
            tree.lemma_pre_plan(ranges::boundaries_of(ranges));
            lemma_leaves_first(tree, plan);
            assert(self.expected() =~= seq![self.expected()[0]]);
            if plan.len() > 0 {
                assert(seq![plan[0]] + plan.drop_first() =~= plan);
            } else {
                assert(plan =~= Seq::empty());
            }
        }
        Ok(Some(DecodeResponseItem::Header(Header { size })))
    }

    /// Decodes the header, or the next item, from the start of the input, if there is
    /// one more.
    pub fn next(&mut self, encoded: &mut &[u8]) -> (r: Option<
        Result<DecodeResponseItem, DecodeError>,
    >)
        requires
            old(self).valid(),
            old(self).ready_for(old(encoded)@),
        ensures
            final(self).valid(),
            ({
                let r0 = match r {
                    None => Ok(None),
                    Some(Ok(item)) => Ok(Some(item)),
                    Some(Err(e)) => Err(e),
                };
                if old(self).position() is Header {
                    Self::header_step(*old(self), old(encoded)@, r0, *final(self), final(encoded)@)
                } else {
                    Self::item_step(*old(self), old(encoded)@, r0, *final(self), final(encoded)@)
                }
            }),
            old(self).safe() && !(r matches Some(Err(_))) ==> final(self).safe(),
            match r {
                None => old(self).pending(old(encoded)@) == (Decoded {
                    items: Seq::empty(),
                    failure: None,
                    rest: final(encoded)@,
                }),
                Some(Ok(item)) => {
                    let tail = final(self).pending(final(encoded)@);
                    old(self).pending(old(encoded)@) == (Decoded {
                        items: seq![item@] + tail.items,
                        failure: tail.failure,
                        rest: tail.rest,
                    })
                },
                Some(Err(e)) => {
                    let run = old(self).pending(old(encoded)@);
                    run.items.len() == 0 && (run.failure matches Some(failure) && fails_as(
                        failure,
                        e,
                    )) && run.rest == final(encoded)@
                },
            },
    {
        match self.next0(encoded) {
            Ok(Some(item)) => Some(Ok(item)),
            Ok(None) => None,
            Err(e) => Some(Err(e)),
        }
    }

    /// Decodes the next item from the start of the input.
    fn next_item(&mut self, encoded: &mut &[u8]) -> (r: Result<
        Option<DecodeResponseItem>,
        DecodeError,
    >)
        requires
            old(self).valid(),
            old(self).ready_for(old(encoded)@),
            old(self).position() is Content,
        ensures
            final(self).valid(),
            Self::item_step(*old(self), old(encoded)@, r, *final(self), final(encoded)@),
    {
        let ghost items = self.position()->items;
        let ghost tree = self.position()->tree;
        let item = match &mut self.inner {
            Position::Header { .. } => {
                return Ok(None);
            },
            Position::Content { next, iter } => {
                let item = match *next {
                    None => {
                        return Ok(None);
                    },
                    Some(item) => item,
                };
                *next = iter.next();
                item
            },
        };
        proof {
            assert(items.drop_first() =~= self.position()->items);
        }
        match item {
            BaoChunk::Parent { is_root, left, right, node } => {
                let pair = match io::read_parent(encoded) {
                    Ok(pair) => pair,
                    Err(e) => return Err(DecodeError::Io(e)),
                };
                proof {
                    let payload = old(encoded)@.take(64);
                    assert(pair.0@ + pair.1@ =~= payload);
                    assert(pair.0@ =~= payload.take(32));
                    assert(pair.1@ =~= payload.skip(32));
                }
                if !response::verify_parent(&mut self.stack, &pair, is_root, left, right) {
                    return Err(DecodeError::ParentHashMismatch(node));
                }
                Ok(Some(DecodeResponseItem::Parent(Parent { node, pair })))
            },
            BaoChunk::Leaf { size, is_root, start_chunk } => {
                buffer::buf_resize(&mut self.buf, size, 0);
                let data = match source::read_exact(encoded, size) {
                    Ok(data) => data,
                    Err(e) => return Err(DecodeError::Io(e)),
                };
                buffer::buf_fill(&mut self.buf, data);
                let block = buffer::buf_as_slice(&self.buf);
                if !response::verify_leaf(&mut self.stack, block, start_chunk, is_root) {
                    return Err(DecodeError::LeafHashMismatch(start_chunk));
                }
                let offset = start_chunk.to_bytes();
                let data = buffer::buf_freeze(buffer::buf_split(&mut self.buf));
                Ok(Some(DecodeResponseItem::Leaf(Leaf { offset, data })))
            },
        }
    }
}

/// The bytes of the target after the blocks among the items have been written.
pub open spec fn blocks_written(items: Seq<ItemView>, bytes: Seq<u8>) -> Seq<u8>
    decreases items.len(),
{
    if items.len() == 0 {
        bytes
    } else {
        let before = blocks_written(items.drop_last(), bytes);
        match items.last() {
            ItemView::Leaf { offset, data } => io::spliced(before, offset, data),
            _ => before,
        }
    }
}

/// The hash pairs of a store after those among the items have been saved.
pub open spec fn pairs_saved(
    items: Seq<ItemView>,
    pairs: Map<TreeNode, (Digest, Digest)>,
) -> Map<TreeNode, (Digest, Digest)>
    decreases items.len(),
{
    if items.len() == 0 {
        pairs
    } else {
        let before = pairs_saved(items.drop_last(), pairs);
        match items.last() {
            ItemView::Parent { node, pair } => before.insert(
                node,
                (hash::digest_of(pair.0), hash::digest_of(pair.1)),
            ),
            _ => before,
        }
    }
}

/// The tree of a store after the header among the items has set its size.
pub open spec fn size_set(items: Seq<ItemView>, tree: BaoTree) -> BaoTree
    decreases items.len(),
{
    if items.len() == 0 {
        tree
    } else {
        match items.last() {
            ItemView::Header { size } => BaoTree { size: ByteNum(size), ..tree },
            _ => size_set(items.drop_last(), tree),
        }
    }
}

/// Whether putting an item where it belongs can fail with an error.
pub open spec fn item_can_fail<O: OutboardMut, W: SliceWriter>(
    item: ItemView,
    outboard: O,
    target: W,
    e: std::io::Error,
) -> bool {
    if item is Leaf {
        !target.reliable() && target.errors().contains(e)
    } else {
        !outboard.reliable() && outboard.errors().contains(e)
    }
}

/// Whether putting an item where it belongs, by one call on the store or on the target,
/// can succeed, or fail with an error, and leave a store and a target.
pub open spec fn item_put<O: OutboardMut, W: SliceWriter>(
    item: ItemView,
    outboard: O,
    target: W,
    failed: Option<std::io::Error>,
    outboard_after: O,
    target_after: W,
) -> bool {
    match item {
        ItemView::Header { size } => outboard.size_put(ByteNum(size), failed, &outboard_after)
            && target_after == target,
        ItemView::Parent { node, pair } => outboard.pair_put(
            node,
            (hash::digest_of(pair.0), hash::digest_of(pair.1)),
            failed,
            &outboard_after,
        ) && target_after == target,
        ItemView::Leaf { offset, data } => target.slice_put(
            offset as u64,
            data,
            failed,
            &target_after,
        ) && outboard_after == outboard,
    }
}

/// Whether putting items where they belong, each by one call and in order, with success
/// takes a store and a target from one state to another.
pub open spec fn items_put<O: OutboardMut, W: SliceWriter>(
    items: Seq<ItemView>,
    outboard: O,
    target: W,
    outboard_after: O,
    target_after: W,
) -> bool
    decreases items.len(),
{
    if items.len() == 0 {
        outboard_after == outboard && target_after == target
    } else {
        exists|o: O, t: W|
            items_put(items.drop_last(), outboard, target, o, t) && #[trigger] item_put(
                items.last(),
                o,
                t,
                None,
                outboard_after,
                target_after,
            )
    }
}

/// How many bytes of a response what was decoded has taken.
pub open spec fn views_len(items: Seq<ItemView>) -> nat
    decreases items.len(),
{
    if items.len() == 0 {
        0
    } else {
        views_len(items.drop_last()) + match items.last() {
            ItemView::Header { .. } => 8,
            ItemView::Parent { .. } => 64,
            ItemView::Leaf { data, .. } => data.len(),
        }
    }
}

/// Puts an item where it belongs: the size and hash pairs into the store, and
/// blocks into the target.
pub fn apply_item<O: OutboardMut, W: SliceWriter>(
    item: DecodeResponseItem,
    outboard: &mut O,
    target: &mut W,
) -> (r: Result<(), std::io::Error>)
    ensures
        final(outboard).spec_root() == old(outboard).spec_root(),
        (*final(outboard)).reliable() == (*old(outboard)).reliable(),
        (*final(outboard)).errors() == (*old(outboard)).errors(),
        final(target).reliable() == old(target).reliable(),
        final(target).errors() == old(target).errors(),
        r matches Err(e) ==> item_can_fail(item@, *old(outboard), *old(target), e),
        item_put(
            item@,
            *old(outboard),
            *old(target),
            io::error_of(r),
            *final(outboard),
            *final(target),
        ),
        item@ is Parent ==> final(outboard).spec_tree() == old(outboard).spec_tree(),
        r is Ok ==> (item@ matches ItemView::Header { size } ==> final(outboard).pairs() == (*old(
            outboard,
        )).resized(ByteNum(size))),
        r is Ok ==> final(outboard).spec_tree() == size_set(seq![item@], old(outboard).spec_tree()),
        r is Ok && !(item is Header) ==> final(outboard).pairs() == pairs_saved(
            seq![item@],
            old(outboard).pairs(),
        ),
        r is Ok ==> final(target).bytes() == blocks_written(seq![item@], old(target).bytes()),
        r is Err ==> (item@ matches ItemView::Leaf { offset, data } ==> io::partly_spliced(
            old(target).bytes(),
            offset,
            data,
            final(target).bytes(),
        )),
        !(item is Leaf) ==> *final(target) == *old(target),
        item is Leaf ==> *final(outboard) == *old(outboard),
{
    proof {
        let items = seq![item@];
        assert(items.drop_last() =~= Seq::<ItemView>::empty());
        reveal_with_fuel(blocks_written, 2);
        reveal_with_fuel(pairs_saved, 2);
        reveal_with_fuel(size_set, 2);
    }
    match item {
        DecodeResponseItem::Header(Header { size }) => outboard.set_size(size),
        DecodeResponseItem::Parent(Parent { node, pair }) => {
            proof {
                hash::lemma_digest_of(pair.0);
                hash::lemma_digest_of(pair.1);
            }
            outboard.save(node, &pair)
        },
        DecodeResponseItem::Leaf(Leaf { offset, data }) => target.write_at(
            offset.0,
            buffer::bytes_as_slice(&data),
        ),
    }
}

/// Putting one item more where it belongs.
proof fn lemma_applied_next(
    items: Seq<ItemView>,
    item: ItemView,
    bytes: Seq<u8>,
    pairs: Map<TreeNode, (Digest, Digest)>,
    tree: BaoTree,
)
    ensures
        blocks_written(items.push(item), bytes) == blocks_written(
            seq![item],
            blocks_written(items, bytes),
        ),
        pairs_saved(items.push(item), pairs) == pairs_saved(
            seq![item],
            pairs_saved(items, pairs),
        ),
        size_set(items.push(item), tree) == size_set(seq![item], size_set(items, tree)),
{
    let all = items.push(item);
    assert(all.drop_last() =~= items);
    assert(seq![item].drop_last() =~= Seq::<ItemView>::empty());
    reveal_with_fuel(blocks_written, 2);
    reveal_with_fuel(pairs_saved, 2);
    reveal_with_fuel(size_set, 2);
    lemma_size_set(items, tree);
}

/// Only the size is set.
proof fn lemma_size_set(items: Seq<ItemView>, tree: BaoTree)
    ensures
        size_set(items, tree).block_size == tree.block_size,
        size_set(items, tree).start_chunk == tree.start_chunk,
    decreases items.len(),
{
    if items.len() > 0 {
        lemma_size_set(items.drop_last(), tree);
    }
}

/// Whether a target has, over what it had before, the blocks among the items, and is
/// untouched as long as there are none.
pub open spec fn blocks_done<W: SliceWriter>(items: Seq<ItemView>, before: W, after: W) -> bool {
    &&& after.bytes() == blocks_written(items, before.bytes())
    &&& (forall|i: int| 0 <= i < items.len() ==> !((#[trigger] items[i]) is Leaf)) ==> after
        == before
}

/// Whether items have been put where they belong: what store and target hold, and the
/// calls that were made.
pub open spec fn all_put<O: OutboardMut, W: SliceWriter>(
    items: Seq<ItemView>,
    outboard: O,
    target: W,
    outboard_after: O,
    target_after: W,
) -> bool {
    &&& pairs_done(items, outboard, outboard_after)
    &&& blocks_done(items, target, target_after)
    &&& items_put(items, outboard, target, outboard_after, target_after)
}

/// Whether item `k` could not be put where it belongs, those before it were, which left
/// the store `o` and the target `t`, and no call was made after that. Of a block some
/// may have been written, from its start on. What a store keeps of a size or a hash pair
/// that it failed on is up to the store, but for the size where a pair failed. The input
/// that is left is what comes behind the item.
pub open spec fn put_stopped<O: OutboardMut, W: SliceWriter>(
    items: Seq<ItemView>,
    k: int,
    e: std::io::Error,
    input: Seq<u8>,
    rest: Seq<u8>,
    outboard: O,
    o: O,
    outboard_after: O,
    target: W,
    t: W,
    target_after: W,
) -> bool {
    &&& 0 <= k < items.len()
    &&& item_can_fail(items[k], outboard, target, e)
    &&& all_put(items.take(k), outboard, target, o, t)
    &&& item_put(items[k], o, t, Some(e), outboard_after, target_after)
    &&& rest == input.skip(views_len(items.take(k + 1)) as int)
    &&& match items[k] {
        ItemView::Header { .. } => true,
        ItemView::Parent { .. } => outboard_after.spec_tree() == o.spec_tree(),
        ItemView::Leaf { offset, data } => io::partly_spliced(
            t.bytes(),
            offset,
            data,
            target_after.bytes(),
        ),
    }
}

/// Whether a store has, over what it has once the size is set, the hash pairs among
/// the items, and no others. It is untouched as long as there are no items.
pub open spec fn pairs_done<O: OutboardMut>(items: Seq<ItemView>, before: O, after: O) -> bool {
    &&& after.spec_tree() == size_set(items, before.spec_tree())
    &&& if items.len() == 0 {
        after == before
    } else {
        items[0] matches ItemView::Header { size } && after.pairs() == pairs_saved(
            items,
            before.resized(ByteNum(size)),
        )
    }
}

/// One item more has been put where it belongs.
proof fn lemma_put_next<O: OutboardMut, W: SliceWriter>(
    items: Seq<ItemView>,
    item: ItemView,
    outboard: O,
    outboard_before: O,
    outboard_after: O,
    target: W,
    target_before: W,
    target_after: W,
)
    requires
        pairs_done(items, outboard, outboard_before),
        blocks_done(items, target, target_before),
        items_put(items, outboard, target, outboard_before, target_before),
        item_put(
            item,
            outboard_before,
            target_before,
            None,
            outboard_after,
            target_after,
        ),
        item is Header <==> items.len() == 0,
        outboard_after.spec_tree() == size_set(seq![item], outboard_before.spec_tree()),
        item matches ItemView::Header { size } ==> outboard_after.pairs()
            == outboard_before.resized(ByteNum(size)),
        !(item is Header) ==> outboard_after.pairs() == pairs_saved(
            seq![item],
            outboard_before.pairs(),
        ),
        target_after.bytes() == blocks_written(seq![item], target_before.bytes()),
        !(item is Leaf) ==> target_after == target_before,
    ensures
        all_put(items.push(item), outboard, target, outboard_after, target_after),
{
    let all = items.push(item);
    assert(all.drop_last() =~= items);
    assert(item_put(
        all.last(),
        outboard_before,
        target_before,
        None,
        outboard_after,
        target_after,
    ));
    let resized = match all[0] {
        ItemView::Header { size } => outboard.resized(ByteNum(size)),
        _ => outboard.pairs(),
    };
    lemma_applied_next(items, item, target.bytes(), resized, outboard.spec_tree());
    if items.len() == 0 {
        assert(all.drop_last() =~= Seq::<ItemView>::empty());
        reveal_with_fuel(pairs_saved, 2);
    } else {
        assert(all[0] == items[0]);
    }
    if forall|i: int| 0 <= i < all.len() ==> !((#[trigger] all[i]) is Leaf) {
        assert(all[items.len() as int] == item);
        assert forall|i: int| 0 <= i < items.len() implies !((#[trigger] items[i]) is Leaf) by {
            assert(all[i] == items[i]);
        }
    }
}

/// An item could not be put where it belongs.
proof fn lemma_put_stopped<O: OutboardMut, W: SliceWriter>(
    items: Seq<ItemView>,
    item: ItemView,
    more: Seq<ItemView>,
    e: std::io::Error,
    input: Seq<u8>,
    rest: Seq<u8>,
    outboard: O,
    o: O,
    outboard_after: O,
    target: W,
    t: W,
    target_after: W,
)
    requires
        all_put(items, outboard, target, o, t),
        item_can_fail(item, outboard, target, e),
        item_put(item, o, t, Some(e), outboard_after, target_after),
        rest == input.skip(views_len(items.push(item)) as int),
        match item {
            ItemView::Header { .. } => true,
            ItemView::Parent { .. } => outboard_after.spec_tree() == o.spec_tree(),
            ItemView::Leaf { offset, data } => io::partly_spliced(
                t.bytes(),
                offset,
                data,
                target_after.bytes(),
            ),
        },
    ensures
        put_failed(
            items + (seq![item] + more),
            e,
            input,
            rest,
            outboard,
            outboard_after,
            target,
            target_after,
        ),
{
    let all = items + (seq![item] + more);
    let k = items.len() as int;
    assert(all[k] == item);
    assert(all.take(k) =~= items);
    assert(all.take(k + 1) =~= items.push(item));
    assert(put_stopped(
        all,
        k,
        e,
        input,
        rest,
        outboard,
        o,
        outboard_after,
        target,
        t,
        target_after,
    ));
}

/// What decoding into a store and a target comes to, given what the response decodes
/// to: everything is put where it belongs, and the result is how the response ended;
/// or an item could not be put there.
pub open spec fn decode_outcome<O: OutboardMut, W: SliceWriter>(
    run: Decoded,
    input: Seq<u8>,
    r: Result<(), DecodeError>,
    rest: Seq<u8>,
    outboard: O,
    outboard_after: O,
    target: W,
    target_after: W,
) -> bool {
    ||| {
        &&& match r {
            Ok(_) => run.failure is None,
            Err(e) => run.failure matches Some(failure) && fails_as(failure, e),
        }
        &&& rest == run.rest
        &&& all_put(run.items, outboard, target, outboard_after, target_after)
    }
    ||| {
        &&& r matches Err(DecodeError::Io(e))
        &&& put_failed(run.items, e, input, rest, outboard, outboard_after, target, target_after)
    }
}

/// Whether one of the items could not be put where it belongs.
pub open spec fn put_failed<O: OutboardMut, W: SliceWriter>(
    items: Seq<ItemView>,
    e: std::io::Error,
    input: Seq<u8>,
    rest: Seq<u8>,
    outboard: O,
    outboard_after: O,
    target: W,
    target_after: W,
) -> bool {
    exists|k: int, o: O, t: W|
        put_stopped(
            items,
            k,
            e,
            input,
            rest,
            outboard,
            o,
            outboard_after,
            target,
            t,
            target_after,
        )
}

/// Decodes a response into a target while filling a store of hash pairs.
///
/// What comes before an error in the response has been put where it belongs, and
/// nothing else. If an item cannot be put where it belongs, decoding stops there.
#[verifier::spinoff_prover]
#[verifier::rlimit(50)]
pub fn decode_response_into<O: OutboardMut, W: SliceWriter>(
    ranges: &RangeSetRef<u64>,
    encoded: &mut &[u8],
    outboard: &mut O,
    target: &mut W,
) -> (r: Result<(), DecodeError>)
    requires
        old(outboard).spec_tree().block_size.valid(),
    ensures
        final(outboard).spec_root() == old(outboard).spec_root(),
        (*final(outboard)).reliable() == (*old(outboard)).reliable(),
        (*final(outboard)).errors() == (*old(outboard)).errors(),
        final(target).reliable() == old(target).reliable(),
        final(target).errors() == old(target).errors(),
        decode_outcome(
            response::decode_response(
                old(outboard).spec_root()@,
                old(outboard).spec_tree().block_size,
                ranges::boundaries_of(ranges),
                old(encoded)@,
            ),
            old(encoded)@,
            r,
            final(encoded)@,
            *old(outboard),
            *final(outboard),
            *old(target),
            *final(target),
        ),
        r matches Err(DecodeError::InvalidQueryRange) ==> old(encoded)@.len() >= 8 && exists|i: int|
            0 <= i < ranges::boundaries_of(ranges).len() && #[trigger] ranges::boundaries_of(
                ranges,
            )[i] != 0 && 1024 * ranges::boundaries_of(ranges)[i] >= num::le_value(
                old(encoded)@.take(8),
            ),
{
    let block_size = outboard.tree().block_size;
    let buffer = buffer::buf_with_capacity(block_size.bytes());
    let mut iter = DecodeResponseIter::new(outboard.root(), block_size, ranges, buffer);
    let ghost run = iter.pending(encoded@);
    let ghost mut done: Seq<ItemView> = Seq::empty();
    proof {
        assert(done + run.items =~= run.items);
        assert(encoded@.skip(0) =~= encoded@);
    }
    loop
        invariant
            iter.valid(),
            iter.safe(),
            run == response::decode_response(
                old(outboard).spec_root()@,
                old(outboard).spec_tree().block_size,
                ranges::boundaries_of(ranges),
                old(encoded)@,
            ),
            run.items == done + iter.pending(encoded@).items,
            run.failure == iter.pending(encoded@).failure,
            run.rest == iter.pending(encoded@).rest,
            iter.position() is Header <==> done.len() == 0,
            outboard.spec_root() == old(outboard).spec_root(),
            (*outboard).reliable() == (*old(outboard)).reliable(),
            (*outboard).errors() == (*old(outboard)).errors(),
            target.reliable() == old(target).reliable(),
            target.errors() == old(target).errors(),
            all_put(done, *old(outboard), *old(target), *outboard, *target),
            encoded@ == old(encoded)@.skip(views_len(done) as int),
            views_len(done) <= old(encoded)@.len(),
        decreases
            (if iter.position() is Header {
                1int
            } else {
                0int
            }),
            (iter.position()->items).len(),
    {
        let ghost outboard_before = *outboard;
        let ghost target_before = *target;
        match iter.next0(encoded) {
            Ok(None) => {
                assert(run.items =~= done);
                return Ok(());
            },
            Ok(Some(item)) => {
                let ghost view = item@;
                let ghost tail = iter.pending(encoded@).items;
                proof {
                    assert(done.push(view).drop_last() =~= done);
                    assert(encoded@ =~= old(encoded)@.skip(views_len(done.push(view)) as int));
                }
                match apply_item(item, outboard, target) {
                    Ok(_) => {},
                    Err(e) => {
                        proof {
                            lemma_put_stopped(
                                done,
                                view,
                                tail,
                                e,
                                old(encoded)@,
                                encoded@,
                                *old(outboard),
                                outboard_before,
                                *outboard,
                                *old(target),
                                target_before,
                                *target,
                            );
                        }
                        return Err(DecodeError::Io(e));
                    },
                }
                proof {
                    lemma_put_next(
                        done,
                        view,
                        *old(outboard),
                        outboard_before,
                        *outboard,
                        *old(target),
                        target_before,
                        *target,
                    );
                    assert(done + (seq![view] + tail) =~= done.push(view) + tail);
                    done = done.push(view);
                }
            },
            Err(e) => {
                assert(run.items =~= done);
                return Err(e);
            },
        }
    }
}

/// What holds of all items holds of the first and of the rest.
proof fn lemma_leaves_first(tree: BaoTree, items: Seq<BaoChunk>)
    requires
        response::leaves_in_blob(tree, items),
    ensures
        items.len() > 0 ==> response::leaves_in_blob(tree, seq![items[0]]),
        items.len() > 0 ==> response::leaves_in_blob(tree, items.drop_first()),
{
    if items.len() > 0 {
        let rest = items.drop_first();
        assert forall|i: int| 0 <= i < rest.len() implies (
        #[trigger] rest[i] matches BaoChunk::Leaf { size, is_root, start_chunk } ==> 1024
            * start_chunk.0 + size <= tree.size.0 && size <= tree.block_size.spec_bytes() && (
        is_root ==> start_chunk.0 == 0)) by {
            assert(rest[i] == items[i + 1]);
        }
    }
}

} // verus!
