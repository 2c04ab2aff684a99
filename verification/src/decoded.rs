//! What a store of hash pairs and a target have once a response has been decoded.
use vstd::arithmetic::power2::*;
use vstd::prelude::*;

use crate::decode;
use crate::hash;
use crate::hash::Digest;
use crate::io;
use crate::iter::BaoChunk;
use crate::node;
use crate::node::TreeNode;
use crate::num;
use crate::num::{BlockSize, ByteNum, ChunkNum};
use crate::pow;
use crate::ranges;
use crate::response;
use crate::response::ItemView;
use crate::tree::BaoTree;

verus! {

/// Whether what was decoded is of the kind and at the place that an item says.
pub open spec fn view_fits(view: ItemView, item: BaoChunk) -> bool {
    match item {
        BaoChunk::Parent { node, .. } => view matches ItemView::Parent { node: n, pair } && n
            == node && pair.0.len() == 32 && pair.1.len() == 32,
        BaoChunk::Leaf { size, start_chunk, .. } => view matches ItemView::Leaf { offset, data }
            && offset == 1024 * start_chunk.0 && data.len() == size,
    }
}

/// Whether a store, or a file, has what was decoded.
pub open spec fn view_kept(
    view: ItemView,
    pairs: Map<TreeNode, (Digest, Digest)>,
    file: Seq<u8>,
) -> bool {
    match view {
        ItemView::Header { .. } => true,
        ItemView::Parent { node, pair } => pairs.contains_key(node) && pairs[node].0@ == pair.0
            && pairs[node].1@ == pair.1,
        ItemView::Leaf { offset, data } => io::has_slice(file, offset, data.len()) && io::slice_at(
            file,
            offset,
            data.len(),
        ) == data,
    }
}

/// Whether neither of two items undoes the other: they are not of the same node, and
/// their blocks do not overlap.
pub open spec fn items_apart(a: BaoChunk, b: BaoChunk) -> bool {
    match (a, b) {
        (BaoChunk::Parent { node, .. }, BaoChunk::Parent { node: other, .. }) => node != other,
        (
            BaoChunk::Leaf { size, start_chunk, .. },
            BaoChunk::Leaf { start_chunk: other, .. },
        ) => 1024 * start_chunk.0 + size <= 1024 * other.0,
        _ => true,
    }
}

/// Whether no item undoes one before it.
pub open spec fn all_apart(items: Seq<BaoChunk>) -> bool {
    forall|i: int, j: int|
        0 <= i < j < items.len() ==> items_apart(#[trigger] items[i], #[trigger] items[j])
}

/// What was decoded is, item by item, what the items say.
pub(crate) proof fn lemma_views_fit(items: Seq<BaoChunk>, stack: Seq<Seq<u8>>, input: Seq<u8>)
    ensures
        ({
            let run = response::decode_items(items, stack, input);
            &&& run.items.len() <= items.len()
            &&& run.failure is None ==> run.items.len() == items.len()
            &&& forall|i: int|
                0 <= i < run.items.len() ==> view_fits(#[trigger] run.items[i], items[i])
        }),
    decreases items.len(),
{
    let n = response::item_len(items[0]) as int;
    let payload = input.take(n);
    if items.len() > 0 && input.len() >= n {
        if let Some(next) = response::check_item(items[0], stack, payload) {
            let run = response::decode_items(items, stack, input);
            let tail = response::decode_items(items.drop_first(), next, input.skip(n));
            lemma_views_fit(items.drop_first(), next, input.skip(n));
            assert forall|i: int| 0 <= i < run.items.len() implies view_fits(
                #[trigger] run.items[i],
                items[i],
            ) by {
                if i > 0 {
                    assert(run.items[i] == tail.items[i - 1]);
                    assert(items[i] == items.drop_first()[i - 1]);
                }
            }
        }
    }
}

/// A store and a target have everything that was decoded, as no item undoes one
/// before it.
pub(crate) proof fn lemma_views_kept(
    views: Seq<ItemView>,
    items: Seq<BaoChunk>,
    pairs: Map<TreeNode, (Digest, Digest)>,
    bytes: Seq<u8>,
)
    requires
        views.len() == items.len(),
        forall|i: int| 0 <= i < items.len() ==> view_fits(#[trigger] views[i], items[i]),
        all_apart(items),
    ensures
        forall|i: int|
            0 <= i < views.len() ==> view_kept(
                #[trigger] views[i],
                decode::pairs_saved(views, pairs),
                decode::blocks_written(views, bytes),
            ),
    decreases views.len(),
{
    if views.len() > 0 {
        let n = views.len() - 1;
        let init = views.drop_last();
        let old_pairs = decode::pairs_saved(init, pairs);
        let old_bytes = decode::blocks_written(init, bytes);
        let new_pairs = decode::pairs_saved(views, pairs);
        let new_bytes = decode::blocks_written(views, bytes);
        assert forall|i: int| 0 <= i < init.len() implies view_fits(
            #[trigger] init[i],
            items.drop_last()[i],
        ) by {
            assert(view_fits(views[i], items[i]));
        }
        lemma_views_kept(init, items.drop_last(), pairs, bytes);
        assert(view_fits(views[n], items[n]));
        assert forall|i: int| 0 <= i < views.len() implies view_kept(
            #[trigger] views[i],
            new_pairs,
            new_bytes,
        ) by {
            if i < n {
                assert(view_kept(init[i], old_pairs, old_bytes));
                assert(view_fits(views[i], items[i]));
                assert(items_apart(items[i], items[n]));
                lemma_kept_by_next(views[i], views[n], old_pairs, old_bytes);
            } else {
                lemma_kept_by_itself(views[n], old_pairs, old_bytes);
            }
        }
    }
}

/// What one item more leaves.
pub open spec fn pairs_after(view: ItemView, pairs: Map<TreeNode, (Digest, Digest)>) -> Map<
    TreeNode,
    (Digest, Digest),
> {
    match view {
        ItemView::Parent { node, pair } => pairs.insert(
            node,
            (hash::digest_of(pair.0), hash::digest_of(pair.1)),
        ),
        _ => pairs,
    }
}

/// What one item more leaves.
pub open spec fn bytes_after(view: ItemView, bytes: Seq<u8>) -> Seq<u8> {
    match view {
        ItemView::Leaf { offset, data } => io::spliced(bytes, offset, data),
        _ => bytes,
    }
}

/// What was kept is kept, if the next item is elsewhere.
proof fn lemma_kept_by_next(
    view: ItemView,
    next: ItemView,
    pairs: Map<TreeNode, (Digest, Digest)>,
    bytes: Seq<u8>,
)
    requires
        view_kept(view, pairs, bytes),
        match (view, next) {
            (ItemView::Parent { node, .. }, ItemView::Parent { node: other, .. }) => node != other,
            (ItemView::Leaf { offset, data }, ItemView::Leaf { offset: other, .. }) => offset
                + data.len() <= other,
            _ => true,
        },
    ensures
        view_kept(view, pairs_after(next, pairs), bytes_after(next, bytes)),
{
    if let ItemView::Leaf { offset, data } = view {
        let after = bytes_after(next, bytes);
        assert(io::slice_at(after, offset, data.len()) =~= io::slice_at(
            bytes,
            offset,
            data.len(),
        ));
    }
}

/// What was put in last is there.
proof fn lemma_kept_by_itself(
    view: ItemView,
    pairs: Map<TreeNode, (Digest, Digest)>,
    bytes: Seq<u8>,
)
    requires
        view matches ItemView::Parent { pair, .. } ==> pair.0.len() == 32 && pair.1.len() == 32,
    ensures
        view_kept(view, pairs_after(view, pairs), bytes_after(view, bytes)),
{
    match view {
        ItemView::Parent { pair, .. } => {
            hash::lemma_digest_bytes(pair.0);
            hash::lemma_digest_bytes(pair.1);
        },
        ItemView::Leaf { offset, data } => {
            let after = bytes_after(view, bytes);
            assert(io::slice_at(after, offset, data.len()) =~= data);
        },
        _ => {},
    }
}

impl BaoTree {
    /// Whether an item is of a block from one on and below another, or of a node that
    /// covers such blocks and has a hash pair.
    pub open spec fn item_below(self, item: BaoChunk, from: nat, to: nat) -> bool {
        match item {
            BaoChunk::Parent { node, .. } => from <= node.0 && node.0 + 1 < to && (node.0 % 2 == 1
                || node.0 + 1 < self.spec_blocks()),
            BaoChunk::Leaf { size, start_chunk, .. } => self.byte_at(from) <= 1024 * start_chunk.0
                && 1024 * start_chunk.0 + size <= self.byte_at(to) && (size > 0 || self.size.0
                == 0),
        }
    }

    /// Only an empty blob has an empty block.
    proof fn lemma_block_not_empty(self, block: nat)
        requires
            self.valid(),
            block < self.spec_blocks(),
        ensures
            self.byte_at(block) < self.byte_at(block + 1) || self.size.0 == 0,
    {
        let bb = self.block_size.spec_bytes();
        self.lemma_blocks();
        self.lemma_block_start(block);
        assert((block + 1) * bb == block * bb + bb) by (nonlinear_arith);
        if block == 0 {
            assert(block * bb == 0) by (nonlinear_arith)
                requires
                    block == 0,
            ;
        }
    }

    /// The items of a node are apart, and all of what the node covers.
    pub(crate) proof fn lemma_pre_apart(self, b: Seq<u64>, start: nat, level: nat)
        requires
            self.self_contained(),
            self.has_node(start, level),
        ensures
            all_apart(self.pre_order(b, start, level)),
            forall|i: int|
                0 <= i < self.pre_order(b, start, level).len() ==> self.item_below(
                    #[trigger] self.pre_order(b, start, level)[i],
                    start,
                    start + 2 * pow2(level),
                ),
        decreases level,
    {
        let items = self.pre_order(b, start, level);
        let mid = start + pow2(level);
        let end = start + 2 * pow2(level);
        pow::lemma_pow2_step(level);
        pow::lemma_pow2_step(0);
        self.lemma_blocks();
        self.lemma_chunk_at_mono(start, mid);
        self.lemma_chunk_at_mono(mid, end);
        if !self.meets_node(b, start, level) {
        } else if level > 0 {
            let left = self.meets_left(b, start, level);
            let right = self.meets_right(b, start, level);
            let parent = self.parent_item(start, level, left, right);
            let r = self.right_level(start, level);
            let il = self.pre_order(b, start, (level - 1) as nat);
            let ir = self.pre_order(b, mid, r);
            pow::lemma_pow2_step((level - 1) as nat);
            pow::lemma_multiple_of_smaller(start, 1, level + 1);
            self.lemma_children(start, level);
            self.lemma_pre_apart(b, start, (level - 1) as nat);
            self.lemma_pre_apart(b, mid, r);
            pow::lemma_pow2_mono(r, (level - 1) as nat);
            assert forall|i: int| 0 <= i < items.len() implies self.item_below(
                #[trigger] items[i],
                start,
                end,
            ) by {
                if i == 0 {
                    assert(items[0] == parent);
                } else if i - 1 < il.len() {
                    assert(items[i] == il[i - 1]);
                } else {
                    assert(items[i] == ir[i - 1 - il.len()]);
                }
            }
            assert forall|i: int, j: int| 0 <= i < j < items.len() implies items_apart(
                #[trigger] items[i],
                #[trigger] items[j],
            ) by {
                if j - 1 < il.len() {
                    assert(items[j] == il[j - 1]);
                    if i > 0 {
                        assert(items[i] == il[i - 1]);
                    }
                } else {
                    assert(items[j] == ir[j - 1 - il.len()]);
                    if i > 0 {
                        if i - 1 < il.len() {
                            assert(items[i] == il[i - 1]);
                        } else {
                            assert(items[i] == ir[i - 1 - il.len()]);
                        }
                    }
                }
            }
        } else {
            self.lemma_leaf_in_blob(start, false);
            self.lemma_leaf_in_blob(start, self.is_root(start, 0));
            self.lemma_block_not_empty(start);
            if !self.half_leaf(start) {
                self.lemma_leaf_in_blob(start + 1, false);
                self.lemma_block_not_empty(start + 1);
            }
        }
    }

    /// Whether every chunk of a set that a node covers is valid below the node.
    pub open spec fn queried_valid(
        self,
        b: Seq<u64>,
        pairs: Map<TreeNode, (Digest, Digest)>,
        file: Seq<u8>,
        start: nat,
        level: nat,
        hash: Seq<u8>,
    ) -> bool {
        forall|c: int| #[trigger]
            ranges::in_ranges(b, c) && self.chunks_before(start) <= c < self.chunks_before(
                start + 2 * pow2(level),
            ) ==> self.valid_file_chunks(
                pairs,
                file,
                start,
                level,
                hash,
                self.is_root(start, level),
            ).contains(c)
    }

    /// A block that was decoded, and kept, is valid.
    proof fn lemma_kept_block(
        self,
        block: nat,
        is_root: bool,
        more: Seq<BaoChunk>,
        stack: Seq<Seq<u8>>,
        hash: Seq<u8>,
        input: Seq<u8>,
        pairs: Map<TreeNode, (Digest, Digest)>,
        file: Seq<u8>,
    ) -> (rest: Seq<u8>)
        requires
            self.self_contained(),
            block < self.spec_blocks(),
            run_kept(
                seq![self.leaf_item(block, is_root)] + more,
                stack.push(hash),
                input,
                pairs,
                file,
            ),
        ensures
            run_kept(more, stack, rest, pairs, file),
            self.has_block(file, block),
            self.valid_block(file, block, hash, is_root) == crate::validate::chunk_range(
                self.chunks_before(block),
                self.chunks_before(block + 1),
            ),
    {
        let item = self.leaf_item(block, is_root);
        let rest = lemma_first_kept(item, more, stack.push(hash), input, pairs, file);
        assert(stack.push(hash).drop_last() =~= stack);
        self.lemma_leaf_in_blob(block, is_root);
        self.lemma_leaf_item(block, is_root);
        self.lemma_chunks_before(block);
        rest
    }

    /// What was decoded for a node, and kept, is valid.
    proof fn lemma_kept_node(
        self,
        b: Seq<u64>,
        start: nat,
        level: nat,
        more: Seq<BaoChunk>,
        stack: Seq<Seq<u8>>,
        hash: Seq<u8>,
        input: Seq<u8>,
        pairs: Map<TreeNode, (Digest, Digest)>,
        file: Seq<u8>,
    ) -> (rest: Seq<u8>)
        requires
            self.self_contained(),
            self.has_node(start, level),
            self.no_pair_for_half_leaf(pairs),
            run_kept(
                self.pre_order(b, start, level) + more,
                if self.meets_node(b, start, level) {
                    stack.push(hash)
                } else {
                    stack
                },
                input,
                pairs,
                file,
            ),
        ensures
            run_kept(more, stack, rest, pairs, file),
            self.queried_valid(b, pairs, file, start, level, hash),
        decreases level,
    {
        let items = self.pre_order(b, start, level);
        let is_root = self.is_root(start, level);
        let left = self.meets_left(b, start, level);
        let right = self.meets_right(b, start, level);
        let mid = start + pow2(level);
        let end = start + 2 * pow2(level);
        pow::lemma_pow2_step(level);
        pow::lemma_pow2_step(0);
        self.lemma_meets_halves(b, start, level);
        self.lemma_meets_chunks(b, start, mid);
        self.lemma_meets_chunks(b, mid, end);
        self.lemma_meets_chunks(b, start, end);
        if !self.meets_node(b, start, level) {
            assert(items + more =~= more);
            input
        } else if !self.has_pair(start, level) {
            self.lemma_past_end(start + 1);
            self.lemma_past_end(start + 2);
            self.lemma_kept_block(start, is_root, more, stack, hash, input, pairs, file)
        } else {
            let parent = self.parent_item(start, level, left, right);
            let (il, ir) = if level > 0 {
                (
                    self.pre_order(b, start, (level - 1) as nat),
                    self.pre_order(b, mid, self.right_level(start, level)),
                )
            } else {
                (
                    if left {
                        seq![self.leaf_item(start, false)]
                    } else {
                        Seq::empty()
                    },
                    if right {
                        seq![self.leaf_item(start + 1, false)]
                    } else {
                        Seq::empty()
                    },
                )
            };
            assert(items + more =~= seq![parent] + (il + (ir + more)));
            let first = lemma_first_kept(
                parent,
                il + (ir + more),
                stack.push(hash),
                input,
                pairs,
                file,
            );
            assert(stack.push(hash).drop_last() =~= stack);
            let pair = pairs[self.node_of(start, level)];
            let with_right = if right {
                stack.push(pair.1@)
            } else {
                stack
            };
            if level > 0 {
                let rl = self.right_level(start, level);
                self.lemma_children(start, level);
                let second = self.lemma_kept_node(
                    b,
                    start,
                    (level - 1) as nat,
                    ir + more,
                    with_right,
                    pair.0@,
                    first,
                    pairs,
                    file,
                );
                let rest = self.lemma_kept_node(
                    b,
                    mid,
                    rl,
                    more,
                    stack,
                    pair.1@,
                    second,
                    pairs,
                    file,
                );
                assert(self.chunks_before(mid + 2 * pow2(rl)) == self.chunks_before(end));
                rest
            } else {
                let second = if left {
                    self.lemma_kept_block(
                        start,
                        false,
                        ir + more,
                        with_right,
                        pair.0@,
                        first,
                        pairs,
                        file,
                    )
                } else {
                    assert(il + (ir + more) =~= ir + more);
                    first
                };
                if right {
                    self.lemma_kept_block(start + 1, false, more, stack, pair.1@, second, pairs, file)
                } else {
                    assert(ir + more =~= more);
                    second
                }
            }
        }
    }

    /// A chunk of a set between two blocks is one that the set meets there.
    proof fn lemma_meets_chunks(self, b: Seq<u64>, from: nat, to: nat)
        requires
            self.valid(),
        ensures
            forall|c: int| #[trigger]
                ranges::in_ranges(b, c) && self.chunks_before(from) <= c < self.chunks_before(to)
                    ==> ranges::meets(b, self.chunk_at(from) as int, self.chunk_at(to) as int),
    {
        self.lemma_chunks_before(from);
        self.lemma_chunks_before(to);
    }
}

/// Whether items are decoded without a failure, and all that is decoded is kept.
pub open spec fn run_kept(
    items: Seq<BaoChunk>,
    stack: Seq<Seq<u8>>,
    input: Seq<u8>,
    pairs: Map<TreeNode, (Digest, Digest)>,
    file: Seq<u8>,
) -> bool {
    let run = response::decode_items(items, stack, input);
    &&& run.failure is None
    &&& forall|i: int| 0 <= i < run.items.len() ==> view_kept(#[trigger] run.items[i], pairs, file)
}

/// The first item of those that are decoded and kept.
proof fn lemma_first_kept(
    item: BaoChunk,
    more: Seq<BaoChunk>,
    stack: Seq<Seq<u8>>,
    input: Seq<u8>,
    pairs: Map<TreeNode, (Digest, Digest)>,
    file: Seq<u8>,
) -> (rest: Seq<u8>)
    requires
        run_kept(seq![item] + more, stack, input, pairs, file),
    ensures
        input.len() >= response::item_len(item),
        rest == input.skip(response::item_len(item) as int),
        ({
            let payload = input.take(response::item_len(item) as int);
            &&& view_kept(response::item_view(item, payload), pairs, file)
            &&& response::check_item(item, stack, payload) matches Some(next) && run_kept(
                more,
                next,
                rest,
                pairs,
                file,
            )
        }),
{
    let items = seq![item] + more;
    let n = response::item_len(item) as int;
    let rest = input.skip(n);
    let run = response::decode_items(items, stack, input);
    assert(items.drop_first() =~= more);
    assert(items[0] == item);
    let next = response::check_item(item, stack, input.take(n))->Some_0;
    let tail = response::decode_items(more, next, rest);
    assert(run.items[0] == response::item_view(item, input.take(n)));
    assert forall|i: int| 0 <= i < tail.items.len() implies view_kept(
        #[trigger] tail.items[i],
        pairs,
        file,
    ) by {
        assert(run.items[i + 1] == tail.items[i]);
    }
    rest
}

/// Saving adds a hash pair for nothing but what was decoded.
proof fn lemma_saved_nodes(views: Seq<ItemView>, pairs: Map<TreeNode, (Digest, Digest)>, n: TreeNode)
    requires
        decode::pairs_saved(views, pairs).contains_key(n),
    ensures
        pairs.contains_key(n) || exists|i: int|
            0 <= i < views.len() && (#[trigger] views[i] matches ItemView::Parent { node, .. }
                && node == n),
    decreases views.len(),
{
    if views.len() > 0 {
        let init = views.drop_last();
        if decode::pairs_saved(init, pairs).contains_key(n) {
            lemma_saved_nodes(init, pairs, n);
            if !pairs.contains_key(n) {
                let i = choose|i: int|
                    0 <= i < init.len() && (#[trigger] init[i] matches ItemView::Parent { node, .. }
                        && node == n);
                assert(views[i] == init[i]);
            }
        } else {
            assert(views[views.len() - 1] == views.last());
        }
    }
}

/// A header leaves hash pairs and bytes as they are.
pub(crate) proof fn lemma_without_header(
    header: ItemView,
    views: Seq<ItemView>,
    pairs: Map<TreeNode, (Digest, Digest)>,
    bytes: Seq<u8>,
)
    requires
        header is Header,
    ensures
        decode::pairs_saved(seq![header] + views, pairs) == decode::pairs_saved(views, pairs),
        decode::blocks_written(seq![header] + views, bytes) == decode::blocks_written(views, bytes),
    decreases views.len(),
{
    let all = seq![header] + views;
    if views.len() == 0 {
        assert(all.drop_last() =~= views);
    } else {
        lemma_without_header(header, views.drop_last(), pairs, bytes);
        assert(all.drop_last() =~= seq![header] + views.drop_last());
        assert(all.last() == views.last());
    }
}

/// Whatever the input: once a response to a query has been decoded without a
/// failure, every chunk of the query is valid by the hash pairs that were saved and
/// the bytes that were written.
pub proof fn law_decoded_chunks_are_valid(
    root: Seq<u8>,
    block_size: BlockSize,
    b: Seq<u64>,
    input: Seq<u8>,
    pairs: Map<TreeNode, (Digest, Digest)>,
    target: Seq<u8>,
)
    requires
        block_size.valid(),
        input.len() >= 8,
        response::decode_response(root, block_size, b, input).failure is None,
        (BaoTree {
            size: ByteNum(num::le_value(input.take(8)) as u64),
            block_size,
            start_chunk: ChunkNum(0),
        }).no_pair_for_half_leaf(pairs),
    ensures
        ({
            let tree = BaoTree {
                size: ByteNum(num::le_value(input.take(8)) as u64),
                block_size,
                start_chunk: ChunkNum(0),
            };
            let run = response::decode_response(root, block_size, b, input);
            forall|c: int| #[trigger]
                ranges::in_ranges(b, c) && 0 <= c < num::chunks_of(tree.size.0 as nat)
                    ==> tree.valid_file_chunks(
                    decode::pairs_saved(run.items, pairs),
                    decode::blocks_written(run.items, target),
                    0,
                    tree.root_level(),
                    root,
                    true,
                ).contains(c)
        }),
{
    let size = num::le_value(input.take(8)) as u64;
    let tree = BaoTree { size: ByteNum(size), block_size, start_chunk: ChunkNum(0) };
    let run = response::decode_response(root, block_size, b, input);
    let plan = tree.pre_order_plan(b);
    let level = tree.root_level();
    let rest = input.skip(8);
    let tail = response::decode_items(plan, seq![root], rest);
    let new_pairs = decode::pairs_saved(run.items, pairs);
    let new_bytes = decode::blocks_written(run.items, target);
    tree.lemma_root();
    tree.lemma_pre_apart(b, 0, level);
    lemma_views_fit(plan, seq![root], rest);
    lemma_without_header(ItemView::Header { size }, tail.items, pairs, target);
    lemma_views_kept(tail.items, plan, pairs, target);
    assert forall|start: nat|
        #![trigger tree.half_leaf(start)]
        tree.has_node(start, 0) && tree.half_leaf(start) implies !new_pairs.contains_key(
        tree.node_of(start, 0),
    ) by {
        let n = tree.node_of(start, 0);
        pow::lemma_pow2_step(0);
        tree.lemma_blocks();
        if new_pairs.contains_key(n) {
            lemma_saved_nodes(tail.items, pairs, n);
            let i = choose|i: int|
                0 <= i < tail.items.len() && (
                #[trigger] tail.items[i] matches ItemView::Parent { node, .. } && node == n);
            assert(view_fits(tail.items[i], plan[i]));
            assert(tree.item_below(plan[i], 0, 2 * pow2(level)));
        }
    }
    assert(plan + Seq::<BaoChunk>::empty() =~= plan);
    assert(Seq::<Seq<u8>>::empty().push(root) =~= seq![root]);
    tree.lemma_chunks_before(0);
    tree.lemma_chunks_before(2 * pow2(level));
    tree.lemma_past_end(2 * pow2(level));
    if tree.meets_node(b, 0, level) {
        tree.lemma_kept_node(
            b,
            0,
            level,
            Seq::empty(),
            Seq::empty(),
            root,
            rest,
            new_pairs,
            new_bytes,
        );
    } else {
        tree.lemma_meets_chunks(b, 0, 2 * pow2(level));
    }
}

/// Whether a block that was decoded ends before another starts. Other items have no
/// place.
pub open spec fn blocks_in_order(a: ItemView, b: ItemView) -> bool {
    match (a, b) {
        (ItemView::Leaf { offset, data }, ItemView::Leaf { offset: other, .. }) => offset < other
            && offset + data.len() <= other,
        _ => true,
    }
}

/// Whatever the input, and also before a failure: the blocks that are decoded come in
/// the order of their offsets, and do not overlap.
pub proof fn law_decoded_blocks_are_in_order(
    root: Seq<u8>,
    block_size: BlockSize,
    b: Seq<u64>,
    input: Seq<u8>,
)
    requires
        block_size.valid(),
    ensures
        ({
            let run = response::decode_response(root, block_size, b, input);
            forall|i: int, j: int|
                0 <= i < j < run.items.len() ==> blocks_in_order(
                    #[trigger] run.items[i],
                    #[trigger] run.items[j],
                )
        }),
{
    let size = num::le_value(input.take(8)) as u64;
    let tree = BaoTree { size: ByteNum(size), block_size, start_chunk: ChunkNum(0) };
    let run = response::decode_response(root, block_size, b, input);
    let plan = tree.pre_order_plan(b);
    let tail = response::decode_items(plan, seq![root], input.skip(8));
    tree.lemma_root();
    tree.lemma_pre_apart(b, 0, tree.root_level());
    lemma_views_fit(plan, seq![root], input.skip(8));
    assert forall|i: int, j: int| 0 <= i < j < run.items.len() implies blocks_in_order(
        #[trigger] run.items[i],
        #[trigger] run.items[j],
    ) by {
        if i > 0 {
            assert(run.items[i] == tail.items[i - 1]);
            assert(run.items[j] == tail.items[j - 1]);
            assert(view_fits(tail.items[i - 1], plan[i - 1]));
            assert(view_fits(tail.items[j - 1], plan[j - 1]));
            assert(items_apart(plan[i - 1], plan[j - 1]));
            assert(tree.item_below(plan[i - 1], 0, 2 * pow2(tree.root_level())));
            if size == 0 {
                assert(plan.len() <= 1);
            }
        }
    }
}

} // verus!
