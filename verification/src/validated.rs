//! What decoding gives of a response that was encoded with checks.
use vstd::arithmetic::power2::*;
use vstd::prelude::*;

use crate::decode;
use crate::decoded;
use crate::encode;
use crate::error::{DecodeError, EncodeError};
use crate::genuine;
use crate::hash;
use crate::hash::Digest;
use crate::io::{Outboard, OutboardMut, SliceReader, SliceWriter};
use crate::iter::BaoChunk;
use crate::node::TreeNode;
use crate::num;
use crate::num::ByteNum;
use crate::pow;
use crate::ranges;
use crate::response;
use crate::response::{Decoded, ItemView};
use crate::round_trip;
use crate::tree::BaoTree;

verus! {

/// Where nothing fails, all items come back as they were encoded.
proof fn lemma_passed_comes_back(
    items: Seq<BaoChunk>,
    stack: Seq<Seq<u8>>,
    pairs: Map<TreeNode, (Digest, Digest)>,
    blob: Seq<u8>,
)
    requires
        forall|i: int| 0 <= i < items.len() ==> round_trip::item_in_blob(#[trigger] items[i], blob),
        round_trip::decoded_back(items, stack, pairs, blob).failure is None,
    ensures
        round_trip::decoded_back(items, stack, pairs, blob) == (Decoded {
            items: round_trip::genuine_views(items, pairs, blob),
            failure: None,
            rest: Seq::empty(),
        }),
    decreases items.len(),
{
    let views = round_trip::genuine_views(items, pairs, blob);
    if items.len() == 0 {
        assert(views =~= Seq::empty());
    } else {
        let item = items[0];
        let more = items.drop_first();
        let bytes = response::item_bytes(item, pairs, blob);
        let encoded = response::encode_items(items, pairs, blob);
        let n = response::item_len(item) as int;
        assert(round_trip::item_in_blob(item, blob));
        assert(bytes.len() == n);
        assert(encoded.take(n) =~= bytes);
        assert(response::check_item(item, stack, bytes) is Some);
        let next = response::check_item(item, stack, bytes)->Some_0;
        assert(items =~= seq![item] + more);
        round_trip::lemma_back_item(item, more, stack, next, pairs, blob);
        assert forall|i: int| 0 <= i < more.len() implies round_trip::item_in_blob(
            #[trigger] more[i],
            blob,
        ) by {
            assert(more[i] == items[i + 1]);
        }
        lemma_passed_comes_back(more, next, pairs, blob);
        assert(views =~= round_trip::genuine_views(seq![item], pairs, blob)
            + round_trip::genuine_views(more, pairs, blob));
    }
}

/// The header, and then what the items of a query give of the hash pairs of an outboard
/// and the blocks of a blob.
pub open spec fn sent_items<D: SliceReader, O: Outboard>(
    data: &D,
    outboard: &O,
    b: Seq<u64>,
) -> Seq<ItemView> {
    let tree = outboard.spec_tree();
    seq![ItemView::Header { size: tree.size.0 }] + round_trip::genuine_views(
        tree.pre_order_plan(b),
        outboard.pairs(),
        data.bytes(),
    )
}

/// Whether what was decoded is the size of a tree, a hash pair of a store, or bytes of a
/// blob at their offset.
pub open spec fn view_from(
    view: ItemView,
    tree: BaoTree,
    pairs: Map<TreeNode, (Digest, Digest)>,
    blob: Seq<u8>,
) -> bool {
    match view {
        ItemView::Header { size } => size == tree.size.0,
        ItemView::Parent { node, pair } => pairs.contains_key(node) && pair == (
            pairs[node].0@,
            pairs[node].1@,
        ),
        ItemView::Leaf { offset, data } => offset + data.len() <= blob.len() && data
            == blob.subrange(offset as int, (offset + data.len()) as int),
    }
}

/// Whatever the outboard: what was encoded with checks, and without an error, is decoded
/// as the size, and then exactly the hash pairs of the outboard and the blocks of the
/// data that the query asks for, without a failure and without input that is left.
pub proof fn law_validated_round_trip<D: SliceReader, O: Outboard>(
    data: &D,
    outboard: &O,
    b: Seq<u64>,
    before: Seq<u8>,
    r: Result<(), EncodeError>,
    after: Seq<u8>,
)
    requires
        outboard.spec_tree().self_contained(),
        encode::encode_validated_outcome(data, outboard, b, before, r, after),
        r is Ok,
    ensures
        before.len() <= after.len(),
        response::decode_response(
            outboard.spec_root()@,
            outboard.spec_tree().block_size,
            b,
            after.skip(before.len() as int),
        ) == (Decoded {
            items: sent_items(data, outboard, b),
            failure: None,
            rest: Seq::empty(),
        }),
        forall|i: int|
            0 <= i < sent_items(data, outboard, b).len() ==> view_from(
                #[trigger] sent_items(data, outboard, b)[i],
                outboard.spec_tree(),
                outboard.pairs(),
                data.bytes(),
            ),
{
    let tree = outboard.spec_tree();
    let root = outboard.spec_root()@;
    let pairs = outboard.pairs();
    let blob = data.bytes();
    let plan = tree.pre_order_plan(b);
    let sent = response::encode_response(tree, pairs, b, blob);
    assert(after.skip(before.len() as int) =~= sent);
    round_trip::law_decoding_finds_what_validation_finds(tree, b, root, pairs, blob);
    tree.lemma_pre_plan(b);
    assert forall|i: int| 0 <= i < plan.len() implies round_trip::item_in_blob(
        #[trigger] plan[i],
        blob,
    ) by {}
    lemma_passed_comes_back(plan, seq![root], pairs, blob);
    let items = sent_items(data, outboard, b);
    assert forall|i: int| 0 <= i < items.len() implies view_from(
        #[trigger] items[i],
        tree,
        pairs,
        blob,
    ) by {
        if i > 0 {
            let item = plan[i - 1];
            let bytes = response::item_bytes(item, pairs, blob);
            assert(items[i] == response::item_view(item, bytes));
            if let BaoChunk::Parent { node, .. } = item {
                assert(bytes.take(32) =~= pairs[node].0@);
                assert(bytes.skip(32) =~= pairs[node].1@);
            }
        }
    }
}

/// Whether an item is the hash pair of a node.
pub open spec fn is_pair_of(item: BaoChunk, node: TreeNode) -> bool {
    item matches BaoChunk::Parent { node: n, .. } && n == node
}

/// Whether the hash pair of a node is among the items.
pub open spec fn has_pair_of(items: Seq<BaoChunk>, node: TreeNode) -> bool {
    exists|i: int| 0 <= i < items.len() && is_pair_of(#[trigger] items[i], node)
}

/// Whether a set has all chunks of a blob.
pub open spec fn has_all_chunks(b: Seq<u64>, blob_len: nat) -> bool {
    forall|c: int| 0 <= c < num::chunks_of(blob_len) ==> #[trigger] ranges::in_ranges(b, c)
}

impl BaoTree {
    /// Whether a query asks for the hash pair of a node: the node has one, and covers a
    /// chunk of the query.
    pub open spec fn pair_asked(self, b: Seq<u64>, start: nat, level: nat) -> bool {
        &&& self.has_node(start, level)
        &&& self.has_pair(start, level)
        &&& self.meets_node(b, start, level)
    }

    /// A node that starts in the right half of another, and is not above it, is below its
    /// right child.
    proof fn lemma_below_right(self, start: nat, level: nat, s: nat, l: nat)
        requires
            self.valid(),
            self.has_node(start, level),
            self.has_node(s, l),
            l < level,
            start + pow2(level) <= s < start + 2 * pow2(level),
        ensures
            s < start + pow2(level) + 2 * pow2(self.right_level(start, level)),
            l <= self.right_level(start, level),
    {
        let mid = start + pow2(level);
        let r = self.right_level(start, level);
        self.lemma_children(start, level);
        pow::lemma_pow2_step(r);
        pow::lemma_pow2_step(l);
        if l > r {
            pow::lemma_pow2_mono(r + 1, l);
            pow::lemma_pow2_mono(l + 1, level);
            pow::lemma_pow2_divides(l + 1, level);
            pow::lemma_multiple_of_smaller(start, l + 1, level + 1);
            pow::lemma_sum_of_multiples(start, pow2(level), pow2(l + 1));
            if mid < s {
                pow::lemma_multiples_apart(mid, s, pow2(l + 1));
            }
        }
    }

    /// The items of a node have the hash pairs that a query asks for below it.
    proof fn lemma_pre_has_pair(self, b: Seq<u64>, start: nat, level: nat, s: nat, l: nat)
        requires
            self.valid(),
            self.has_node(start, level),
            self.pair_asked(b, s, l),
            start <= s < start + 2 * pow2(level),
            l <= level,
        ensures
            has_pair_of(self.pre_order(b, start, level), self.node_of(s, l)),
        decreases level,
    {
        let items = self.pre_order(b, start, level);
        let n = self.node_of(s, l);
        let end = start + 2 * pow2(level);
        pow::lemma_pow2_step(level);
        pow::lemma_pow2_step(l);
        pow::lemma_pow2_divides(l + 1, level + 1);
        pow::lemma_multiple_of_smaller(start, l + 1, level + 1);
        pow::lemma_sum_of_multiples(start, 2 * pow2(level), pow2(l + 1));
        pow::lemma_multiples_apart(s, end, pow2(l + 1));
        self.lemma_chunk_at_mono(start, s);
        self.lemma_chunk_at_mono(s + 2 * pow2(l), end);
        assert(self.meets_node(b, start, level));
        if l == level {
            if start < s {
                pow::lemma_multiples_apart(start, s, pow2(l + 1));
            }
            assert(is_pair_of(items[0], n));
        } else {
            let mid = start + pow2(level);
            let r = self.right_level(start, level);
            let il = self.pre_order(b, start, (level - 1) as nat);
            let ir = self.pre_order(b, mid, r);
            self.lemma_children(start, level);
            if s < mid {
                self.lemma_pre_has_pair(b, start, (level - 1) as nat, s, l);
                let i = choose|i: int| 0 <= i < il.len() && is_pair_of(#[trigger] il[i], n);
                assert(items[i + 1] == il[i]);
            } else {
                self.lemma_below_right(start, level, s, l);
                self.lemma_pre_has_pair(b, mid, r, s, l);
                let i = choose|i: int| 0 <= i < ir.len() && is_pair_of(#[trigger] ir[i], n);
                assert(items[i + 1 + il.len()] == ir[i]);
            }
        }
    }

    /// Whether an item is the hash pair of a node that a query asks for.
    pub open spec fn is_pair_asked(
        self,
        b: Seq<u64>,
        item: BaoChunk,
        start: nat,
        level: nat,
    ) -> bool {
        self.pair_asked(b, start, level) && is_pair_of(item, self.node_of(start, level))
    }

    /// The hash pairs among the items of a node are asked for.
    proof fn lemma_pre_pairs_asked(self, b: Seq<u64>, start: nat, level: nat)
        requires
            self.valid(),
            self.has_node(start, level),
        ensures
            forall|i: int|
                0 <= i < self.pre_order(b, start, level).len() && (#[trigger] self.pre_order(
                    b,
                    start,
                    level,
                )[i]) is Parent ==> exists|s: nat, l: nat| #[trigger]
                    self.is_pair_asked(b, self.pre_order(b, start, level)[i], s, l),
        decreases level,
    {
        let items = self.pre_order(b, start, level);
        if level > 0 {
            self.lemma_children(start, level);
            self.lemma_pre_pairs_asked(b, start, (level - 1) as nat);
            self.lemma_pre_pairs_asked(b, start + pow2(level), self.right_level(start, level));
        }
        assert forall|i: int| 0 <= i < items.len() && (#[trigger] items[i]) is Parent implies exists|
            s: nat,
            l: nat,
        | #[trigger]
            self.is_pair_asked(b, items[i], s, l) by {
            if i == 0 {
                assert(self.is_pair_asked(b, items[0], start, level));
            } else if level > 0 {
                let il = self.pre_order(b, start, (level - 1) as nat);
                let ir = self.pre_order(b, start + pow2(level), self.right_level(start, level));
                if i - 1 < il.len() {
                    assert(items[i] == il[i - 1]);
                } else {
                    assert(items[i] == ir[i - 1 - il.len()]);
                }
            }
        }
    }
}

/// A response has the hash pair of every node that covers a chunk of the query, if the
/// node has one, exactly once, and no others. If the query has all chunks, it has the
/// hash pair of every node.
pub proof fn law_response_has_each_pair_once(tree: BaoTree, b: Seq<u64>)
    requires
        tree.self_contained(),
    ensures
        forall|start: nat, level: nat| #[trigger]
            tree.pair_asked(b, start, level) ==> has_pair_of(
                tree.pre_order_plan(b),
                tree.node_of(start, level),
            ),
        forall|i: int|
            0 <= i < tree.pre_order_plan(b).len() && (#[trigger] tree.pre_order_plan(b)[i]) is Parent
                ==> exists|start: nat, level: nat| #[trigger]
                tree.is_pair_asked(b, tree.pre_order_plan(b)[i], start, level),
        forall|i: int, j: int, node: TreeNode|
            0 <= i < tree.pre_order_plan(b).len() && 0 <= j < tree.pre_order_plan(b).len()
                && #[trigger] is_pair_of(tree.pre_order_plan(b)[i], node) && #[trigger] is_pair_of(
                tree.pre_order_plan(b)[j],
                node,
            ) ==> i == j,
        has_all_chunks(b, tree.size.0 as nat) ==> forall|start: nat, level: nat|
            #![trigger tree.has_pair(start, level)]
            tree.has_node(start, level) && tree.has_pair(start, level) ==> tree.pair_asked(
                b,
                start,
                level,
            ),
{
    let plan = tree.pre_order_plan(b);
    let root = tree.root_level();
    tree.lemma_root();
    tree.lemma_pre_pairs_asked(b, 0, root);
    tree.lemma_pre_apart(b, 0, root);
    assert forall|start: nat, level: nat| #[trigger]
        tree.pair_asked(b, start, level) implies has_pair_of(plan, tree.node_of(start, level)) by {
        if level > root {
            pow::lemma_pow2_step(root);
            pow::lemma_pow2_mono(root + 1, level);
        }
        tree.lemma_pre_has_pair(b, 0, root, start, level);
    }
    assert forall|i: int, j: int, node: TreeNode|
        0 <= i < plan.len() && 0 <= j < plan.len() && #[trigger] is_pair_of(plan[i], node)
            && #[trigger] is_pair_of(plan[j], node) implies i == j by {
        if i < j {
            assert(decoded::items_apart(plan[i], plan[j]));
        } else if j < i {
            assert(decoded::items_apart(plan[j], plan[i]));
        }
    }
    if has_all_chunks(b, tree.size.0 as nat) {
        assert forall|start: nat, level: nat|
            #![trigger tree.has_pair(start, level)]
            tree.has_node(start, level) && tree.has_pair(start, level) implies tree.pair_asked(
            b,
            start,
            level,
        ) by {
            lemma_all_chunks_meet(tree, b, start, level);
        }
    }
}

/// A set with all chunks of a blob meets every node that has a hash pair.
proof fn lemma_all_chunks_meet(tree: BaoTree, b: Seq<u64>, start: nat, level: nat)
    requires
        tree.self_contained(),
        tree.has_node(start, level),
        tree.has_pair(start, level),
        has_all_chunks(b, tree.size.0 as nat),
    ensures
        tree.meets_node(b, start, level),
{
    let c = tree.chunk_at(start) as int;
    let g = tree.block_size.spec_chunks();
    pow::lemma_pow2_step(level);
    pow::lemma_pow2_step(tree.block_size.0 as nat);
    tree.lemma_blocks();
    tree.lemma_block_start(start);
    assert((start + 1) * g == start * g + g) by (nonlinear_arith);
    tree.lemma_chunk_at_mono(start + 1, start + 2 * pow2(level));
    assert(ranges::in_ranges(b, c));
}

/// Whether, among what was decoded, the hash pair of a node is there exactly once.
pub open spec fn pair_once(views: Seq<ItemView>, node: TreeNode, pair: (Digest, Digest)) -> bool {
    exists|i: int|
        0 <= i < views.len() && #[trigger] views[i] == (ItemView::Parent {
            node,
            pair: (pair.0@, pair.1@),
        }) && forall|j: int|
            0 <= j < views.len() && (#[trigger] views[j] matches ItemView::Parent { node: n, .. }
                && n == node) ==> j == i
}

/// What a store and a target have of a response that was encoded with checks: the bytes
/// of the data in every block and every chunk of the query, with all of the data if the
/// query has all chunks and the target was no longer, and the hash pairs of the outboard
/// for every node that covers a chunk of the query.
pub open spec fn arrived<D: SliceReader, O: Outboard, P: OutboardMut, W: SliceWriter>(
    data: &D,
    outboard: &O,
    b: Seq<u64>,
    store_after: P,
    target: W,
    target_after: W,
) -> bool {
    let tree = outboard.spec_tree();
    let blob = data.bytes();
    &&& store_after.spec_tree().size == tree.size
    &&& genuine::has_queried_blocks(tree, b, blob, target.bytes(), target_after.bytes())
    &&& genuine::has_queried_chunks(b, blob, target.bytes(), target_after.bytes())
    &&& forall|start: nat, level: nat| #[trigger]
        tree.pair_asked(b, start, level) ==> {
            let node = tree.node_of(start, level);
            store_after.pairs().contains_key(node) && store_after.pairs()[node]
                == outboard.pairs()[node]
        }
}

/// Whether what was encoded with checks, and without an error, was decoded into a store
/// and a target that do not fail, given the same root hash and block size.
pub open spec fn received<D: SliceReader, O: Outboard, P: OutboardMut, W: SliceWriter>(
    data: &D,
    outboard: &O,
    b: Seq<u64>,
    before: Seq<u8>,
    sent: Result<(), EncodeError>,
    after: Seq<u8>,
    r: Result<(), DecodeError>,
    rest: Seq<u8>,
    store: P,
    store_after: P,
    target: W,
    target_after: W,
) -> bool {
    let input = after.skip(before.len() as int);
    &&& outboard.spec_tree().self_contained()
    &&& encode::encode_validated_outcome(data, outboard, b, before, sent, after)
    &&& sent is Ok
    &&& store.spec_root() == outboard.spec_root()
    &&& store.spec_tree().block_size == outboard.spec_tree().block_size
    &&& store.reliable()
    &&& target.reliable()
    &&& decode::decode_outcome(
        response::decode_response(
            store.spec_root()@,
            store.spec_tree().block_size,
            b,
            input,
        ),
        input,
        r,
        rest,
        store,
        store_after,
        target,
        target_after,
    )
}

/// Whatever the outboard: where what was encoded with checks, and without an error, is
/// decoded into a store and a target, given the same root hash and block size, and
/// neither of them fails, nothing fails and no input is left. By one call for each item,
/// and no others, the data and the hash pairs arrive: the size, each block and each hash
/// pair of the query once.
pub proof fn law_validated_response_arrives<
    D: SliceReader,
    O: Outboard,
    P: OutboardMut,
    W: SliceWriter,
>(
    data: &D,
    outboard: &O,
    b: Seq<u64>,
    before: Seq<u8>,
    sent: Result<(), EncodeError>,
    after: Seq<u8>,
    r: Result<(), DecodeError>,
    rest: Seq<u8>,
    store: P,
    store_after: P,
    target: W,
    target_after: W,
)
    requires
        received(
            data,
            outboard,
            b,
            before,
            sent,
            after,
            r,
            rest,
            store,
            store_after,
            target,
            target_after,
        ),
    ensures
        r is Ok,
        rest.len() == 0,
        decode::items_put(
            sent_items(data, outboard, b),
            store,
            target,
            store_after,
            target_after,
        ),
        forall|start: nat, level: nat| #[trigger]
            outboard.spec_tree().pair_asked(b, start, level) ==> pair_once(
                sent_items(data, outboard, b),
                outboard.spec_tree().node_of(start, level),
                outboard.pairs()[outboard.spec_tree().node_of(start, level)],
            ),
        arrived(data, outboard, b, store_after, target, target_after),
{
    let tree = outboard.spec_tree();
    let pairs = outboard.pairs();
    let blob = data.bytes();
    let plan = tree.pre_order_plan(b);
    let input = after.skip(before.len() as int);
    let run = response::decode_response(outboard.spec_root()@, tree.block_size, b, input);
    let items = sent_items(data, outboard, b);
    let views = round_trip::genuine_views(plan, pairs, blob);
    let base = store.resized(ByteNum(tree.size.0));
    law_validated_round_trip(data, outboard, b, before, sent, after);
    law_response_has_each_pair_once(tree, b);
    genuine::lemma_genuine_target(tree, b, pairs, blob, target.bytes());
    assert(run.items == items);
    assert(items[0] == ItemView::Header { size: tree.size.0 });
    assert(r is Ok);
    lemma_size_set(ItemView::Header { size: tree.size.0 }, views, store.spec_tree());
    tree.lemma_root();
    tree.lemma_pre_apart(b, 0, tree.root_level());
    decoded::lemma_without_header(ItemView::Header { size: tree.size.0 }, views, base, target.bytes());
    assert forall|i: int| 0 <= i < plan.len() implies decoded::view_fits(
        #[trigger] views[i],
        plan[i],
    ) by {
        lemma_genuine_fits(tree, b, i, pairs, blob);
    }
    decoded::lemma_views_kept(views, plan, base, target.bytes());
    assert forall|start: nat, level: nat| #[trigger] tree.pair_asked(b, start, level) implies {
        let node = tree.node_of(start, level);
        store_after.pairs().contains_key(node) && store_after.pairs()[node] == pairs[node]
    } by {
        let node = tree.node_of(start, level);
        let i = choose|i: int| 0 <= i < plan.len() && is_pair_of(#[trigger] plan[i], node);
        let bytes = response::item_bytes(plan[i], pairs, blob);
        let kept = store_after.pairs()[node];
        assert(decoded::view_kept(
            views[i],
            store_after.pairs(),
            decode::blocks_written(views, target.bytes()),
        ));
        assert(bytes.take(32) =~= pairs[node].0@);
        assert(bytes.skip(32) =~= pairs[node].1@);
        hash::lemma_digest_of(kept.0);
        hash::lemma_digest_of(kept.1);
        hash::lemma_digest_of(pairs[node].0);
        hash::lemma_digest_of(pairs[node].1);
    }
    assert forall|start: nat, level: nat| #[trigger] tree.pair_asked(b, start, level) implies pair_once(
        items,
        tree.node_of(start, level),
        pairs[tree.node_of(start, level)],
    ) by {
        let node = tree.node_of(start, level);
        let i = choose|i: int| 0 <= i < plan.len() && is_pair_of(#[trigger] plan[i], node);
        let bytes = response::item_bytes(plan[i], pairs, blob);
        assert(bytes.take(32) =~= pairs[node].0@);
        assert(bytes.skip(32) =~= pairs[node].1@);
        assert(items[i + 1] == ItemView::Parent { node, pair: (pairs[node].0@, pairs[node].1@) });
        assert forall|j: int|
            0 <= j < items.len() && (#[trigger] items[j] matches ItemView::Parent { node: n, .. }
                && n == node) implies j == i + 1 by {
            assert(items[j] == views[j - 1]);
            assert(is_pair_of(plan[j - 1], node));
            assert(is_pair_of(plan[i], node));
        }
    }
}

/// Whatever the outboard: where a response to a query for all chunks was encoded with
/// checks, and without an error, decoding it leaves the data in a target that was empty,
/// or no longer than the data, and the size and all hash pairs in the store, each of them
/// saved exactly once.
pub proof fn law_validated_blob_arrives<
    D: SliceReader,
    O: Outboard,
    P: OutboardMut,
    W: SliceWriter,
>(
    data: &D,
    outboard: &O,
    b: Seq<u64>,
    before: Seq<u8>,
    sent: Result<(), EncodeError>,
    after: Seq<u8>,
    r: Result<(), DecodeError>,
    rest: Seq<u8>,
    store: P,
    store_after: P,
    target: W,
    target_after: W,
)
    requires
        received(
            data,
            outboard,
            b,
            before,
            sent,
            after,
            r,
            rest,
            store,
            store_after,
            target,
            target_after,
        ),
        has_all_chunks(b, data.bytes().len()),
        target.bytes().len() <= data.bytes().len(),
    ensures
        r is Ok,
        target_after.bytes() == data.bytes(),
        store_after.spec_tree().size == outboard.spec_tree().size,
        decode::items_put(
            sent_items(data, outboard, b),
            store,
            target,
            store_after,
            target_after,
        ),
        forall|start: nat, level: nat|
            #![trigger outboard.spec_tree().has_pair(start, level)]
            outboard.spec_tree().has_node(start, level) && outboard.spec_tree().has_pair(
                start,
                level,
            ) ==> {
                let node = outboard.spec_tree().node_of(start, level);
                &&& pair_once(sent_items(data, outboard, b), node, outboard.pairs()[node])
                &&& store_after.pairs().contains_key(node)
                &&& store_after.pairs()[node] == outboard.pairs()[node]
            },
{
    law_validated_response_arrives(
        data,
        outboard,
        b,
        before,
        sent,
        after,
        r,
        rest,
        store,
        store_after,
        target,
        target_after,
    );
    law_response_has_each_pair_once(outboard.spec_tree(), b);
}

/// The size that a header sets stays set.
proof fn lemma_size_set(header: ItemView, views: Seq<ItemView>, tree: BaoTree)
    requires
        header is Header,
        forall|i: int| 0 <= i < views.len() ==> !(#[trigger] views[i] is Header),
    ensures
        decode::size_set(seq![header] + views, tree).size.0 == header->size,
    decreases views.len(),
{
    let all = seq![header] + views;
    if views.len() > 0 {
        assert(all.drop_last() =~= seq![header] + views.drop_last());
        assert(all.last() == views[views.len() - 1]);
        lemma_size_set(header, views.drop_last(), tree);
    }
}

/// What an item gives is of its kind and at its place.
proof fn lemma_genuine_fits(
    tree: BaoTree,
    b: Seq<u64>,
    i: int,
    pairs: Map<TreeNode, (Digest, Digest)>,
    blob: Seq<u8>,
)
    requires
        tree.self_contained(),
        blob.len() == tree.size.0,
        0 <= i < tree.pre_order_plan(b).len(),
    ensures
        decoded::view_fits(
            round_trip::genuine_views(tree.pre_order_plan(b), pairs, blob)[i],
            tree.pre_order_plan(b)[i],
        ),
{
    tree.lemma_pre_plan(b);
    let item = tree.pre_order_plan(b)[i];
    let bytes = response::item_bytes(item, pairs, blob);
    if item is Parent {
        assert(bytes.len() == 64);
    }
}

} // verus!
