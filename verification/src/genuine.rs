//! What a checked response, or a checked file, says of the blob with the root hash.
use vstd::prelude::*;

use crate::consistency;
use crate::decode;
use crate::hash;
use crate::hash::Digest;
use crate::iter::BaoChunk;
use crate::node::TreeNode;
use crate::num;
use crate::ranges;
use crate::response;
use crate::response::ItemView;
use crate::round_trip;
use crate::tree::BaoTree;

verus! {

/// Two different hash pairs with the same hash.
pub open spec fn pairs_collide(
    l: Seq<u8>,
    r: Seq<u8>,
    l2: Seq<u8>,
    r2: Seq<u8>,
    is_root: bool,
) -> bool {
    &&& l.len() == 32 && r.len() == 32 && l2.len() == 32 && r2.len() == 32
    &&& !(l == l2 && r == r2)
    &&& hash::parent_hash(l, r, is_root) == hash::parent_hash(l2, r2, is_root)
}

/// A hash pair that has the hash of some data and is not that of its halves.
pub open spec fn pair_forged(
    l: Seq<u8>,
    r: Seq<u8>,
    data: Seq<u8>,
    chunk: nat,
    is_root: bool,
) -> bool {
    let m = hash::left_len(data.len());
    &&& l.len() == 32 && r.len() == 32
    &&& hash::parent_hash(l, r, is_root) == hash::subtree_hash(data, chunk, is_root)
    &&& data.len() > 1024 ==> !(l == hash::subtree_hash(data.take(m as int), chunk, false) && r
        == hash::subtree_hash(data.skip(m as int), chunk + m / 1024, false))
}

/// Different data at the same place with the same hash.
pub open spec fn data_collide(a: Seq<u8>, b: Seq<u8>, chunk: nat, is_root: bool) -> bool {
    a != b && hash::subtree_hash(a, chunk, is_root) == hash::subtree_hash(b, chunk, is_root)
}

/// Whether what was decoded for an item is a forgery: it differs from what the blob
/// has there, and has the same hash.
pub open spec fn view_forged(
    item: BaoChunk,
    view: ItemView,
    pairs: Map<TreeNode, (Digest, Digest)>,
    blob: Seq<u8>,
) -> bool {
    match item {
        BaoChunk::Parent { node, is_root, .. } => view matches ItemView::Parent { pair, .. }
            && pairs_collide(pair.0, pair.1, pairs[node].0@, pairs[node].1@, is_root),
        BaoChunk::Leaf { size, is_root, start_chunk } => view matches ItemView::Leaf { data, .. }
            && data.len() == size && data_collide(
            data,
            response::item_bytes(item, pairs, blob),
            start_chunk.0 as nat,
            is_root,
        ),
    }
}

/// Whether one of the views that were decoded, item by item, is a forgery.
pub open spec fn forged(
    views: Seq<ItemView>,
    items: Seq<BaoChunk>,
    pairs: Map<TreeNode, (Digest, Digest)>,
    blob: Seq<u8>,
) -> bool {
    exists|i: int|
        0 <= i < items.len() && i < views.len() && view_forged(
            #[trigger] items[i],
            views[i],
            pairs,
            blob,
        )
}

/// An item that is accepted has the genuine bytes, or is a forgery.
proof fn lemma_item_genuine(
    item: BaoChunk,
    stack: Seq<Seq<u8>>,
    payload: Seq<u8>,
    pairs: Map<TreeNode, (Digest, Digest)>,
    blob: Seq<u8>,
)
    requires
        round_trip::item_in_blob(item, blob),
        payload.len() == response::item_len(item),
        response::check_item(item, stack, response::item_bytes(item, pairs, blob)) is Some,
        response::check_item(item, stack, payload) is Some,
    ensures
        payload == response::item_bytes(item, pairs, blob) || view_forged(
            item,
            response::item_view(item, payload),
            pairs,
            blob,
        ),
{
    let bytes = response::item_bytes(item, pairs, blob);
    match item {
        BaoChunk::Parent { node, .. } => {
            let (l2, r2) = (payload.take(32), payload.skip(32));
            assert(payload =~= l2 + r2);
            assert(bytes.take(32) =~= pairs[node].0@);
            assert(bytes.skip(32) =~= pairs[node].1@);
        },
        BaoChunk::Leaf { .. } => {},
    }
}

/// Items that are accepted are genuine, where the genuine ones are accepted, or one of
/// them is a forgery.
proof fn lemma_items_genuine(
    items: Seq<BaoChunk>,
    stack: Seq<Seq<u8>>,
    input: Seq<u8>,
    pairs: Map<TreeNode, (Digest, Digest)>,
    blob: Seq<u8>,
)
    requires
        forall|i: int| 0 <= i < items.len() ==> round_trip::item_in_blob(#[trigger] items[i], blob),
        round_trip::decoded_back(items, stack, pairs, blob).failure is None,
    ensures
        ({
            let run = response::decode_items(items, stack, input);
            let views = round_trip::genuine_views(items, pairs, blob);
            forged(run.items, items, pairs, blob) || {
                &&& run.items.len() <= views.len()
                &&& run.items == views.take(run.items.len() as int)
                &&& run.failure is None ==> run.items == views
            }
        }),
    decreases items.len(),
{
    let run = response::decode_items(items, stack, input);
    let views = round_trip::genuine_views(items, pairs, blob);
    if items.len() == 0 {
        assert(run.items =~= views);
    } else {
        let n = response::item_len(items[0]) as int;
        let bytes = response::item_bytes(items[0], pairs, blob);
        let rest = items.drop_first();
        let encoded = response::encode_items(items, pairs, blob);
        assert(round_trip::item_in_blob(items[0], blob));
        assert(bytes.len() == n);
        assert(encoded.take(n) =~= bytes);
        assert(encoded.skip(n) =~= response::encode_items(rest, pairs, blob));
        assert forall|i: int| 0 <= i < rest.len() implies round_trip::item_in_blob(
            #[trigger] rest[i],
            blob,
        ) by {
            assert(rest[i] == items[i + 1]);
        }
        if input.len() >= n && response::check_item(items[0], stack, input.take(n)) is Some {
            let payload = input.take(n);
            let next = response::check_item(items[0], stack, bytes)->Some_0;
            lemma_item_genuine(items[0], stack, payload, pairs, blob);
            if payload != bytes {
                assert(run.items[0] == response::item_view(items[0], payload));
                assert(view_forged(items[0], run.items[0], pairs, blob));
            } else {
                lemma_items_genuine(rest, next, input.skip(n), pairs, blob);
                let tail = response::decode_items(rest, next, input.skip(n));
                let tail_views = round_trip::genuine_views(rest, pairs, blob);
                if forged(tail.items, rest, pairs, blob) {
                    let i = choose|i: int|
                        0 <= i < rest.len() && i < tail.items.len() && view_forged(
                            #[trigger] rest[i],
                            tail.items[i],
                            pairs,
                            blob,
                        );
                    assert(items[i + 1] == rest[i]);
                    assert(run.items[i + 1] == tail.items[i]);
                } else {
                    assert(views =~= seq![response::item_view(items[0], bytes)] + tail_views);
                    assert(run.items =~= views.take(run.items.len() as int));
                }
            }
        } else {
            assert(run.items =~= views.take(0));
        }
    }
}

/// The header, and then what the items of a query give of a blob.
pub open spec fn genuine_items(tree: BaoTree, b: Seq<u64>, blob: Seq<u8>) -> Seq<ItemView> {
    seq![ItemView::Header { size: tree.size.0 }] + round_trip::genuine_views(
        tree.pre_order_plan(b),
        tree.pairs_of(blob),
        blob,
    )
}

/// Whatever the input: what a decoder accepts, given the root hash and the size of a
/// blob, is what the blob gives, item by item, and all of it if there is no failure.
/// Otherwise one of the accepted items differs from the blob's and has the same hash.
pub proof fn law_decoded_is_genuine(
    tree: BaoTree,
    b: Seq<u64>,
    blob: Seq<u8>,
    input: Seq<u8>,
)
    requires
        tree.self_contained(),
        blob.len() == tree.size.0,
        input.len() >= 8,
        num::le_value(input.take(8)) == tree.size.0,
    ensures
        ({
            let root = hash::subtree_hash(blob, 0, true);
            let run = response::decode_response(root, tree.block_size, b, input);
            let genuine = genuine_items(tree, b, blob);
            forged(run.items.skip(1), tree.pre_order_plan(b), tree.pairs_of(blob), blob) || {
                &&& run.items.len() <= genuine.len()
                &&& run.items == genuine.take(run.items.len() as int)
                &&& run.failure is None ==> run.items == genuine
            }
        }),
{
    let root = hash::subtree_hash(blob, 0, true);
    let pairs = tree.pairs_of(blob);
    let run = response::decode_response(root, tree.block_size, b, input);
    let plan = tree.pre_order_plan(b);
    consistency::law_blob_has_consistent_pairs(tree, blob);
    tree.lemma_plan_decoded_back(b, root, pairs, blob);
    tree.lemma_pre_plan(b);
    assert forall|i: int| 0 <= i < plan.len() implies round_trip::item_in_blob(
        #[trigger] plan[i],
        blob,
    ) by {}
    lemma_items_genuine(plan, seq![root], input.skip(8), pairs, blob);
    let tail = response::decode_items(plan, seq![root], input.skip(8));
    if ranges::ranges_canonical(b, num::chunks_of(tree.size.0 as nat)) {
        assert(run.items.skip(1) =~= tail.items);
    }
    assert(run.items.len() > 0 ==> run.items =~= seq![run.items[0]] + tail.items);
    if !forged(run.items.skip(1), plan, pairs, blob) {
        assert(run.items =~= genuine_items(tree, b, blob).take(run.items.len() as int));
    }
}

/// Whether a block that was decoded has the bytes of a blob.
pub open spec fn view_genuine(view: ItemView, blob: Seq<u8>) -> bool {
    view matches ItemView::Leaf { offset, data } ==> offset + data.len() <= blob.len() && data
        == blob.subrange(offset as int, (offset + data.len()) as int)
}

/// Whether a byte is in a block that was decoded.
pub open spec fn view_covers(view: ItemView, x: int) -> bool {
    view matches ItemView::Leaf { offset, data } && offset <= x < offset + data.len()
}

/// Whether a byte is in one of the blocks that were decoded.
pub open spec fn covered(views: Seq<ItemView>, x: int) -> bool {
    exists|i: int| 0 <= i < views.len() && view_covers(#[trigger] views[i], x)
}

/// What a target has after genuine blocks have been written.
proof fn lemma_blocks_written(views: Seq<ItemView>, blob: Seq<u8>, bytes: Seq<u8>)
    requires
        forall|i: int| 0 <= i < views.len() ==> view_genuine(#[trigger] views[i], blob),
    ensures
        ({
            let after = decode::blocks_written(views, bytes);
            &&& bytes.len() <= after.len()
            &&& after.len() <= bytes.len() || after.len() <= blob.len()
            &&& forall|x: int| #[trigger]
                covered(views, x) ==> 0 <= x < after.len() && after[x] == blob[x]
            &&& forall|x: int|
                0 <= x < bytes.len() && !covered(views, x) ==> #[trigger] after[x] == bytes[x]
        }),
    decreases views.len(),
{
    if views.len() > 0 {
        let init = views.drop_last();
        let last = views.last();
        let before = decode::blocks_written(init, bytes);
        let after = decode::blocks_written(views, bytes);
        assert forall|i: int| 0 <= i < init.len() implies view_genuine(#[trigger] init[i], blob) by {
            assert(init[i] == views[i]);
        }
        lemma_blocks_written(init, blob, bytes);
        assert(view_genuine(views[views.len() - 1], blob));
        assert forall|x: int| #[trigger] covered(views, x) == (covered(init, x) || view_covers(
            last,
            x,
        )) by {
            if covered(init, x) {
                let i = choose|i: int| 0 <= i < init.len() && view_covers(#[trigger] init[i], x);
                assert(view_covers(views[i], x));
            }
            if view_covers(last, x) {
                assert(view_covers(views[views.len() - 1], x));
            }
            if covered(views, x) {
                let i = choose|i: int| 0 <= i < views.len() && view_covers(#[trigger] views[i], x);
                if i < init.len() {
                    assert(view_covers(init[i], x));
                }
            }
        }
        assert forall|x: int| 0 <= x < bytes.len() && !covered(views, x) implies #[trigger] after[x]
            == bytes[x] by {
            assert(!covered(init, x));
            assert(before[x] == bytes[x]);
        }
        assert forall|x: int| #[trigger] covered(views, x) implies 0 <= x < after.len() && after[x]
            == blob[x] by {
            if covered(init, x) {
                assert(before[x] == blob[x]);
            }
        }
    }
}

impl BaoTree {
    /// The block that a byte is in.
    pub open spec fn block_of(self, x: int) -> nat {
        (x / self.block_size.spec_bytes() as int) as nat
    }

    /// Where a byte is.
    pub proof fn lemma_block_of(self, x: int)
        requires
            self.self_contained(),
            0 <= x < self.size.0,
        ensures
            self.block_of(x) < self.spec_blocks(),
            self.byte_at(self.block_of(x)) <= x < self.byte_at(self.block_of(x) + 1),
            self.chunk_at(self.block_of(x)) <= x / 1024 < self.chunk_at(self.block_of(x) + 1),
    {
        let bb = self.block_size.spec_bytes() as int;
        let g = self.block_size.spec_chunks() as int;
        let k = x / bb;
        self.lemma_blocks();
        vstd::arithmetic::div_mod::lemma_fundamental_div_mod(x, bb);
        vstd::arithmetic::div_mod::lemma_div_pos_is_pos(x, bb);
        vstd::arithmetic::div_mod::lemma_div_is_ordered(x, self.size.0 - 1, bb);
        assert(bb * k == k * bb) by (nonlinear_arith);
        assert((k + 1) * bb == k * bb + bb) by (nonlinear_arith);
        assert(k * bb == 1024 * (k * g)) by (nonlinear_arith)
            requires
                bb == 1024 * g,
        ;
        assert((k + 1) * g == k * g + g) by (nonlinear_arith);
    }

    /// The block of an item, as it is decoded.
    proof fn lemma_view_of_block(
        self,
        item: BaoChunk,
        block: nat,
        pairs: Map<TreeNode, (Digest, Digest)>,
        blob: Seq<u8>,
    )
        requires
            self.self_contained(),
            blob.len() == self.size.0,
            block < self.spec_blocks(),
            self.is_block(item, block),
        ensures
            ({
                let view = response::item_view(item, response::item_bytes(item, pairs, blob));
                &&& view_genuine(view, blob)
                &&& forall|x: int|
                    view_covers(view, x) <==> self.byte_at(block) <= x < self.byte_at(block + 1)
            }),
    {
        self.lemma_block_bytes(pairs, blob, block, false);
        self.lemma_block_bytes(pairs, blob, block, true);
    }

    /// The bytes in the blocks of a genuine response.
    pub(crate) proof fn lemma_views_cover(
        self,
        b: Seq<u64>,
        pairs: Map<TreeNode, (Digest, Digest)>,
        blob: Seq<u8>,
    )
        requires
            self.self_contained(),
            blob.len() == self.size.0,
        ensures
            ({
                let views = seq![ItemView::Header { size: self.size.0 }]
                    + round_trip::genuine_views(self.pre_order_plan(b), pairs, blob);
                &&& forall|i: int| 0 <= i < views.len() ==> view_genuine(#[trigger] views[i], blob)
                &&& forall|x: int| #[trigger]
                    covered(views, x) <==> 0 <= x < self.size.0 && self.meets_block(
                        b,
                        self.block_of(x),
                    )
            }),
    {
        let plan = self.pre_order_plan(b);
        let level = self.root_level();
        let genuine = round_trip::genuine_views(plan, pairs, blob);
        let views = seq![ItemView::Header { size: self.size.0 }] + genuine;
        self.lemma_root();
        self.lemma_pre_blocks(b, 0, level);
        assert forall|i: int| 0 <= i < views.len() implies view_genuine(#[trigger] views[i], blob) by {
            if i > 0 && plan[i - 1] is Leaf {
                let block = choose|block: nat| #[trigger]
                    self.is_block_met(b, 0, level, plan[i - 1], block);
                self.lemma_view_of_block(plan[i - 1], block, pairs, blob);
            }
        }
        assert forall|x: int| #[trigger] covered(views, x) implies 0 <= x < self.size.0
            && self.meets_block(b, self.block_of(x)) by {
            let i = choose|i: int| 0 <= i < views.len() && view_covers(#[trigger] views[i], x);
            assert(views[i] == genuine[i - 1]);
            assert(plan[i - 1] is Leaf);
            let block = choose|block: nat| #[trigger]
                self.is_block_met(b, 0, level, plan[i - 1], block);
            self.lemma_view_of_block(plan[i - 1], block, pairs, blob);
            self.lemma_leaf_in_blob(block, false);
            self.lemma_block_of(x);
            let k = self.block_of(x);
            if k < block {
                self.lemma_chunk_at_mono(k + 1, block);
            } else if block < k {
                self.lemma_chunk_at_mono(block + 1, k);
            }
        }
        assert forall|x: int|
            0 <= x < self.size.0 && self.meets_block(b, #[trigger] self.block_of(x)) implies covered(
            views,
            x,
        ) by {
            let k = self.block_of(x);
            self.lemma_block_of(x);
            let i = choose|i: int| 0 <= i < plan.len() && self.is_block(#[trigger] plan[i], k);
            self.lemma_view_of_block(plan[i], k, pairs, blob);
            assert(views[i + 1] == genuine[i]);
            assert(view_covers(views[i + 1], x));
        }
    }
}

/// Whether a target has the bytes of a blob in every block that holds a chunk of a
/// query, and its own bytes elsewhere.
pub open spec fn has_queried_blocks(
    tree: BaoTree,
    b: Seq<u64>,
    blob: Seq<u8>,
    target: Seq<u8>,
    after: Seq<u8>,
) -> bool {
    &&& target.len() <= after.len()
    &&& after.len() <= target.len() || after.len() <= blob.len()
    &&& forall|x: int|
        0 <= x < blob.len() && #[trigger] tree.meets_block(b, tree.block_of(x)) ==> x < after.len()
            && after[x] == blob[x]
    &&& forall|x: int|
        0 <= x < target.len() && !(x < blob.len() && tree.meets_block(b, tree.block_of(x)))
            ==> #[trigger] after[x] == target[x]
}

/// Whether a target has the bytes of a blob in every chunk of a query, and is the blob
/// if the query has all chunks and the target was no longer than the blob.
pub open spec fn has_queried_chunks(
    b: Seq<u64>,
    blob: Seq<u8>,
    target: Seq<u8>,
    after: Seq<u8>,
) -> bool {
    &&& forall|x: int|
        0 <= x < blob.len() && #[trigger] ranges::in_ranges(b, x / 1024) ==> x < after.len()
            && after[x] == blob[x]
    &&& (forall|c: int|
        0 <= c < num::chunks_of(blob.len()) ==> #[trigger] ranges::in_ranges(b, c)) && target.len()
        <= blob.len() ==> after == blob
}

/// What a target has once genuine items have been decoded.
pub(crate) proof fn lemma_genuine_target(
    tree: BaoTree,
    b: Seq<u64>,
    pairs: Map<TreeNode, (Digest, Digest)>,
    blob: Seq<u8>,
    target: Seq<u8>,
)
    requires
        tree.self_contained(),
        blob.len() == tree.size.0,
    ensures
        ({
            let items = seq![ItemView::Header { size: tree.size.0 }] + round_trip::genuine_views(
                tree.pre_order_plan(b),
                pairs,
                blob,
            );
            let after = decode::blocks_written(items, target);
            &&& has_queried_blocks(tree, b, blob, target, after)
            &&& has_queried_chunks(b, blob, target, after)
        }),
{
    let items = seq![ItemView::Header { size: tree.size.0 }] + round_trip::genuine_views(
        tree.pre_order_plan(b),
        pairs,
        blob,
    );
    let after = decode::blocks_written(items, target);
    tree.lemma_views_cover(b, pairs, blob);
    lemma_blocks_written(items, blob, target);
    assert forall|x: int|
        0 <= x < blob.len() && #[trigger] tree.meets_block(b, tree.block_of(x)) implies x
        < after.len() && after[x] == blob[x] by {
        assert(covered(items, x));
    }
    assert forall|x: int|
        0 <= x < blob.len() && #[trigger] ranges::in_ranges(b, x / 1024) implies x < after.len()
        && after[x] == blob[x] by {
        tree.lemma_block_of(x);
        assert(tree.meets_block(b, tree.block_of(x)));
    }
    if (forall|c: int|
        0 <= c < num::chunks_of(blob.len()) ==> #[trigger] ranges::in_ranges(b, c)) && target.len()
        <= blob.len() {
        assert forall|x: int| 0 <= x < blob.len() implies #[trigger] after[x] == blob[x] by {
            assert(ranges::in_ranges(b, x / 1024));
        }
        if blob.len() > 0 {
            assert(ranges::in_ranges(b, (blob.len() - 1) as int / 1024));
        }
        assert(after =~= blob);
    }
}

/// Decoding what was encoded from a consistent outboard gives a target the bytes of
/// the blob in every block and every chunk of the query, and leaves it its own bytes
/// elsewhere. If the query has all chunks, the target is the blob.
pub proof fn law_round_trip_into_target(
    tree: BaoTree,
    b: Seq<u64>,
    root: Seq<u8>,
    pairs: Map<TreeNode, (Digest, Digest)>,
    blob: Seq<u8>,
    target: Seq<u8>,
)
    requires
        tree.consistent(root, pairs, blob),
        ranges::ranges_canonical(b, num::chunks_of(tree.size.0 as nat)),
    ensures
        ({
            let run = response::decode_response(
                root,
                tree.block_size,
                b,
                response::encode_response(tree, pairs, b, blob),
            );
            let after = decode::blocks_written(run.items, target);
            &&& run.failure is None
            &&& has_queried_blocks(tree, b, blob, target, after)
            &&& has_queried_chunks(b, blob, target, after)
        }),
{
    round_trip::law_round_trip(tree, b, root, pairs, blob);
    lemma_genuine_target(tree, b, pairs, blob, target);
}

/// Whatever the input: once a response to a query has been decoded without a failure,
/// given the root hash and the size of a blob, the target has the bytes of the blob in
/// every block and every chunk of the query, and its own bytes elsewhere. If the query
/// has all chunks, the target is the blob. Otherwise one of the accepted items differs
/// from the blob's and has the same hash.
pub proof fn law_decoded_target_is_genuine(
    tree: BaoTree,
    b: Seq<u64>,
    blob: Seq<u8>,
    input: Seq<u8>,
    target: Seq<u8>,
)
    requires
        tree.self_contained(),
        blob.len() == tree.size.0,
        input.len() >= 8,
        num::le_value(input.take(8)) == tree.size.0,
    ensures
        ({
            let root = hash::subtree_hash(blob, 0, true);
            let run = response::decode_response(root, tree.block_size, b, input);
            let after = decode::blocks_written(run.items, target);
            run.failure is None ==> forged(
                run.items.skip(1),
                tree.pre_order_plan(b),
                tree.pairs_of(blob),
                blob,
            ) || {
                &&& has_queried_blocks(tree, b, blob, target, after)
                &&& has_queried_chunks(b, blob, target, after)
            }
        }),
{
    law_decoded_is_genuine(tree, b, blob, input);
    lemma_genuine_target(tree, b, tree.pairs_of(blob), blob, target);
}

/// Whatever the input, and also before a failure: a block that a decoder accepts,
/// given the root hash and the size of a blob, has the bytes of the blob at its
/// offset. Otherwise one of the accepted items differs from the blob's and has the same
/// hash.
pub proof fn law_decoded_blocks_are_genuine(
    tree: BaoTree,
    b: Seq<u64>,
    blob: Seq<u8>,
    input: Seq<u8>,
)
    requires
        tree.self_contained(),
        blob.len() == tree.size.0,
        input.len() >= 8,
        num::le_value(input.take(8)) == tree.size.0,
    ensures
        ({
            let root = hash::subtree_hash(blob, 0, true);
            let run = response::decode_response(root, tree.block_size, b, input);
            forged(run.items.skip(1), tree.pre_order_plan(b), tree.pairs_of(blob), blob) || forall|
                i: int,
            |
                0 <= i < run.items.len() ==> view_genuine(#[trigger] run.items[i], blob)
        }),
{
    let root = hash::subtree_hash(blob, 0, true);
    let run = response::decode_response(root, tree.block_size, b, input);
    let genuine = genuine_items(tree, b, blob);
    law_decoded_is_genuine(tree, b, blob, input);
    tree.lemma_views_cover(b, tree.pairs_of(blob), blob);
    if !forged(run.items.skip(1), tree.pre_order_plan(b), tree.pairs_of(blob), blob) {
        assert forall|i: int| 0 <= i < run.items.len() implies view_genuine(
            #[trigger] run.items[i],
            blob,
        ) by {
            assert(run.items[i] == genuine[i]);
        }
    }
}

} // verus!
