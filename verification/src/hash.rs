//! BLAKE3 hashes of chunks, of subtrees and of blobs.
use smallvec::SmallVec;
use vstd::arithmetic::power2::*;
use vstd::prelude::*;

use crate::iter::BaoChunk;
use crate::num;
use crate::num::{BlockSize, ByteNum, ChunkNum};
use crate::pow;
use crate::source;
use crate::tree::BaoTree;

verus! {

/// A hash.
#[derive(Clone, Copy, Debug)]
pub struct Digest(pub [u8; 32]);

impl View for Digest {
    type V = Seq<u8>;

    open spec fn view(&self) -> Seq<u8> {
        self.0@
    }
}

impl Digest {
    /// The bytes of the hash.
    pub fn as_bytes(&self) -> (r: &[u8; 32])
        ensures
            r@ == self@,
    {
        &self.0
    }

    /// Whether two hashes are the same. All bytes are looked at in any case.
    pub fn same(&self, that: &Digest) -> (r: bool)
        ensures
            r == (self@ == that@),
            r == (*self == *that),
    {
        let mut i: usize = 0;
        let mut diff: u8 = 0;
        while i < 32
            invariant
                i <= 32,
                diff == 0 <==> forall|j: int| 0 <= j < i ==> self@[j] == that@[j],
            decreases 32 - i,
        {
            let (a, b): (u8, u8) = (self.0[i], that.0[i]);
            assert((diff | (a ^ b)) == 0 <==> diff == 0 && a == b) by (bit_vector);
            assert(a == self@[i as int] && b == that@[i as int]);
            diff = diff | (a ^ b);
            i = i + 1;
        }
        if diff == 0 {
            assert(self@ =~= that@);
            assert(self.0 =~= that.0);
        }
        diff == 0
    }

    /// The hash that the first 32 bytes of a slice are.
    pub fn from_slice(b: &[u8]) -> (r: Digest)
        requires
            b@.len() >= 32,
        ensures
            r@ == b@.take(32),
    {
        let mut a: [u8; 32] = [0u8; 32];
        let mut i: usize = 0;
        while i < 32
            invariant
                i <= 32,
                b@.len() >= 32,
                forall|j: int| 0 <= j < i ==> a@[j] == b@[j],
            decreases 32 - i,
        {
            a[i] = b[i];
            i = i + 1;
        }
        assert(a@ =~= b@.take(32));
        Digest(a)
    }

    /// Appends the bytes of the hash.
    pub fn append_to(&self, out: &mut Vec<u8>)
        ensures
            final(out)@ == old(out)@ + self@,
    {
        out.extend_from_slice(self.0.as_slice());
        assert(out@ =~= old(out)@ + self@);
    }
}

/// The chaining value of a parent, or the root hash, from those of its children.
pub uninterp spec fn parent_bytes(left: Seq<u8>, right: Seq<u8>, is_root: bool) -> [u8; 32];

/// The chaining value of a chunk, or the root hash of a blob of one chunk.
pub uninterp spec fn chunk_bytes(chunk: u64, data: Seq<u8>, is_root: bool) -> [u8; 32];

/// The bytes of the hash of a parent.
pub open spec fn parent_hash(left: Seq<u8>, right: Seq<u8>, is_root: bool) -> Seq<u8> {
    parent_bytes(left, right, is_root)@
}

/// The bytes of the hash of a chunk.
pub open spec fn chunk_hash(chunk: u64, data: Seq<u8>, is_root: bool) -> Seq<u8> {
    chunk_bytes(chunk, data, is_root)@
}

/// `blake3::guts::parent_cv`: the hash of a parent, which depends on the hashes of
/// the children and on whether the parent is the root.
#[verifier::external_body]
pub(crate) fn parent_cv(left: &Digest, right: &Digest, is_root: bool) -> (r: Digest)
    ensures
        r.0 == parent_bytes(left@, right@, is_root),
{
    let left = blake3::Hash::from(left.0);
    let right = blake3::Hash::from(right.0);
    Digest(blake3::guts::parent_cv(&left, &right, is_root).into())
}

/// `blake3::guts::ChunkState`, made by `new`, fed once by `update` and read by
/// `finalize`: the hash of a chunk, which depends on the number of the chunk, on
/// its bytes and on whether it is all there is. Only the first chunk can be that.
#[verifier::external_body]
fn chunk_cv(chunk: u64, data: &[u8], is_root: bool) -> (r: Digest)
    requires
        data@.len() <= 1024,
        is_root ==> chunk == 0,
    ensures
        r.0 == chunk_bytes(chunk, data@, is_root),
{
    Digest(blake3::guts::ChunkState::new(chunk).update(data).finalize(is_root).into())
}

/// A stack of hashes, without allocation for trees of the usual height.
#[verifier::external_body]
#[derive(Debug)]
pub struct HashStack {
    inner: SmallVec<[Digest; 10]>,
}

/// The hashes on a stack, the top last.
pub uninterp spec fn stack_hashes(stack: HashStack) -> Seq<Seq<u8>>;

/// `SmallVec::new`: no elements.
#[verifier::external_body]
fn stack_new() -> (r: HashStack)
    ensures
        stack_hashes(r) == Seq::<Seq<u8>>::empty(),
{
    HashStack { inner: SmallVec::new() }
}

/// `SmallVec::push`: one more element, at the end.
#[verifier::external_body]
fn stack_push(stack: &mut HashStack, hash: Digest)
    ensures
        stack_hashes(*final(stack)) == stack_hashes(*old(stack)).push(hash@),
{
    stack.inner.push(hash)
}

/// `SmallVec::pop`: the last element is taken off, if there is one.
#[verifier::external_body]
fn stack_pop(stack: &mut HashStack) -> (r: Option<Digest>)
    ensures
        r is None <==> stack_hashes(*old(stack)).len() == 0,
        r matches Some(hash) ==> hash@ == stack_hashes(*old(stack)).last(),
        r is Some ==> stack_hashes(*final(stack)) == stack_hashes(*old(stack)).drop_last(),
        r is None ==> stack_hashes(*final(stack)) == stack_hashes(*old(stack)),
{
    stack.inner.pop()
}

/// `SmallVec::is_empty`: whether there are no elements.
#[verifier::external_body]
fn stack_is_empty(stack: &HashStack) -> (r: bool)
    ensures
        r == (stack_hashes(*stack).len() == 0),
{
    stack.inner.is_empty()
}

impl View for HashStack {
    type V = Seq<Seq<u8>>;

    open spec fn view(&self) -> Seq<Seq<u8>> {
        stack_hashes(*self)
    }
}

impl HashStack {
    /// A stack without hashes.
    pub fn new() -> (r: HashStack)
        ensures
            r@ == Seq::<Seq<u8>>::empty(),
    {
        stack_new()
    }

    /// Puts a hash on top.
    pub fn push(&mut self, hash: Digest)
        ensures
            final(self)@ == old(self)@.push(hash@),
    {
        stack_push(self, hash)
    }

    /// Takes the hash off the top, if there is one.
    pub fn pop(&mut self) -> (r: Option<Digest>)
        ensures
            r is None <==> old(self)@.len() == 0,
            r matches Some(hash) ==> hash@ == old(self)@.last(),
            r is Some ==> final(self)@ == old(self)@.drop_last(),
            r is None ==> final(self)@ == old(self)@,
    {
        stack_pop(self)
    }

    /// Whether there are no hashes on the stack.
    pub fn is_empty(&self) -> (r: bool)
        ensures
            r == (self@.len() == 0),
    {
        stack_is_empty(self)
    }
}

/// Whether a subtree of `len` bytes that starts at a chunk can be the root, if it is
/// to be: one that is a single chunk has to be the first.
pub open spec fn root_possible(chunk: nat, len: nat, is_root: bool) -> bool {
    is_root && len <= 1024 ==> chunk == 0
}

/// The largest power of two below `chunks`: how many chunks the left subtree of
/// `chunks` chunks has.
pub open spec fn left_chunks(chunks: nat) -> nat
    decreases chunks,
{
    if chunks <= 2 {
        1
    } else {
        2 * left_chunks((chunks + 1) / 2)
    }
}

/// How many bytes the left subtree of `len` bytes has.
pub open spec fn left_len(len: nat) -> nat {
    1024 * left_chunks(num::chunks_of(len))
}

/// The BLAKE3 hash of the bytes of a subtree that starts at chunk `chunk`: of one
/// chunk if they are no more, else of a parent over the two halves. The crate `blake3` is
/// only asked for the hashes of chunks and parents, so that its own hash of a whole blob
/// is the same is left unsaid.
pub open spec fn subtree_hash(data: Seq<u8>, chunk: nat, is_root: bool) -> Seq<u8>
    decreases data.len(),
{
    if data.len() <= 1024 {
        chunk_hash(chunk as u64, data, is_root)
    } else {
        proof {
            lemma_left_len(data.len());
        }
        let m = left_len(data.len());
        parent_hash(
            subtree_hash(data.take(m as int), chunk, false),
            subtree_hash(data.skip(m as int), chunk + m / 1024, false),
            is_root,
        )
    }
}

/// The hash with these bytes.
pub open spec fn digest_of(bytes: Seq<u8>) -> Digest {
    Digest([
        bytes[0],
        bytes[1],
        bytes[2],
        bytes[3],
        bytes[4],
        bytes[5],
        bytes[6],
        bytes[7],
        bytes[8],
        bytes[9],
        bytes[10],
        bytes[11],
        bytes[12],
        bytes[13],
        bytes[14],
        bytes[15],
        bytes[16],
        bytes[17],
        bytes[18],
        bytes[19],
        bytes[20],
        bytes[21],
        bytes[22],
        bytes[23],
        bytes[24],
        bytes[25],
        bytes[26],
        bytes[27],
        bytes[28],
        bytes[29],
        bytes[30],
        bytes[31],
    ])
}

/// A hash is told by its bytes.
pub proof fn lemma_digest_of(d: Digest)
    ensures
        digest_of(d@) == d,
{
    lemma_digest_bytes(d@);
    assert(digest_of(d@).0 =~= d.0);
}

/// Any bytes, of the right number, are those of a hash.
pub proof fn lemma_digest_bytes(bytes: Seq<u8>)
    requires
        bytes.len() == 32,
    ensures
        digest_of(bytes)@ == bytes,
{
    assert(digest_of(bytes)@ =~= bytes);
}

/// Every hash has 32 bytes.
pub proof fn lemma_hash_len(data: Seq<u8>, chunk: nat, is_root: bool)
    ensures
        subtree_hash(data, chunk, is_root).len() == 32,
{
}

/// The hash pairs of a subtree down to blocks of `block` bytes, as bytes, children
/// before parents.
pub open spec fn outboard_pairs(data: Seq<u8>, chunk: nat, block: nat) -> Seq<u8>
    decreases data.len(),
{
    if data.len() <= block || data.len() <= 1024 {
        Seq::empty()
    } else {
        proof {
            lemma_left_len(data.len());
        }
        let m = left_len(data.len());
        let left = data.take(m as int);
        let right = data.skip(m as int);
        outboard_pairs(left, chunk, block) + outboard_pairs(right, chunk + m / 1024, block) + (
        subtree_hash(left, chunk, false) + subtree_hash(right, chunk + m / 1024, false))
    }
}

/// Both halves of a subtree of more than one chunk have bytes.
pub proof fn lemma_left_len(len: nat)
    requires
        len > 1024,
    ensures
        1024 <= left_len(len) < len,
        left_len(len) % 1024 == 0,
{
    lemma_left_chunks(num::chunks_of(len));
}

proof fn lemma_left_chunks(chunks: nat)
    requires
        chunks >= 2,
    ensures
        1 <= left_chunks(chunks) < chunks,
    decreases chunks,
{
    if chunks > 2 {
        lemma_left_chunks((chunks + 1) / 2);
    }
}

/// A power of two is the size of the left subtree if the whole is larger, but at
/// most twice as large.
pub proof fn lemma_left_chunks_pow2(chunks: nat, k: nat)
    requires
        pow2(k) < chunks <= pow2(k + 1),
    ensures
        left_chunks(chunks) == pow2(k),
    decreases k,
{
    pow::lemma_pow2_step(k);
    pow::lemma_pow2_step(0);
    if k > 0 {
        pow::lemma_pow2_step((k - 1) as nat);
        lemma_left_chunks_pow2((chunks + 1) / 2, (k - 1) as nat);
    }
}

/// Where a run over items in post order stands: whether it got through, the hashes
/// on the stack, the input that is left and the pairs that were put out.
#[verifier::ext_equal]
pub struct PostRun {
    pub done: bool,
    pub stack: Seq<Seq<u8>>,
    pub rest: Seq<u8>,
    pub out: Seq<u8>,
}

/// Goes through items in post order: the hash of each block goes on the stack, and
/// a parent replaces two hashes by theirs and puts them out. The run ends early
/// where the input does not have a block.
pub open spec fn post_run(
    items: Seq<BaoChunk>,
    can_be_root: bool,
    stack: Seq<Seq<u8>>,
    input: Seq<u8>,
    out: Seq<u8>,
) -> PostRun
    decreases items.len(),
{
    if items.len() == 0 {
        PostRun { done: true, stack, rest: input, out }
    } else {
        match items[0] {
            BaoChunk::Leaf { size, is_root, start_chunk } => if input.len() < size {
                PostRun { done: false, stack, rest: input, out }
            } else {
                let hash = subtree_hash(
                    input.take(size as int),
                    start_chunk.0 as nat,
                    can_be_root && is_root,
                );
                post_run(
                    items.drop_first(),
                    can_be_root,
                    stack.push(hash),
                    input.skip(size as int),
                    out,
                )
            },
            BaoChunk::Parent { is_root, .. } => if stack.len() < 2 {
                PostRun { done: false, stack, rest: input, out }
            } else {
                let left = stack[stack.len() - 2];
                let right = stack[stack.len() - 1];
                post_run(
                    items.drop_first(),
                    can_be_root,
                    stack.take(stack.len() - 2).push(
                        parent_hash(left, right, can_be_root && is_root),
                    ),
                    input,
                    out + (left + right),
                )
            },
        }
    }
}

/// Whether the items never take more hashes off a stack of `depth` than it has.
pub open spec fn post_safe(items: Seq<BaoChunk>, depth: nat) -> bool
    decreases items.len(),
{
    items.len() == 0 || match items[0] {
        BaoChunk::Leaf { .. } => post_safe(items.drop_first(), depth + 1),
        BaoChunk::Parent { .. } => depth >= 2 && post_safe(
            items.drop_first(),
            (depth - 1) as nat,
        ),
    }
}

/// How many bytes of blocks the items hold.
pub open spec fn leaf_bytes(items: Seq<BaoChunk>) -> nat
    decreases items.len(),
{
    if items.len() == 0 {
        0
    } else {
        let rest = leaf_bytes(items.drop_first());
        match items[0] {
            BaoChunk::Leaf { size, .. } => size as nat + rest,
            BaoChunk::Parent { .. } => rest,
        }
    }
}

/// How many of the items are hash pairs.
pub open spec fn parents(items: Seq<BaoChunk>) -> nat
    decreases items.len(),
{
    if items.len() == 0 {
        0
    } else {
        let rest = parents(items.drop_first());
        match items[0] {
            BaoChunk::Leaf { .. } => rest,
            BaoChunk::Parent { .. } => 1 + rest,
        }
    }
}

/// One block of a run.
proof fn lemma_run_leaf(
    size: usize,
    is_root: bool,
    start_chunk: ChunkNum,
    more: Seq<BaoChunk>,
    can_be_root: bool,
    stack: Seq<Seq<u8>>,
    input: Seq<u8>,
    out: Seq<u8>,
)
    requires
        input.len() >= size,
    ensures
        post_run(
            seq![BaoChunk::Leaf { size, is_root, start_chunk }] + more,
            can_be_root,
            stack,
            input,
            out,
        ) == post_run(
            more,
            can_be_root,
            stack.push(
                subtree_hash(
                    input.take(size as int),
                    start_chunk.0 as nat,
                    can_be_root && is_root,
                ),
            ),
            input.skip(size as int),
            out,
        ),
{
    let items = seq![BaoChunk::Leaf { size, is_root, start_chunk }] + more;
    assert(items.drop_first() =~= more);
    assert(items[0] == BaoChunk::Leaf { size, is_root, start_chunk });
}

/// One parent of a run.
proof fn lemma_run_parent(
    parent: BaoChunk,
    is_root: bool,
    more: Seq<BaoChunk>,
    can_be_root: bool,
    stack: Seq<Seq<u8>>,
    left: Seq<u8>,
    right: Seq<u8>,
    input: Seq<u8>,
    out: Seq<u8>,
)
    requires
        parent matches BaoChunk::Parent { is_root: root, .. } && root == is_root,
    ensures
        post_run(seq![parent] + more, can_be_root, stack.push(left).push(right), input, out)
            == post_run(
            more,
            can_be_root,
            stack.push(parent_hash(left, right, can_be_root && is_root)),
            input,
            out + (left + right),
        ),
{
    let items = seq![parent] + more;
    let s2 = stack.push(left).push(right);
    assert(items.drop_first() =~= more);
    assert(items[0] == parent);
    assert(s2.take(s2.len() - 2) =~= stack);
}

/// A run that got through had the bytes of all blocks.
proof fn lemma_post_run_bytes(
    items: Seq<BaoChunk>,
    can_be_root: bool,
    stack: Seq<Seq<u8>>,
    input: Seq<u8>,
    out: Seq<u8>,
)
    requires
        post_run(items, can_be_root, stack, input, out).done,
    ensures
        leaf_bytes(items) <= input.len(),
    decreases items.len(),
{
    if items.len() > 0 {
        match items[0] {
            BaoChunk::Leaf { size, is_root, start_chunk } => {
                let hash = subtree_hash(
                    input.take(size as int),
                    start_chunk.0 as nat,
                    can_be_root && is_root,
                );
                lemma_post_run_bytes(
                    items.drop_first(),
                    can_be_root,
                    stack.push(hash),
                    input.skip(size as int),
                    out,
                );
            },
            BaoChunk::Parent { is_root, .. } => {
                let left = stack[stack.len() - 2];
                let right = stack[stack.len() - 1];
                lemma_post_run_bytes(
                    items.drop_first(),
                    can_be_root,
                    stack.take(stack.len() - 2).push(
                        parent_hash(left, right, can_be_root && is_root),
                    ),
                    input,
                    out + (left + right),
                );
            },
        }
    }
}

impl BaoTree {
    /// The number of bytes that a node covers.
    pub open spec fn node_len(self, start: nat, level: nat) -> nat {
        (self.byte_at(start + 2 * pow2(level)) - self.byte_at(start)) as nat
    }

    /// The number of the first chunk that a node covers.
    pub open spec fn node_chunk(self, start: nat) -> nat {
        self.start_chunk.0 as nat + start * self.block_size.spec_chunks()
    }

    /// A node with a hash pair splits its bytes where BLAKE3 does.
    pub proof fn lemma_node_split(self, start: nat, level: nat)
        requires
            self.valid(),
            self.has_node(start, level),
            self.has_pair(start, level),
        ensures
            self.byte_at(start) <= self.byte_at(start + pow2(level)) <= self.byte_at(
                start + 2 * pow2(level),
            ),
            self.node_len(start, level) > self.block_size.spec_bytes(),
            self.node_len(start, level) > 1024,
            left_len(self.node_len(start, level)) == self.byte_at(start + pow2(level))
                - self.byte_at(start),
            self.node_chunk(start) + left_len(self.node_len(start, level)) / 1024
                == self.node_chunk(start + pow2(level)),
    {
        let p = pow2(level);
        let g = self.block_size.spec_chunks();
        let bb = self.block_size.spec_bytes();
        let k = level + self.block_size.0 as nat;
        pow::lemma_pow2_step(level);
        pow::lemma_pow2_step(0);
        pow::lemma_pow2_step(self.block_size.0 as nat);
        pow::lemma_pow2_step(k);
        lemma_pow2_adds(level, self.block_size.0 as nat);
        self.lemma_block_start(start);
        self.lemma_block_start(start + p);
        assert((start + p) * bb == start * bb + p * bb) by (nonlinear_arith);
        assert((start + p) * g == start * g + p * g) by (nonlinear_arith);
        assert(p * bb == 1024 * (p * g)) by (nonlinear_arith)
            requires
                bb == 1024 * g,
        ;
        assert((start + 2 * p) * bb == start * bb + 2 * (p * bb)) by (nonlinear_arith);
        assert(p * bb >= bb) by (nonlinear_arith)
            requires
                p >= 1,
        ;
        let n = self.node_len(start, level);
        lemma_left_chunks_pow2(num::chunks_of(n), k);
    }

    /// A run over the items of a node consumes its bytes, leaves their hash on the
    /// stack and puts out the hash pairs below.
    #[verifier::spinoff_prover]
    #[verifier::rlimit(50)]
    pub proof fn lemma_post_run(
        self,
        start: nat,
        level: nat,
        more: Seq<BaoChunk>,
        can_be_root: bool,
        stack: Seq<Seq<u8>>,
        input: Seq<u8>,
        out: Seq<u8>,
    )
        requires
            self.valid(),
            self.has_node(start, level),
            input.len() >= self.node_len(start, level),
        ensures
            post_run(self.post_order(start, level) + more, can_be_root, stack, input, out)
                == post_run(
                more,
                can_be_root,
                stack.push(
                    subtree_hash(
                        input.take(self.node_len(start, level) as int),
                        self.node_chunk(start),
                        can_be_root && self.is_root(start, level),
                    ),
                ),
                input.skip(self.node_len(start, level) as int),
                out + outboard_pairs(
                    input.take(self.node_len(start, level) as int),
                    self.node_chunk(start),
                    self.block_size.spec_bytes(),
                ),
            ),
        decreases level,
    {
        let items = self.post_order(start, level);
        let n = self.node_len(start, level) as int;
        let bb = self.block_size.spec_bytes();
        let data = input.take(n);
        let mid = start + pow2(level);
        let chunk = self.node_chunk(start);
        self.lemma_blocks();
        pow::lemma_pow2_step(level);
        pow::lemma_pow2_step(0);
        self.lemma_leaf_item(start, false);
        if !self.has_pair(start, level) {
            let is_root = self.is_root(start, 0);
            self.lemma_past_end(start + 1);
            self.lemma_past_end(start + 2);
            self.lemma_leaf_item(start, is_root);
            let size = (self.byte_at(start + 1) - self.byte_at(start)) as usize;
            lemma_run_leaf(
                size,
                is_root,
                ChunkNum(chunk as u64),
                more,
                can_be_root,
                stack,
                input,
                out,
            );
            assert(out + Seq::<u8>::empty() =~= out);
        } else {
            self.lemma_node_split(start, level);
            let m = left_len(n as nat) as int;
            let left = data.take(m);
            let right = data.skip(m);
            let hl = subtree_hash(left, chunk, false);
            let hr = subtree_hash(right, chunk + m as nat / 1024, false);
            let ol = outboard_pairs(left, chunk, bb);
            let or = outboard_pairs(right, chunk + m as nat / 1024, bb);
            let parent = self.parent_item(start, level, true, true);
            let tail = seq![parent] + more;
            assert(input.take(m) =~= left);
            assert(input.skip(m).take(n - m) =~= right);
            assert(input.skip(m).skip(n - m) =~= input.skip(n));
            assert(out + ol + or + (hl + hr) =~= out + (ol + or + (hl + hr)));
            assert(subtree_hash(data, chunk, can_be_root && self.is_root(start, level))
                == parent_hash(hl, hr, can_be_root && self.is_root(start, level)));
            assert(outboard_pairs(data, chunk, bb) == ol + or + (hl + hr));
            if level == 0 {
                let a = self.leaf_item(start, false);
                let b = self.leaf_item(start + 1, false);
                let rest = seq![b] + tail;
                self.lemma_leaf_item(start + 1, false);
                assert(items + more =~= seq![a] + rest);
                lemma_run_leaf(
                    m as usize,
                    false,
                    ChunkNum(chunk as u64),
                    rest,
                    can_be_root,
                    stack,
                    input,
                    out,
                );
                lemma_run_leaf(
                    (n - m) as usize,
                    false,
                    ChunkNum(self.node_chunk(start + 1) as u64),
                    tail,
                    can_be_root,
                    stack.push(hl),
                    input.skip(m),
                    out,
                );
                assert(out + ol + or =~= out);
            } else {
                let l = (level - 1) as nat;
                let r = self.right_level(start, level);
                self.lemma_children(start, level);
                let il = self.post_order(start, l);
                let ir = self.post_order(mid, r);
                assert(items + more =~= il + (ir + tail));
                self.lemma_post_run(start, l, ir + tail, can_be_root, stack, input, out);
                self.lemma_post_run(
                    mid,
                    r,
                    tail,
                    can_be_root,
                    stack.push(hl),
                    input.skip(m),
                    out + ol,
                );
            }
            lemma_run_parent(
                parent,
                self.is_root(start, level),
                more,
                can_be_root,
                stack,
                hl,
                hr,
                input.skip(n),
                out + ol + or,
            );
        }
    }

    /// The numbers in the item for a block are in the range of their types.
    pub proof fn lemma_leaf_item(self, block: nat, is_root: bool)
        requires
            self.valid(),
            block < self.spec_blocks(),
        ensures
            self.leaf_item(block, is_root) matches BaoChunk::Leaf { size, is_root: r, start_chunk }
                && size == self.byte_at(block + 1) - self.byte_at(block) && r == is_root
                && start_chunk.0 == self.node_chunk(block),
            self.byte_at(block + 1) - self.byte_at(block) <= self.block_size.spec_bytes(),
    {
        let bb = self.block_size.spec_bytes();
        self.lemma_block_start(block);
        self.lemma_chunk_at_mono(block, block + 1);
        assert((block + 1) * bb == block * bb + bb) by (nonlinear_arith);
    }

    /// The items of a node put one hash on the stack and hold its bytes.
    proof fn lemma_post_items(self, start: nat, level: nat, more: Seq<BaoChunk>, depth: nat)
        requires
            self.valid(),
            self.has_node(start, level),
            post_safe(more, depth + 1),
        ensures
            post_safe(self.post_order(start, level) + more, depth),
            leaf_bytes(self.post_order(start, level) + more) == self.node_len(start, level)
                + leaf_bytes(more),
        decreases level,
    {
        let items = self.post_order(start, level);
        let mid = start + pow2(level);
        let parent = self.parent_item(start, level, true, true);
        let tail = seq![parent] + more;
        self.lemma_blocks();
        pow::lemma_pow2_step(level);
        pow::lemma_pow2_step(0);
        self.lemma_chunk_at_mono(start, mid);
        self.lemma_chunk_at_mono(mid, start + 2 * pow2(level));
        assert(tail.drop_first() =~= more);
        if level == 0 {
            self.lemma_leaf_item(start, self.is_root(start, 0));
            self.lemma_leaf_item(start, false);
            if self.half_leaf(start) {
                self.lemma_past_end(start + 1);
                self.lemma_past_end(start + 2);
                assert((items + more).drop_first() =~= more);
            } else {
                let b = self.leaf_item(start + 1, false);
                let rest = seq![b] + tail;
                self.lemma_leaf_item(start + 1, false);
                assert((items + more).drop_first() =~= rest);
                assert(rest.drop_first() =~= tail);
                assert(post_safe(tail, depth + 2));
                assert(post_safe(rest, depth + 1));
                assert(leaf_bytes(tail) == leaf_bytes(more));
                assert(leaf_bytes(rest) == self.byte_at(start + 2) - self.byte_at(start + 1)
                    + leaf_bytes(tail));
            }
        } else {
            let l = (level - 1) as nat;
            let r = self.right_level(start, level);
            self.lemma_children(start, level);
            let il = self.post_order(start, l);
            let ir = self.post_order(mid, r);
            assert(items + more =~= il + (ir + tail));
            assert(post_safe(tail, depth + 2));
            assert(leaf_bytes(tail) == leaf_bytes(more));
            self.lemma_post_items(mid, r, tail, depth + 1);
            self.lemma_post_items(start, l, ir + tail, depth);
        }
    }

    /// There is one hash pair less than there are blocks.
    pub proof fn lemma_post_parents(self, start: nat, level: nat, more: Seq<BaoChunk>)
        requires
            self.valid(),
            self.has_node(start, level),
        ensures
            parents(self.post_order(start, level) + more) == crate::tree::min(
                start + 2 * pow2(level),
                self.spec_blocks(),
            ) - start - 1 + parents(more),
        decreases level,
    {
        let items = self.post_order(start, level);
        let mid = start + pow2(level);
        let tail = seq![self.parent_item(start, level, true, true)] + more;
        pow::lemma_pow2_step(level);
        pow::lemma_pow2_step(0);
        assert(tail.drop_first() =~= more);
        assert(parents(tail) == 1 + parents(more));
        if level > 0 {
            let r = self.right_level(start, level);
            let il = self.post_order(start, (level - 1) as nat);
            let ir = self.post_order(mid, r);
            self.lemma_children(start, level);
            assert(items + more =~= il + (ir + tail));
            self.lemma_post_parents(start, (level - 1) as nat, ir + tail);
            self.lemma_post_parents(mid, r, tail);
        } else if self.half_leaf(start) {
            assert((items + more).drop_first() =~= more);
        } else {
            let rest = seq![self.leaf_item(start + 1, false)] + tail;
            assert((items + more).drop_first() =~= rest);
            assert(rest.drop_first() =~= tail);
            assert(parents(rest) == parents(tail));
        }
    }

    /// Whether the chunk numbers of all blocks are in range, and a block that is the
    /// root is all there is.
    pub open spec fn chunks_within(self, items: Seq<BaoChunk>) -> bool {
        forall|i: int|
            0 <= i < items.len() ==> (#[trigger] items[i] matches BaoChunk::Leaf {
                size,
                is_root,
                start_chunk,
            } ==> start_chunk.0 + size / 1024 < u64::MAX && size <= self.block_size.spec_bytes()
                && (is_root ==> start_chunk == self.start_chunk && size == self.size.0))
    }

    /// The chunk numbers of all blocks of a traversal are in range.
    pub proof fn lemma_post_chunks(self, start: nat, level: nat)
        requires
            self.valid(),
            self.has_node(start, level),
        ensures
            self.chunks_within(self.post_order(start, level)),
        decreases level,
    {
        self.lemma_leaf_chunks(start, false);
        if level == 0 {
            if self.half_leaf(start) {
                self.lemma_leaf_chunks(start, self.is_root(start, level));
            } else {
                self.lemma_leaf_chunks(start + 1, false);
            }
        } else {
            self.lemma_children(start, level);
            self.lemma_post_chunks(start, (level - 1) as nat);
            self.lemma_post_chunks(start + pow2(level), self.right_level(start, level));
        }
    }

    /// The chunk numbers of a block are in range.
    pub proof fn lemma_leaf_chunks(self, block: nat, is_root: bool)
        requires
            self.valid(),
            block < self.spec_blocks(),
            is_root ==> self.spec_blocks() == 1,
        ensures
            self.leaf_item(block, is_root) matches BaoChunk::Leaf { size, start_chunk, .. }
                && start_chunk.0 + size / 1024 < u64::MAX && size <= self.block_size.spec_bytes()
                && (is_root ==> start_chunk == self.start_chunk && size == self.size.0),
    {
        self.lemma_leaf_item(block, is_root);
        self.lemma_block_start(block);
        if is_root {
            self.lemma_past_end(1);
            assert(block * self.block_size.spec_chunks() == 0) by (nonlinear_arith)
                requires
                    block == 0,
            ;
        }
    }

    /// What a run over the whole tree comes to.
    pub proof fn lemma_post_plan(self, can_be_root: bool, input: Seq<u8>)
        requires
            self.valid(),
        ensures
            post_safe(self.post_order_plan(), 0),
            post_run(self.post_order_plan(), can_be_root, Seq::empty(), input, Seq::empty()).done
                <==> input.len() >= self.size.0,
            input.len() >= self.size.0 ==> post_run(
                self.post_order_plan(),
                can_be_root,
                Seq::empty(),
                input,
                Seq::empty(),
            ) == (PostRun {
                done: true,
                stack: seq![
                    subtree_hash(
                        input.take(self.size.0 as int),
                        self.start_chunk.0 as nat,
                        can_be_root,
                    ),
                ],
                rest: input.skip(self.size.0 as int),
                out: outboard_pairs(
                    input.take(self.size.0 as int),
                    self.start_chunk.0 as nat,
                    self.block_size.spec_bytes(),
                ),
            }),
    {
        let level = self.root_level();
        let plan = self.post_order_plan();
        self.lemma_root();
        self.lemma_past_end(2 * pow2(level));
        assert(0nat * self.block_size.spec_chunks() == 0) by (nonlinear_arith);
        assert(0nat * self.block_size.spec_bytes() == 0) by (nonlinear_arith);
        assert(self.node_len(0, level) == self.size.0);
        assert(plan + Seq::<BaoChunk>::empty() =~= plan);
        self.lemma_post_items(0, level, Seq::empty(), 0);
        if input.len() >= self.size.0 {
            self.lemma_post_run(
                0,
                level,
                Seq::empty(),
                can_be_root,
                Seq::empty(),
                input,
                Seq::empty(),
            );
            let run = post_run(plan, can_be_root, Seq::empty(), input, Seq::empty());
            assert(run.stack =~= seq![
                subtree_hash(
                    input.take(self.size.0 as int),
                    self.start_chunk.0 as nat,
                    can_be_root,
                ),
            ]);
            assert(run.out =~= outboard_pairs(
                input.take(self.size.0 as int),
                self.start_chunk.0 as nat,
                self.block_size.spec_bytes(),
            ));
        } else if post_run(plan, can_be_root, Seq::empty(), input, Seq::empty()).done {
            lemma_post_run_bytes(plan, can_be_root, Seq::empty(), input, Seq::empty());
        }
    }
}

/// The hash of one chunk.
pub fn hash_chunk(chunk: ChunkNum, data: &[u8], is_root: bool) -> (r: Digest)
    requires
        data@.len() <= 1024,
        is_root ==> chunk.0 == 0,
    ensures
        r.0 == chunk_bytes(chunk.0, data@, is_root),
        r@ == chunk_hash(chunk.0, data@, is_root),
        r@ == subtree_hash(data@, chunk.0 as nat, is_root),
{
    chunk_cv(chunk.0, data, is_root)
}

/// The hash of the first `data_len` bytes of the input, as a subtree that starts at
/// chunk `start_chunk`. Input that is shorter is an error.
pub fn blake3_hash_inner(
    data: &mut &[u8],
    data_len: ByteNum,
    start_chunk: ChunkNum,
    is_root: bool,
) -> (r: Result<Digest, std::io::Error>)
    requires
        start_chunk.0 + data_len.0 / 1024 < u64::MAX,
        root_possible(start_chunk.0 as nat, data_len.0 as nat, is_root),
    ensures
        r is Ok <==> old(data)@.len() >= data_len.0,
        r matches Ok(hash) ==> hash@ == subtree_hash(
            old(data)@.take(data_len.0 as int),
            start_chunk.0 as nat,
            is_root,
        ),
        r is Ok ==> final(data)@ == old(data)@.skip(data_len.0 as int),
        r matches Err(e) ==> crate::error::is_unexpected_eof(e),
        r is Err ==> final(data)@ == post_run(
            (BaoTree {
                size: data_len,
                block_size: BlockSize(0),
                start_chunk,
            }).post_order_plan(),
            is_root,
            Seq::empty(),
            old(data)@,
            Seq::empty(),
        ).rest,
{
    let can_be_root: bool = is_root;
    let mut stack = HashStack::new();
    let tree = BaoTree::new_with_start_chunk(data_len, BlockSize(0), start_chunk);
    proof {
        pow::lemma_pow2_step(0);
        tree.lemma_post_plan(can_be_root, data@);
        tree.lemma_root();
        tree.lemma_post_chunks(0, tree.root_level());
    }
    let ghost input = data@;
    let ghost run = post_run(
        tree.post_order_plan(),
        can_be_root,
        Seq::empty(),
        input,
        Seq::empty(),
    );
    let ghost mut out: Seq<u8> = Seq::empty();
    let mut iter = tree.post_order_chunks_iter();
    loop
        invariant
            iter.valid(),
            tree.valid(),
            tree == (BaoTree { size: data_len, block_size: BlockSize(0), start_chunk }),
            tree.block_size.spec_bytes() == 1024,
            root_possible(start_chunk.0 as nat, data_len.0 as nat, can_be_root),
            post_safe(iter.remaining(), stack@.len()),
            tree.chunks_within(iter.remaining()),
            run == post_run(iter.remaining(), can_be_root, stack@, data@, out),
            run.done <==> input.len() >= data_len.0,
            input == old(data)@,
            can_be_root == is_root,
            run == post_run(
                tree.post_order_plan(),
                can_be_root,
                Seq::empty(),
                input,
                Seq::empty(),
            ),
            run.done ==> run == (PostRun {
                done: true,
                stack: seq![
                    subtree_hash(
                        input.take(data_len.0 as int),
                        start_chunk.0 as nat,
                        can_be_root,
                    ),
                ],
                rest: input.skip(data_len.0 as int),
                out: run.out,
            }),
        ensures
            iter.remaining().len() == 0,
        decreases iter.remaining().len(),
    {
        let ghost items = iter.remaining();
        match iter.next() {
            None => break,
            Some(BaoChunk::Leaf { size, is_root, start_chunk }) => {
                let buf = source::read_exact(data, size)?;
                let hash = hash_chunk(start_chunk, buf, can_be_root && is_root);
                stack.push(hash);
            },
            Some(BaoChunk::Parent { is_root, .. }) => {
                let ghost before = stack@;
                let right_hash = stack.pop().unwrap();
                let left_hash = stack.pop().unwrap();
                let hash = parent_cv(&left_hash, &right_hash, can_be_root && is_root);
                proof {
                    assert(before.drop_last().drop_last() =~= before.take(before.len() - 2));
                    out = out + (left_hash@ + right_hash@);
                }
                stack.push(hash);
            },
        }
    }
    Ok(stack.pop().unwrap())
}

/// The hash of a block that starts at chunk `start_chunk`.
pub fn hash_block(start_chunk: ChunkNum, data: &[u8], is_root: bool) -> (r: Digest)
    requires
        start_chunk.0 + data@.len() / 1024 < u64::MAX,
        root_possible(start_chunk.0 as nat, data@.len(), is_root),
    ensures
        r@ == subtree_hash(data@, start_chunk.0 as nat, is_root),
        data@.len() <= 1024 ==> r@ == chunk_bytes(start_chunk.0, data@, is_root)@,
{
    let mut input: &[u8] = data;
    let len = ByteNum(data.len() as u64);
    assert(data@.take(data@.len() as int) =~= data@);
    match blake3_hash_inner(&mut input, len, start_chunk, is_root) {
        Ok(hash) => hash,
        Err(_) => {
            assert(false);
            Digest([0u8; 32])
        },
    }
}

} // verus!
