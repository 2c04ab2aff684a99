//! Where data and hash pairs are kept, and how they are read and written.
use range_collections::RangeSetRef;
use std::ops::Range;
use vstd::prelude::*;

use crate::error;
use crate::hash::Digest;
use crate::node::TreeNode;
use crate::num;
use crate::num::ByteNum;
use crate::ranges;
use crate::source;
use crate::tree::BaoTree;

verus! {

/// The pair that is stored for a node, if there is one.
pub open spec fn pair_at(pairs: Map<TreeNode, (Digest, Digest)>, node: TreeNode) -> Option<(Digest, Digest)> {
    if pairs.contains_key(node) {
        Some(pairs[node])
    } else {
        None
    }
}

/// The error of a result, if it is one.
pub open spec fn error_of(r: Result<(), std::io::Error>) -> Option<std::io::Error> {
    match r {
        Ok(_) => None,
        Err(e) => Some(e),
    }
}

/// A store of hash pairs that knows the root hash and the shape of the tree.
pub trait Outboard {
    /// The root hash.
    open spec fn spec_root(&self) -> Digest {
        arbitrary()
    }

    /// The shape of the tree.
    open spec fn spec_tree(&self) -> BaoTree {
        arbitrary()
    }

    /// The hash pairs in the store.
    open spec fn pairs(&self) -> Map<TreeNode, (Digest, Digest)> {
        arbitrary()
    }

    /// Whether loading the hash pair of a node is sure not to fail, as in memory.
    open spec fn loads(&self, node: TreeNode) -> bool {
        false
    }

    /// Whether loading the hash pair of a node is sure to fail.
    open spec fn load_fails(&self, node: TreeNode) -> bool {
        false
    }

    /// The errors that loading the hash pair of a node can give.
    open spec fn load_errors(&self, node: TreeNode) -> Set<std::io::Error> {
        arbitrary()
    }

    /// The root hash.
    fn root(&self) -> (r: Digest)
        ensures
            r == self.spec_root(),
    ;

    /// The shape of the tree: the size of the blob and of its blocks.
    fn tree(&self) -> (r: BaoTree)
        ensures
            r == self.spec_tree(),
    ;

    /// Loads the hash pair of a node.
    fn load(&self, node: TreeNode) -> (r: Result<Option<(Digest, Digest)>, std::io::Error>)
        ensures
            r matches Ok(pair) ==> pair == pair_at(self.pairs(), node),
            r matches Err(e) ==> self.load_errors(node).contains(e),
            self.loads(node) ==> r is Ok,
            self.load_fails(node) ==> r is Err,
    ;
}

/// A store of hash pairs that can be filled.
pub trait OutboardMut: Outboard {
    /// Whether the store is one that cannot fail, as one in memory.
    open spec fn reliable(&self) -> bool {
        false
    }

    /// The errors that the store can give when it is filled.
    open spec fn errors(&self) -> Set<std::io::Error> {
        arbitrary()
    }

    /// The hash pairs that are in the store once the size of the blob has been set.
    /// What becomes of those that are there is up to the store.
    open spec fn resized(&self, len: ByteNum) -> Map<TreeNode, (Digest, Digest)> {
        arbitrary()
    }

    /// Whether setting the size in this store can succeed, or fail with an error, and
    /// leave a store.
    open spec fn size_put(
        &self,
        len: ByteNum,
        failed: Option<std::io::Error>,
        after: &Self,
    ) -> bool {
        true
    }

    /// Whether saving a hash pair in this store can succeed, or fail with an error, and
    /// leave a store.
    open spec fn pair_put(
        &self,
        node: TreeNode,
        hash_pair: (Digest, Digest),
        failed: Option<std::io::Error>,
        after: &Self,
    ) -> bool {
        true
    }

    /// Sets the size of the blob.
    fn set_size(&mut self, len: ByteNum) -> (r: Result<(), std::io::Error>)
        ensures
            old(self).size_put(len, error_of(r), final(self)),
            final(self).spec_root() == old(self).spec_root(),
            final(self).reliable() == old(self).reliable(),
            final(self).errors() == old(self).errors(),
            r is Ok ==> final(self).spec_tree() == (BaoTree { size: len, ..old(self).spec_tree() }),
            r is Ok ==> final(self).pairs() == old(self).resized(len),
            r matches Err(e) ==> old(self).errors().contains(e),
            old(self).reliable() ==> r is Ok,
    ;

    /// Saves the hash pair of a node.
    fn save(&mut self, node: TreeNode, hash_pair: &(Digest, Digest)) -> (r: Result<(), std::io::Error>)
        ensures
            old(self).pair_put(node, *hash_pair, error_of(r), final(self)),
            final(self).spec_root() == old(self).spec_root(),
            final(self).spec_tree() == old(self).spec_tree(),
            final(self).reliable() == old(self).reliable(),
            final(self).errors() == old(self).errors(),
            r is Ok ==> final(self).pairs() == old(self).pairs().insert(node, *hash_pair),
            r matches Err(e) ==> old(self).errors().contains(e),
            old(self).reliable() ==> r is Ok,
    ;
}

impl<O: Outboard> Outboard for &O {
    open spec fn spec_root(&self) -> Digest {
        (**self).spec_root()
    }

    open spec fn spec_tree(&self) -> BaoTree {
        (**self).spec_tree()
    }

    open spec fn pairs(&self) -> Map<TreeNode, (Digest, Digest)> {
        (**self).pairs()
    }

    open spec fn loads(&self, node: TreeNode) -> bool {
        (**self).loads(node)
    }

    open spec fn load_fails(&self, node: TreeNode) -> bool {
        (**self).load_fails(node)
    }

    open spec fn load_errors(&self, node: TreeNode) -> Set<std::io::Error> {
        (**self).load_errors(node)
    }

    fn root(&self) -> (r: Digest)
        ensures
            r == (**self).spec_root(),
    {
        (**self).root()
    }

    fn tree(&self) -> (r: BaoTree)
        ensures
            r == (**self).spec_tree(),
    {
        (**self).tree()
    }

    fn load(&self, node: TreeNode) -> (r: Result<Option<(Digest, Digest)>, std::io::Error>)
        ensures
            r matches Ok(pair) ==> pair == pair_at((**self).pairs(), node),
            r matches Err(e) ==> (**self).load_errors(node).contains(e),
            (**self).loads(node) ==> r is Ok,
            (**self).load_fails(node) ==> r is Err,
    {
        (**self).load(node)
    }
}

impl<O: Outboard> Outboard for &mut O {
    open spec fn spec_root(&self) -> Digest {
        (**self).spec_root()
    }

    open spec fn spec_tree(&self) -> BaoTree {
        (**self).spec_tree()
    }

    open spec fn pairs(&self) -> Map<TreeNode, (Digest, Digest)> {
        (**self).pairs()
    }

    open spec fn loads(&self, node: TreeNode) -> bool {
        (**self).loads(node)
    }

    open spec fn load_fails(&self, node: TreeNode) -> bool {
        (**self).load_fails(node)
    }

    open spec fn load_errors(&self, node: TreeNode) -> Set<std::io::Error> {
        (**self).load_errors(node)
    }

    fn root(&self) -> (r: Digest)
        ensures
            r == (*old(*self)).spec_root(),
    {
        (**self).root()
    }

    fn tree(&self) -> (r: BaoTree)
        ensures
            r == (*old(*self)).spec_tree(),
    {
        (**self).tree()
    }

    fn load(&self, node: TreeNode) -> (r: Result<Option<(Digest, Digest)>, std::io::Error>)
        ensures
            r matches Ok(pair) ==> pair == pair_at((*old(*self)).pairs(), node),
            r matches Err(e) ==> (*old(*self)).load_errors(node).contains(e),
            (*old(*self)).loads(node) ==> r is Ok,
            (*old(*self)).load_fails(node) ==> r is Err,
    {
        (**self).load(node)
    }
}

impl<O: OutboardMut> OutboardMut for &mut O {
    open spec fn reliable(&self) -> bool {
        (**self).reliable()
    }

    open spec fn errors(&self) -> Set<std::io::Error> {
        (**self).errors()
    }

    open spec fn resized(&self, len: ByteNum) -> Map<TreeNode, (Digest, Digest)> {
        (**self).resized(len)
    }

    open spec fn size_put(
        &self,
        len: ByteNum,
        failed: Option<std::io::Error>,
        after: &Self,
    ) -> bool {
        (**self).size_put(len, failed, &**after)
    }

    open spec fn pair_put(
        &self,
        node: TreeNode,
        hash_pair: (Digest, Digest),
        failed: Option<std::io::Error>,
        after: &Self,
    ) -> bool {
        (**self).pair_put(node, hash_pair, failed, &**after)
    }

    /// Sets the size in the store that is lent, and gives its result. The store stays
    /// the one that is lent.
    fn set_size(&mut self, len: ByteNum) -> (r: Result<(), std::io::Error>)
        ensures
            *final(*final(self)) == *final(*old(self)),
            (**old(self)).size_put(len, error_of(r), &**final(self)),
            r is Ok ==> (**final(self)).spec_tree() == (BaoTree {
                size: len,
                ..(**old(self)).spec_tree()
            }),
            r is Ok ==> (**final(self)).pairs() == (**old(self)).resized(len),
            r matches Err(e) ==> (**old(self)).errors().contains(e),
            (**old(self)).reliable() ==> r is Ok,
    {
        (**self).set_size(len)
    }

    /// Saves the hash pair in the store that is lent, and gives its result. The store
    /// stays the one that is lent.
    fn save(&mut self, node: TreeNode, hash_pair: &(Digest, Digest)) -> (r: Result<
        (),
        std::io::Error,
    >)
        ensures
            *final(*final(self)) == *final(*old(self)),
            (**old(self)).pair_put(node, *hash_pair, error_of(r), &**final(self)),
            r is Ok ==> (**final(self)).pairs() == (**old(self)).pairs().insert(node, *hash_pair),
            r matches Err(e) ==> (**old(self)).errors().contains(e),
            (**old(self)).reliable() ==> r is Ok,
    {
        (**self).save(node, hash_pair)
    }
}

/// Whether bytes have a slice of a length at an offset. A slice without bytes is
/// anywhere.
pub open spec fn has_slice(bytes: Seq<u8>, offset: nat, len: nat) -> bool {
    len == 0 || offset + len <= bytes.len()
}

/// The slice of a length at an offset.
pub open spec fn slice_at(bytes: Seq<u8>, offset: nat, len: nat) -> Seq<u8> {
    if len == 0 {
        Seq::empty()
    } else {
        bytes.subrange(offset as int, (offset + len) as int)
    }
}

/// A reader that can read a slice at a specified offset.
///
/// For a file this is seeking to the offset and then reading; storage that already
/// allows random access needs no seeking.
pub trait SliceReader {
    /// The bytes that can be read.
    open spec fn bytes(&self) -> Seq<u8> {
        arbitrary()
    }

    /// Whether reading bytes that are there is sure not to fail, as in memory.
    open spec fn reliable(&self) -> bool {
        false
    }

    /// Whether asking for the number of bytes is sure not to fail, as in memory.
    open spec fn len_known(&self) -> bool {
        false
    }

    /// The errors that the reader can give.
    open spec fn errors(&self) -> Set<std::io::Error> {
        arbitrary()
    }

    /// Fills the buffer with the bytes from an offset on.
    fn read_at(&mut self, offset: u64, buf: &mut [u8]) -> (r: Result<(), std::io::Error>)
        ensures
            final(self).bytes() == old(self).bytes(),
            final(self).reliable() == old(self).reliable(),
            final(self).len_known() == old(self).len_known(),
            final(self).errors() == old(self).errors(),
            final(buf)@.len() == old(buf)@.len(),
            r matches Err(e) ==> old(self).errors().contains(e),
            r is Ok ==> has_slice(old(self).bytes(), offset as nat, old(buf)@.len()) && final(buf)@
                == slice_at(old(self).bytes(), offset as nat, old(buf)@.len()),
            old(self).reliable() && has_slice(
                old(self).bytes(),
                offset as nat,
                old(buf)@.len(),
            ) ==> r is Ok,
    ;

    /// The number of bytes.
    fn len(&mut self) -> (r: Result<u64, std::io::Error>)
        ensures
            final(self).bytes() == old(self).bytes(),
            final(self).reliable() == old(self).reliable(),
            final(self).len_known() == old(self).len_known(),
            final(self).errors() == old(self).errors(),
            r matches Ok(len) ==> len == old(self).bytes().len(),
            r matches Err(e) ==> old(self).errors().contains(e),
            old(self).len_known() ==> r is Ok,
    ;
}

/// What a write at an offset leaves: the source at the offset, zeros between the
/// old end and an offset past it, and elsewhere what was there. A write of nothing
/// changes nothing.
pub open spec fn spliced(bytes: Seq<u8>, offset: nat, src: Seq<u8>) -> Seq<u8> {
    if src.len() == 0 {
        bytes
    } else {
        let end = offset + src.len();
        let len = if end > bytes.len() {
            end
        } else {
            bytes.len()
        };
        Seq::new(
            len,
            |i: int|
                if offset <= i < end {
                    src[i - offset]
                } else if i < bytes.len() {
                    bytes[i]
                } else {
                    0
                },
        )
    }
}

/// Whether a write at an offset got through some of the source, from its start on.
pub open spec fn partly_spliced(
    before: Seq<u8>,
    offset: nat,
    src: Seq<u8>,
    after: Seq<u8>,
) -> bool {
    exists|n: int|
        0 <= n <= src.len() && after == #[trigger] spliced(before, offset, src.take(n))
}

/// A writer that can write a slice at a specified offset.
///
/// Writing past the end extends what is there, as it does with files.
pub trait SliceWriter {
    /// The bytes that have been written.
    open spec fn bytes(&self) -> Seq<u8> {
        arbitrary()
    }

    /// Whether the writer is one that cannot fail, as one in memory.
    open spec fn reliable(&self) -> bool {
        false
    }

    /// The errors that the writer can give.
    open spec fn errors(&self) -> Set<std::io::Error> {
        arbitrary()
    }

    /// Whether writing a slice with this writer can succeed, or fail with an error, and
    /// leave a writer.
    open spec fn slice_put(
        &self,
        offset: u64,
        src: Seq<u8>,
        failed: Option<std::io::Error>,
        after: &Self,
    ) -> bool {
        true
    }

    /// Writes a slice at an offset. If that fails, some of it may have been written,
    /// from the start on.
    fn write_at(&mut self, offset: u64, src: &[u8]) -> (r: Result<(), std::io::Error>)
        ensures
            old(self).slice_put(offset, src@, error_of(r), final(self)),
            final(self).reliable() == old(self).reliable(),
            final(self).errors() == old(self).errors(),
            r matches Err(e) ==> old(self).errors().contains(e),
            r is Err ==> partly_spliced(
                old(self).bytes(),
                offset as nat,
                src@,
                final(self).bytes(),
            ),
            r is Ok ==> final(self).bytes() == spliced(old(self).bytes(), offset as nat, src@),
            old(self).reliable() ==> r is Ok,
    ;
}

/// Takes a length off the input: eight bytes, the least significant first. Input
/// that is shorter is an error, and stays as it is.
pub fn read_len(from: &mut &[u8]) -> (r: Result<ByteNum, std::io::Error>)
    ensures
        r is Ok <==> old(from)@.len() >= 8,
        r matches Ok(len) ==> len.0 == num::le_value(old(from)@.take(8)),
        r is Ok ==> final(from)@ == old(from)@.skip(8),
        r is Err ==> final(from)@ == old(from)@,
        r matches Err(e) ==> error::is_unexpected_eof(e),
{
    let buf = source::read_exact(from, 8)?;
    Ok(ByteNum(num::u64_from_le(buf)))
}

/// Takes a hash pair off the input: the left hash, then the right. Input that is
/// shorter is an error, and stays as it is.
pub fn read_parent(from: &mut &[u8]) -> (r: Result<(Digest, Digest), std::io::Error>)
    ensures
        r is Ok <==> old(from)@.len() >= 64,
        r matches Ok(pair) ==> pair.0@ == old(from)@.take(32) && pair.1@ == old(from)@.subrange(
            32,
            64,
        ),
        r is Ok ==> final(from)@ == old(from)@.skip(64),
        r is Err ==> final(from)@ == old(from)@,
        r matches Err(e) ==> error::is_unexpected_eof(e),
{
    let buf = source::read_exact(from, 64)?;
    let (left, right) = buf.split_at(32);
    let l_hash = Digest::from_slice(left);
    let r_hash = Digest::from_slice(right);
    assert(l_hash@ =~= old(from)@.take(32));
    assert(r_hash@ =~= old(from)@.subrange(32, 64));
    Ok((l_hash, r_hash))
}

/// Reads a range of bytes into the start of a buffer, and gives that start back.
pub fn read_range<'a, R: SliceReader>(
    from: &mut R,
    range: Range<ByteNum>,
    buf: &'a mut [u8],
) -> (r: Result<&'a [u8], std::io::Error>)
    requires
        range.start.0 <= range.end.0,
        range.end.0 - range.start.0 <= buf@.len(),
    ensures
        final(from).bytes() == old(from).bytes(),
        final(from).reliable() == old(from).reliable(),
        final(from).len_known() == old(from).len_known(),
        final(from).errors() == old(from).errors(),
        final(buf)@.len() == old(buf)@.len(),
        r matches Err(e) ==> old(from).errors().contains(e),
        ({
            let start = range.start.0 as nat;
            let len = (range.end.0 - range.start.0) as nat;
            &&& final(buf)@.skip(len as int) == old(buf)@.skip(len as int)
            &&& r matches Ok(bytes) ==> final(buf)@.take(len as int) == bytes@
            &&& r matches Ok(bytes) ==> has_slice(old(from).bytes(), start, len) && bytes@
                == slice_at(old(from).bytes(), start, len)
            &&& old(from).reliable() && has_slice(old(from).bytes(), start, len) ==> r is Ok
        }),
{
    let capacity: usize = buf.len();
    assert(range.end.0 - range.start.0 <= capacity);
    let len: usize = (range.end.0 - range.start.0) as usize;
    let (head, _) = buf.split_at_mut(len);
    from.read_at(range.start.0, head)?;
    Ok(head)
}

/// The slices of a source in a set of ranges, each with its offset, in order.
pub open spec fn slices_of(from: Seq<u8>, b: Seq<u64>) -> Seq<(u64, Seq<u8>)> {
    Seq::new(
        (b.len() + 1) / 2,
        |i: int|
            (
                b[2 * i],
                from.subrange(
                    b[2 * i] as int,
                    if 2 * i + 1 < b.len() {
                        b[2 * i + 1] as int
                    } else {
                        from.len() as int
                    },
                ),
            ),
    )
}

/// Whether writing slices, each once and in order, with success takes a writer from one
/// state to another.
pub open spec fn slices_put<W: SliceWriter>(
    slices: Seq<(u64, Seq<u8>)>,
    before: W,
    after: W,
) -> bool
    decreases slices.len(),
{
    if slices.len() == 0 {
        after == before
    } else {
        exists|to: W|
            slices_put(slices.drop_last(), before, to) && #[trigger] to.slice_put(
                slices.last().0,
                slices.last().1,
                None,
                &after,
            )
    }
}

/// One slice more has been written.
proof fn lemma_slice_put<W: SliceWriter>(
    slices: Seq<(u64, Seq<u8>)>,
    k: int,
    before: W,
    to: W,
    after: W,
)
    requires
        0 <= k < slices.len(),
        slices_put(slices.take(k), before, to),
        to.slice_put(slices[k].0, slices[k].1, None, &after),
    ensures
        slices_put(slices.take(k + 1), before, after),
{
    let all = slices.take(k + 1);
    assert(all.drop_last() =~= slices.take(k));
    assert(all.last() == slices[k]);
    assert(slices_put(all.drop_last(), before, to) && to.slice_put(
        all.last().0,
        all.last().1,
        None,
        &after,
    ));
}

/// Whether slice `k` could not be written, those before it were, and that was all.
pub open spec fn slices_stopped_at<W: SliceWriter>(
    slices: Seq<(u64, Seq<u8>)>,
    k: int,
    before: W,
    to: W,
    e: std::io::Error,
    after: W,
) -> bool {
    &&& 0 <= k < slices.len()
    &&& slices_put(slices.take(k), before, to)
    &&& to.slice_put(slices[k].0, slices[k].1, Some(e), &after)
}

/// Whether writing slices, each once and in order, stopped at one that failed.
pub open spec fn slices_stopped<W: SliceWriter>(
    slices: Seq<(u64, Seq<u8>)>,
    before: W,
    e: std::io::Error,
    after: W,
) -> bool {
    exists|k: int, to: W| slices_stopped_at(slices, k, before, to, e, after)
}

/// Writes the bytes of some ranges to where they are in the source, in order, up to
/// the first write that fails.
///
/// This is useful for writing changes to outboards. Nothing is flushed.
pub fn write_ranges<W: SliceWriter>(
    from: &[u8],
    to: &mut W,
    ranges: &RangeSetRef<u64>,
) -> (r: Result<(), std::io::Error>)
    requires
        forall|i: int|
            0 <= i < ranges::boundaries_of(ranges).len() ==> #[trigger] ranges::boundaries_of(
                ranges,
            )[i] <= from@.len(),
    ensures
        final(to).reliable() == old(to).reliable(),
        final(to).errors() == old(to).errors(),
        old(to).reliable() ==> r is Ok,
        ranges::boundaries_of(ranges).len() == 0 ==> r is Ok && *final(to) == *old(to),
        match r {
            Ok(_) => slices_put(
                slices_of(from@, ranges::boundaries_of(ranges)),
                *old(to),
                *final(to),
            ),
            Err(e) => slices_stopped(
                slices_of(from@, ranges::boundaries_of(ranges)),
                *old(to),
                e,
                *final(to),
            ),
        },
        r is Ok ==> ranges_written(
            old(to).bytes(),
            from@,
            ranges::boundaries_of(ranges),
            from@.len(),
            final(to).bytes(),
        ),
        r matches Err(e) ==> old(to).errors().contains(e) && exists|end: nat|
            end <= from@.len() && #[trigger] ranges_written(
                old(to).bytes(),
                from@,
                ranges::boundaries_of(ranges),
                end,
                final(to).bytes(),
            ),
{
    let b = ranges::boundaries(ranges);
    let len: usize = from.len();
    let end: u64 = len as u64;
    let mut i: usize = 0;
    let ghost mut done: nat = 0;
    let ghost mut ended = false;
    let ghost slices = slices_of(from@, b@);
    let ghost mut k: int = 0;
    proof {
        assert(slices.take(0) =~= Seq::<(u64, Seq<u8>)>::empty());
    }
    while i < b.len()
        invariant
            b@ == ranges::boundaries_of(ranges),
            ranges::strictly_sorted(b@),
            forall|j: int| 0 <= j < b@.len() ==> #[trigger] b@[j] <= from@.len(),
            len == from@.len(),
            end == len,
            i <= b@.len(),
            ended ==> 0 < i == b@.len() && done == from@.len(),
            !ended ==> i % 2 == 0 && (if i == 0 {
                done == 0
            } else {
                done == b@[i - 1]
            }),
            to.reliable() == old(to).reliable(),
            to.errors() == old(to).errors(),
            i == 0 ==> *to == *old(to),
            slices == slices_of(from@, b@),
            k == (i + 1) / 2,
            slices_put(slices.take(k), *old(to), *to),
            ranges_written(old(to).bytes(), from@, b@, done, to.bytes()),
        decreases b@.len() - i,
    {
        let range_start: u64 = b[i];
        let range_end: u64 = if i + 1 < b.len() {
            b[i + 1]
        } else {
            end
        };
        let src = vstd::slice::slice_subrange(from, range_start as usize, range_end as usize);
        let ghost before = to.bytes();
        let ghost writer = *to;
        assert(slices[k] == (range_start, src@));
        match to.write_at(range_start, src) {
            Ok(_) => {},
            Err(e) => {
                proof {
                    assert(slices_stopped_at(slices, k, *old(to), writer, e, *to));
                    let n = choose|n: int|
                        0 <= n <= src@.len() && to.bytes() == #[trigger] spliced(
                            before,
                            range_start as nat,
                            src@.take(n),
                        );
                    let end = (range_start + n) as nat;
                    assert(src@.take(n) =~= from@.subrange(range_start as int, end as int));
                    lemma_write_range(
                        old(to).bytes(),
                        from@,
                        b@,
                        done,
                        before,
                        i as int,
                        end,
                        to.bytes(),
                    );
                }
                return Err(e);
            },
        }
        proof {
            lemma_write_range(
                old(to).bytes(),
                from@,
                b@,
                done,
                before,
                i as int,
                range_end as nat,
                to.bytes(),
            );
            done = range_end as nat;
            lemma_slice_put(slices, k, *old(to), writer, *to);
            k = k + 1;
        }
        if b.len() - i == 1 {
            proof {
                ended = true;
            }
            i = b.len();
        } else {
            i = i + 2;
        }
    }
    proof {
        assert(slices.take(k) =~= slices);
        lemma_all_written(old(to).bytes(), from@, b@, done, to.bytes());
    }
    Ok(())
}

/// Whether `new` is `old` with the bytes of `from` below `end` that are in a set
/// written over it. The new bytes are as long as the old, unless the last byte
/// written lies past their end; between the old end and a byte written are zeros.
pub open spec fn ranges_written(
    old_bytes: Seq<u8>,
    from: Seq<u8>,
    b: Seq<u64>,
    end: nat,
    new_bytes: Seq<u8>,
) -> bool {
    &&& new_bytes.len() >= old_bytes.len()
    &&& new_bytes.len() == old_bytes.len() || (new_bytes.len() <= end && ranges::in_ranges(
        b,
        new_bytes.len() - 1,
    ))
    &&& forall|x: int|
        0 <= x < end && #[trigger] ranges::in_ranges(b, x) ==> x < new_bytes.len()
    &&& forall|x: int|
        0 <= x < new_bytes.len() ==> #[trigger] new_bytes[x] == (if x < end && ranges::in_ranges(
            b,
            x,
        ) {
            from[x]
        } else if x < old_bytes.len() {
            old_bytes[x]
        } else {
            0
        })
}

proof fn lemma_write_range(
    old_bytes: Seq<u8>,
    from: Seq<u8>,
    b: Seq<u64>,
    done: nat,
    before: Seq<u8>,
    i: int,
    end: nat,
    after: Seq<u8>,
)
    requires
        ranges::strictly_sorted(b),
        0 <= i < b.len(),
        i % 2 == 0,
        forall|j: int| 0 <= j < b.len() ==> #[trigger] b[j] <= from.len(),
        b[i] <= end <= (if i + 1 < b.len() {
            b[i + 1] as nat
        } else {
            from.len()
        }),
        if i == 0 {
            done == 0
        } else {
            done == b[i - 1]
        },
        ranges_written(old_bytes, from, b, done, before),
        after == spliced(before, b[i] as nat, from.subrange(b[i] as int, end as int)),
    ensures
        ranges_written(old_bytes, from, b, end, after),
{
    let start = b[i] as int;
    assert forall|x: int| done <= x < end implies #[trigger] ranges::in_ranges(b, x) == (start <= x)
        by {
        if start <= x {
            assert(b[i] <= x);
        } else if ranges::in_ranges(b, x) {
            let j = choose|j: int|
                0 <= j < b.len() && j % 2 == 0 && #[trigger] b[j] <= x && (j + 1 < b.len() ==> x
                    < b[j + 1]);
            if j < i {
                assert(j + 1 <= i - 1);
                if j + 1 < i - 1 {
                    assert(b[j + 1] < b[i - 1]);
                }
            } else if j > i {
                assert(b[i] < b[j]);
            }
        }
    }
    if start < end {
        assert(ranges::in_ranges(b, end - 1));
    }
}

proof fn lemma_all_written(
    old_bytes: Seq<u8>,
    from: Seq<u8>,
    b: Seq<u64>,
    done: nat,
    after: Seq<u8>,
)
    requires
        ranges::strictly_sorted(b),
        forall|j: int| 0 <= j < b.len() ==> #[trigger] b[j] <= from.len(),
        if b.len() == 0 {
            done == 0
        } else {
            done == b.last() && b.len() % 2 == 0 || done == from.len()
        },
        done <= from.len(),
        ranges_written(old_bytes, from, b, done, after),
    ensures
        ranges_written(old_bytes, from, b, from.len(), after),
{
    assert forall|x: int| done <= x < from.len() implies !#[trigger] ranges::in_ranges(b, x) by {
        if ranges::in_ranges(b, x) {
            let j = choose|j: int|
                0 <= j < b.len() && j % 2 == 0 && #[trigger] b[j] <= x && (j + 1 < b.len() ==> x
                    < b[j + 1]);
            assert(b[j + 1] <= b.last());
        }
    }
}

} // verus!
