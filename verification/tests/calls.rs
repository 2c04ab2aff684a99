//! Which calls are made on stores and targets, and in what order.
use bao_sync::decode::{decode_response_into, DecodeResponseItem, DecodeResponseIter};
use bao_sync::encode::{encode_ranges, encode_ranges_validated, start_encoding};
use bao_sync::error::{DecodeError, EncodeError};
use bao_sync::hash::{blake3_hash_inner, hash_block, Digest, HashStack};
use bao_sync::io::{read_len, read_parent, write_ranges, Outboard, OutboardMut, SliceReader, SliceWriter};
use bao_sync::iter::BaoChunk;
use bao_sync::node::TreeNode;
use bao_sync::num::{BlockSize, ByteNum, ChunkNum};
use bao_sync::outboard::outboard_post_order;
use bao_sync::tree::BaoTree;
use bytes::BytesMut;
use range_collections::RangeSet2;
use std::cell::RefCell;
use std::collections::HashMap;
use std::io;
use std::rc::Rc;

#[derive(Clone, Debug, PartialEq)]
enum Call {
    SetSize(u64),
    Save(u64, [u8; 32], [u8; 32]),
    WriteAt(u64, Vec<u8>),
}

fn save_call(node: u64, pair: &(Digest, Digest)) -> Call {
    Call::Save(node, pair.0 .0, pair.1 .0)
}

/// Whether a hash pair was loaded.
fn loaded<O: Outboard>(outboard: &O, node: TreeNode, pair: &(Digest, Digest)) -> bool {
    match outboard.load(node) {
        Ok(Some(p)) => p.0.same(&pair.0) && p.1.same(&pair.1),
        _ => false,
    }
}

/// The calls so far, and how many may still be made.
#[derive(Clone)]
struct Log(Rc<RefCell<(Vec<Call>, usize)>>);

impl Log {
    fn new(limit: usize) -> Self {
        Log(Rc::new(RefCell::new((Vec::new(), limit))))
    }

    fn call(&self, call: Call) -> io::Result<()> {
        let mut log = self.0.borrow_mut();
        log.0.push(call);
        if log.0.len() > log.1 {
            return Err(io::Error::from(io::ErrorKind::BrokenPipe));
        }
        Ok(())
    }

    fn calls(&self) -> Vec<Call> {
        self.0.borrow().0.clone()
    }
}

/// A store that writes down what is asked of it.
struct Store {
    root: Digest,
    tree: BaoTree,
    pairs: HashMap<u64, (Digest, Digest)>,
    log: Log,
}

impl Store {
    fn new(root: Digest, block_size: u8, log: &Log) -> Self {
        let tree = BaoTree::new(ByteNum(0), BlockSize(block_size));
        Store { root, tree, pairs: HashMap::new(), log: log.clone() }
    }
}

impl Outboard for Store {
    fn root(&self) -> Digest {
        self.root
    }

    fn tree(&self) -> BaoTree {
        self.tree
    }

    fn load(&self, node: TreeNode) -> io::Result<Option<(Digest, Digest)>> {
        Ok(self.pairs.get(&node.0).copied())
    }
}

impl OutboardMut for Store {
    fn set_size(&mut self, len: ByteNum) -> io::Result<()> {
        self.log.call(Call::SetSize(len.0))?;
        self.tree.size = len;
        Ok(())
    }

    fn save(&mut self, node: TreeNode, hash_pair: &(Digest, Digest)) -> io::Result<()> {
        self.log.call(save_call(node.0, hash_pair))?;
        self.pairs.insert(node.0, *hash_pair);
        Ok(())
    }
}

/// A target that writes down what is asked of it.
struct Target(Vec<u8>, Log);

impl SliceWriter for Target {
    fn write_at(&mut self, offset: u64, src: &[u8]) -> io::Result<()> {
        self.1.call(Call::WriteAt(offset, src.to_vec()))?;
        let start = offset as usize;
        if !src.is_empty() && self.0.len() < start + src.len() {
            self.0.resize(start + src.len(), 0);
        }
        if !src.is_empty() {
            self.0[start..start + src.len()].copy_from_slice(src);
        }
        Ok(())
    }
}

/// Bytes in memory.
struct Mem(Vec<u8>);

impl SliceReader for Mem {
    fn read_at(&mut self, offset: u64, buf: &mut [u8]) -> io::Result<()> {
        let start = offset as usize;
        match self.0.get(start..start + buf.len()) {
            Some(bytes) => {
                buf.copy_from_slice(bytes);
                Ok(())
            }
            None => Err(io::Error::from(io::ErrorKind::UnexpectedEof)),
        }
    }

    fn len(&mut self) -> io::Result<u64> {
        Ok(self.0.len() as u64)
    }
}

/// An outboard in memory, in which some nodes cannot be loaded.
struct MemOutboard {
    root: Digest,
    tree: BaoTree,
    pairs: HashMap<u64, (Digest, Digest)>,
    fails: Vec<u64>,
}

impl Outboard for MemOutboard {
    fn root(&self) -> Digest {
        self.root
    }

    fn tree(&self) -> BaoTree {
        self.tree
    }

    fn load(&self, node: TreeNode) -> io::Result<Option<(Digest, Digest)>> {
        if self.fails.contains(&node.0) {
            return Err(io::Error::from(io::ErrorKind::PermissionDenied));
        }
        Ok(self.pairs.get(&node.0).copied())
    }
}

fn make_data(n: usize) -> Vec<u8> {
    (0..n).map(|i| (i / 1024) as u8 ^ (i % 241) as u8).collect()
}

fn outboard_of(data: &[u8], block_size: u8) -> MemOutboard {
    let tree = BaoTree::new(ByteNum(data.len() as u64), BlockSize(block_size));
    let mut pairs = HashMap::new();
    let mut stack: Vec<Digest> = Vec::new();
    let mut iter = tree.post_order_chunks_iter();
    while let Some(item) = iter.next() {
        match item {
            BaoChunk::Leaf { size, is_root, start_chunk } => {
                let s = start_chunk.to_bytes().0 as usize;
                stack.push(hash_block(start_chunk, &data[s..s + size], is_root));
            }
            BaoChunk::Parent { node, is_root, .. } => {
                let r = stack.pop().unwrap();
                let l = stack.pop().unwrap();
                pairs.insert(node.0, (l, r));
                let l = blake3::Hash::from(l.0);
                let r = blake3::Hash::from(r.0);
                stack.push(Digest(*blake3::guts::parent_cv(&l, &r, is_root).as_bytes()));
            }
        }
    }
    let root = stack.pop().unwrap();
    MemOutboard { root, tree, pairs, fails: Vec::new() }
}

fn all() -> RangeSet2<u64> {
    RangeSet2::from(0u64..)
}

fn encode_checked(data: &[u8], outboard: &MemOutboard, query: &RangeSet2<u64>) -> Vec<u8> {
    let mut encoded = Vec::new();
    encode_ranges_validated(Mem(data.to_vec()), outboard, query.as_ref(), &mut encoded).unwrap();
    encoded
}

/// What a decoder gives, as the calls that it leads to.
fn expected_calls(root: Digest, block_size: u8, encoded: &[u8], query: &RangeSet2<u64>) -> Vec<Call> {
    let mut input = encoded;
    let mut iter =
        DecodeResponseIter::new(root, BlockSize(block_size), query.as_ref(), BytesMut::new());
    let mut calls = Vec::new();
    while let Some(Ok(item)) = iter.next(&mut input) {
        calls.push(match item {
            DecodeResponseItem::Header(header) => Call::SetSize(header.size.0),
            DecodeResponseItem::Parent(parent) => save_call(parent.node.0, &parent.pair),
            DecodeResponseItem::Leaf(leaf) => Call::WriteAt(leaf.offset.0, leaf.data.to_vec()),
        });
    }
    calls
}

#[test]
fn one_call_is_made_for_each_item() {
    for n in [0, 1, 1024, 1025, 5000, 9000] {
        let data = make_data(n);
        let outboard = outboard_of(&data, 0);
        for query in [all(), RangeSet2::from(0u64..1)] {
            let query = if n <= 1024 { all() } else { query };
            let encoded = encode_checked(&data, &outboard, &query);
            let log = Log::new(usize::MAX);
            let mut store = Store::new(outboard.root, 0, &log);
            let mut target = Target(Vec::new(), log.clone());
            decode_response_into(query.as_ref(), &mut &encoded[..], &mut store, &mut target).unwrap();
            let calls = log.calls();
            assert_eq!(calls, expected_calls(outboard.root, 0, &encoded, &query));
            assert_eq!(calls[0], Call::SetSize(n as u64));
        }
    }
}

#[test]
fn validated_response_arrives_whole() {
    for n in [0, 1, 1024, 2048, 3000, 20000] {
        for block_size in [0, 1, 3] {
            let data = make_data(n);
            let outboard = outboard_of(&data, block_size);
            let encoded = encode_checked(&data, &outboard, &all());
            let log = Log::new(usize::MAX);
            let mut store = Store::new(outboard.root, block_size, &log);
            let mut target = Target(Vec::new(), log.clone());
            let mut input = &encoded[..];
            decode_response_into(all().as_ref(), &mut input, &mut store, &mut target).unwrap();
            assert!(input.is_empty());
            assert_eq!(target.0, data);
            assert_eq!(store.tree, outboard.tree);
            assert_eq!(store.pairs.len(), outboard.pairs.len());
            for (node, pair) in &outboard.pairs {
                assert!(loaded(&store, TreeNode(*node), pair));
                let save = save_call(*node, pair);
                assert_eq!(log.calls().iter().filter(|call| **call == save).count(), 1);
            }
            let saves = log.calls().iter().filter(|call| matches!(call, Call::Save(..))).count();
            assert_eq!(saves, outboard.pairs.len());
        }
    }
}

#[test]
fn what_validation_let_through_comes_back() {
    let data = make_data(8192);
    let mut outboard = outboard_of(&data, 0);
    // the right half of the outboard is not that of the data
    assert!(outboard.pairs.insert(5, (Digest([1; 32]), Digest([2; 32]))).is_some());
    let query = RangeSet2::from(0u64..3);
    let encoded = encode_checked(&data, &outboard, &query);
    let mut input = &encoded[..];
    let mut iter =
        DecodeResponseIter::new(outboard.root, BlockSize(0), query.as_ref(), BytesMut::new());
    let mut blocks = 0;
    while let Some(item) = iter.next(&mut input) {
        match item.unwrap() {
            DecodeResponseItem::Header(header) => assert_eq!(header.size, outboard.tree.size),
            DecodeResponseItem::Parent(parent) => {
                assert!(loaded(&outboard, parent.node, &parent.pair));
            }
            DecodeResponseItem::Leaf(leaf) => {
                let offset = leaf.offset.0 as usize;
                assert_eq!(&leaf.data[..], &data[offset..offset + leaf.data.len()]);
                blocks += 1;
            }
        }
    }
    assert!(input.is_empty());
    assert_eq!(blocks, 3);
}

#[test]
fn failing_call_is_the_last_one() {
    let data = make_data(5000);
    let outboard = outboard_of(&data, 0);
    let encoded = encode_checked(&data, &outboard, &all());
    let expected = expected_calls(outboard.root, 0, &encoded, &all());
    let mut taken = 0;
    for limit in 0..expected.len() {
        taken += match &expected[limit] {
            Call::SetSize(_) => 8,
            Call::Save(..) => 64,
            Call::WriteAt(_, bytes) => bytes.len(),
        };
        let log = Log::new(limit);
        let mut store = Store::new(outboard.root, 0, &log);
        let mut target = Target(Vec::new(), log.clone());
        let mut input = &encoded[..];
        let r = decode_response_into(all().as_ref(), &mut input, &mut store, &mut target);
        match r {
            Err(DecodeError::Io(e)) => assert_eq!(e.kind(), io::ErrorKind::BrokenPipe),
            _ => panic!("call {} did not fail", limit),
        }
        assert_eq!(log.calls(), expected[..limit + 1]);
        assert_eq!(input, &encoded[taken..]);
        assert_eq!(store.tree.size.0, if limit > 0 { 5000 } else { 0 });
    }
}

#[test]
fn no_call_is_made_without_a_header() {
    let data = make_data(5000);
    let outboard = outboard_of(&data, 0);
    let encoded = encode_checked(&data, &outboard, &all());
    for (input, query) in [(&encoded[..7], all()), (&encoded[..], RangeSet2::from(0u64..9))] {
        let log = Log::new(usize::MAX);
        let mut store = Store::new(outboard.root, 0, &log);
        let mut target = Target(Vec::new(), log.clone());
        let mut input = input;
        assert!(decode_response_into(query.as_ref(), &mut input, &mut store, &mut target).is_err());
        assert!(log.calls().is_empty());
    }
}

#[test]
fn no_call_is_made_after_a_mismatch() {
    let data = make_data(5000);
    let outboard = outboard_of(&data, 0);
    let mut encoded = encode_checked(&data, &outboard, &all());
    let expected = expected_calls(outboard.root, 0, &encoded, &all());
    let last = encoded.len() - 1;
    encoded[last] ^= 1;
    let log = Log::new(usize::MAX);
    let mut store = Store::new(outboard.root, 0, &log);
    let mut target = Target(Vec::new(), log.clone());
    let r = decode_response_into(all().as_ref(), &mut &encoded[..], &mut store, &mut target);
    assert!(matches!(r, Err(DecodeError::LeafHashMismatch(ChunkNum(4)))));
    assert_eq!(log.calls(), expected[..expected.len() - 1]);
}

#[test]
fn decoder_gives_items_errors_and_an_end() {
    let data = make_data(2048);
    let outboard = outboard_of(&data, 0);
    let encoded = encode_checked(&data, &outboard, &all());
    let query = all();
    let mut iter =
        DecodeResponseIter::new(outboard.root, BlockSize(0), query.as_ref(), BytesMut::new());
    let mut input = &encoded[..];
    assert!(matches!(iter.next(&mut input), Some(Ok(DecodeResponseItem::Header(_)))));
    assert!(matches!(iter.next(&mut input), Some(Ok(DecodeResponseItem::Parent(_)))));
    assert!(matches!(iter.next(&mut input), Some(Ok(DecodeResponseItem::Leaf(_)))));
    let mut short = &input[..1000];
    match iter.next(&mut short) {
        Some(Err(DecodeError::Io(e))) => assert_eq!(e.kind(), io::ErrorKind::UnexpectedEof),
        _ => panic!("a block of 1000 bytes was taken"),
    }
    assert!(iter.next(&mut input).is_none());
}

#[test]
fn early_end_of_input_has_a_kind() {
    let mut input: &[u8] = &[0; 7];
    assert_eq!(read_len(&mut input).unwrap_err().kind(), io::ErrorKind::UnexpectedEof);
    let mut input: &[u8] = &[0; 63];
    assert_eq!(read_parent(&mut input).unwrap_err().kind(), io::ErrorKind::UnexpectedEof);
    let mut input: &[u8] = &[0; 1500];
    let r = blake3_hash_inner(&mut input, ByteNum(1501), ChunkNum(0), true);
    assert_eq!(r.unwrap_err().kind(), io::ErrorKind::UnexpectedEof);
    let mut input: &[u8] = &[0; 1500];
    let mut outboard = Vec::new();
    let r = outboard_post_order(&mut input, 1501, BlockSize(0), &mut outboard);
    assert_eq!(r.unwrap_err().kind(), io::ErrorKind::UnexpectedEof);
    assert!(outboard.is_empty());
}

#[test]
fn failing_load_comes_before_a_missing_pair() {
    let data = make_data(8192);
    let mut outboard = outboard_of(&data, 0);
    outboard.fails.push(1);
    assert!(outboard.pairs.remove(&1).is_some());
    assert!(outboard.pairs.remove(&5).is_some());
    let mut encoded = Vec::new();
    let r = encode_ranges(Mem(data.clone()), &outboard, all().as_ref(), &mut encoded);
    match r {
        Err(EncodeError::Io(e)) => assert_eq!(e.kind(), io::ErrorKind::PermissionDenied),
        _ => panic!("node 1 was loaded"),
    }
    assert_eq!(encoded.len(), 8 + 64);
    let mut checked = Vec::new();
    let r = encode_ranges_validated(Mem(data), &outboard, all().as_ref(), &mut checked);
    assert!(matches!(r, Err(EncodeError::Io(_))));
    assert_eq!(checked, encoded);
}

#[test]
fn lengths_are_compared_before_all_else() {
    let tree = BaoTree::new_with_start_chunk(ByteNum(2048), BlockSize(0), ChunkNum(5));
    let outboard =
        MemOutboard { root: Digest([0; 32]), tree, pairs: HashMap::new(), fails: Vec::new() };
    let mut encoded = Vec::new();
    let r = encode_ranges(Mem(make_data(10)), &outboard, all().as_ref(), &mut encoded);
    assert!(matches!(r, Err(EncodeError::SizeMismatch)));
    let r = encode_ranges_validated(Mem(make_data(10)), &outboard, all().as_ref(), &mut encoded);
    assert!(matches!(r, Err(EncodeError::SizeMismatch)));
    let query = all();
    let r = start_encoding(&mut Mem(make_data(10)), &outboard, query.as_ref(), &mut encoded);
    assert!(matches!(r, Err(EncodeError::SizeMismatch)));
    assert!(encoded.is_empty());
}

#[test]
fn lent_store_keeps_what_was_saved() {
    let log = Log::new(usize::MAX);
    let mut store = Store::new(Digest([0; 32]), 0, &log);
    let pair = (Digest([1; 32]), Digest([2; 32]));
    {
        let mut lent = &mut store;
        OutboardMut::set_size(&mut lent, ByteNum(3000)).unwrap();
        OutboardMut::save(&mut lent, TreeNode(1), &pair).unwrap();
        assert!(loaded(&lent, TreeNode(1), &pair));
    }
    assert!(loaded(&store, TreeNode(1), &pair));
    assert_eq!(store.tree().size, ByteNum(3000));
    assert_eq!(log.calls(), [Call::SetSize(3000), save_call(1, &pair)]);
}

#[test]
fn one_write_is_made_for_each_range() {
    let log = Log::new(1);
    let mut target = Target(Vec::new(), log.clone());
    let ranges = RangeSet2::from(1u64..3) | RangeSet2::from(5u64..6) | RangeSet2::from(8u64..);
    assert!(write_ranges(b"0123456789", &mut target, ranges.as_ref()).is_err());
    let calls = [Call::WriteAt(1, b"12".to_vec()), Call::WriteAt(5, b"5".to_vec())];
    assert_eq!(log.calls(), calls);
}

#[test]
fn digests_are_the_same_byte_for_byte() {
    let a = Digest([7; 32]);
    assert!(a.same(&Digest([7; 32])));
    for i in 0..32 {
        for bit in 0..8 {
            let mut bytes = [7; 32];
            bytes[i] ^= 1 << bit;
            assert!(!a.same(&Digest(bytes)));
        }
    }
}

#[test]
fn decoders_and_stacks_can_be_printed() {
    let query = all();
    let iter =
        DecodeResponseIter::new(Digest([0; 32]), BlockSize(0), query.as_ref(), BytesMut::new());
    assert!(format!("{:?}", iter).starts_with("DecodeResponseIter"));
    assert!(format!("{:?}", HashStack::new()).starts_with("HashStack"));
}
