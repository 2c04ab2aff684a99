//! Encoding and decoding of responses.
use bao_sync::decode::{
    apply_item, decode_response_into, DecodeResponseItem, DecodeResponseIter, Header, Leaf, Parent,
};
use bao_sync::encode::{
    encode_item, encode_item_validated, encode_ranges, encode_ranges_validated, start_encoding,
};
use bao_sync::error::{DecodeError, EncodeError};
use bao_sync::hash::{hash_block, Digest, HashStack};
use bao_sync::io::{read_len, read_parent, read_range, Outboard, OutboardMut, SliceReader, SliceWriter};
use bao_sync::iter::BaoChunk;
use bao_sync::node::TreeNode;
use bao_sync::num::{BlockSize, ByteNum, ChunkNum};
use bao_sync::tree::BaoTree;
use bytes::BytesMut;
use range_collections::RangeSet2;
use std::collections::HashMap;
use std::io;

/// An outboard in memory. It can be told to fail.
#[derive(Clone)]
struct MemOutboard {
    root: Digest,
    tree: BaoTree,
    pairs: HashMap<u64, (Digest, Digest)>,
    broken: bool,
}

impl Outboard for MemOutboard {
    fn root(&self) -> Digest {
        self.root
    }

    fn tree(&self) -> BaoTree {
        self.tree
    }

    fn load(&self, node: TreeNode) -> io::Result<Option<(Digest, Digest)>> {
        if self.broken {
            return Err(io::Error::from(io::ErrorKind::Other));
        }
        Ok(self.pairs.get(&node.0).copied())
    }
}

impl OutboardMut for MemOutboard {
    fn set_size(&mut self, len: ByteNum) -> io::Result<()> {
        if self.broken {
            return Err(io::Error::from(io::ErrorKind::Other));
        }
        self.tree.size = len;
        Ok(())
    }

    fn save(&mut self, node: TreeNode, hash_pair: &(Digest, Digest)) -> io::Result<()> {
        if self.broken {
            return Err(io::Error::from(io::ErrorKind::Other));
        }
        self.pairs.insert(node.0, *hash_pair);
        Ok(())
    }
}

/// Bytes in memory.
struct Mem(Vec<u8>);

impl SliceReader for Mem {
    fn read_at(&mut self, offset: u64, buf: &mut [u8]) -> io::Result<()> {
        if buf.is_empty() {
            return Ok(());
        }
        let start = offset as usize;
        match self.0.get(start..start + buf.len()) {
            Some(bytes) => {
                buf.copy_from_slice(bytes);
                Ok(())
            }
            None => Err(io::Error::from(io::ErrorKind::UnexpectedEof)),
        }
    }

    fn len(&mut self) -> io::Result<u64> {
        Ok(self.0.len() as u64)
    }
}

impl SliceWriter for Mem {
    fn write_at(&mut self, offset: u64, src: &[u8]) -> io::Result<()> {
        if src.is_empty() {
            return Ok(());
        }
        let start = offset as usize;
        if self.0.len() < start + src.len() {
            self.0.resize(start + src.len(), 0);
        }
        self.0[start..start + src.len()].copy_from_slice(src);
        Ok(())
    }
}

/// A file that fails.
struct Broken;

impl SliceReader for Broken {
    fn read_at(&mut self, _offset: u64, _buf: &mut [u8]) -> io::Result<()> {
        Err(io::Error::from(io::ErrorKind::BrokenPipe))
    }

    fn len(&mut self) -> io::Result<u64> {
        Err(io::Error::from(io::ErrorKind::BrokenPipe))
    }
}

impl SliceWriter for Broken {
    fn write_at(&mut self, _offset: u64, _src: &[u8]) -> io::Result<()> {
        Err(io::Error::from(io::ErrorKind::BrokenPipe))
    }
}

fn make_data(n: usize) -> Vec<u8> {
    (0..n).map(|i| (i / 1024) as u8 ^ (i % 251) as u8).collect()
}

fn parent_cv(l: &Digest, r: &Digest, is_root: bool) -> Digest {
    let l = blake3::Hash::from(l.0);
    let r = blake3::Hash::from(r.0);
    Digest(*blake3::guts::parent_cv(&l, &r, is_root).as_bytes())
}

fn outboard_of(data: &[u8], block_size: u8) -> MemOutboard {
    let tree = BaoTree::new(ByteNum(data.len() as u64), BlockSize(block_size));
    let mut pairs = HashMap::new();
    let mut stack: Vec<Digest> = Vec::new();
    let mut iter = tree.post_order_chunks_iter();
    while let Some(item) = iter.next() {
        match item {
            BaoChunk::Leaf { size, is_root, start_chunk } => {
                let s = start_chunk.to_bytes().0 as usize;
                stack.push(hash_block(start_chunk, &data[s..s + size], is_root));
            }
            BaoChunk::Parent { node, is_root, .. } => {
                let r = stack.pop().unwrap();
                let l = stack.pop().unwrap();
                pairs.insert(node.0, (l, r));
                stack.push(parent_cv(&l, &r, is_root));
            }
        }
    }
    let root = stack.pop().unwrap();
    assert!(stack.is_empty());
    assert_eq!(&root.0, blake3::hash(data).as_bytes());
    MemOutboard { root, tree, pairs, broken: false }
}

fn empty_outboard(root: Digest, block_size: u8) -> MemOutboard {
    MemOutboard {
        root,
        tree: BaoTree::new(ByteNum(0), BlockSize(block_size)),
        pairs: HashMap::new(),
        broken: false,
    }
}

fn encode(data: &[u8], outboard: &MemOutboard, query: &RangeSet2<u64>) -> Vec<u8> {
    let mut encoded = Vec::new();
    encode_ranges(Mem(data.to_vec()), outboard, query.as_ref(), &mut encoded).unwrap();
    let mut checked = Vec::new();
    encode_ranges_validated(Mem(data.to_vec()), outboard, query.as_ref(), &mut checked).unwrap();
    assert_eq!(encoded, checked);
    encoded
}

fn all() -> RangeSet2<u64> {
    RangeSet2::from(0u64..)
}

#[test]
fn everything_comes_back() {
    for size in [0usize, 1, 1024, 1025, 2048, 2049, 4096, 5000, 9000, 16385, 40_000] {
        let data = make_data(size);
        for block_size in 0..4u8 {
            let outboard = outboard_of(&data, block_size);
            let encoded = encode(&data, &outboard, &all());
            let mut input: &[u8] = &encoded;
            let mut copy = empty_outboard(outboard.root, block_size);
            let mut target = Mem(Vec::new());
            decode_response_into(all().as_ref(), &mut input, &mut copy, &mut target).unwrap();
            assert!(input.is_empty());
            assert_eq!(target.0, data);
            assert_eq!(copy.tree, outboard.tree);
            assert_eq!(copy.pairs.len(), outboard.pairs.len());
            for (node, pair) in &outboard.pairs {
                assert_eq!(copy.pairs[node].0 .0, pair.0 .0);
                assert_eq!(copy.pairs[node].1 .0, pair.1 .0);
            }
        }
    }
}

#[test]
fn queried_chunks_come_back_and_the_rest_stays() {
    let data = make_data(20_000);
    for block_size in 0..3u8 {
        let outboard = outboard_of(&data, block_size);
        for (from, to) in [(0u64, 1u64), (3, 4), (2, 7), (10, 12), (18, 19), (5, 19)] {
            let query = RangeSet2::from(from..to);
            let encoded = encode(&data, &outboard, &query);
            let mut input: &[u8] = &encoded;
            let mut copy = empty_outboard(outboard.root, block_size);
            let mut target = Mem(vec![0xee; 20_000]);
            decode_response_into(query.as_ref(), &mut input, &mut copy, &mut target).unwrap();
            assert!(input.is_empty());
            let group = 1024usize << block_size;
            let s = from as usize * 1024 / group * group;
            let e = std::cmp::min((to as usize * 1024 + group - 1) / group * group, 20_000);
            assert_eq!(target.0[s..e], data[s..e]);
            assert!(target.0[..s].iter().all(|x| *x == 0xee));
            assert!(target.0[e..].iter().all(|x| *x == 0xee));
        }
    }
}

#[test]
fn query_for_nothing_gives_a_header() {
    let data = make_data(5000);
    let outboard = outboard_of(&data, 0);
    let encoded = encode(&data, &outboard, &RangeSet2::empty());
    assert_eq!(encoded, 5000u64.to_le_bytes().to_vec());
}

#[test]
fn response_has_the_documented_bytes() {
    let data = make_data(3000);
    let outboard = outboard_of(&data, 0);
    let query = RangeSet2::from(1u64..2);
    let encoded = encode(&data, &outboard, &query);
    let mut expected = 3000u64.to_le_bytes().to_vec();
    for node in [1u64, 0] {
        expected.extend_from_slice(&outboard.pairs[&node].0 .0);
        expected.extend_from_slice(&outboard.pairs[&node].1 .0);
    }
    expected.extend_from_slice(&data[1024..2048]);
    assert_eq!(encoded, expected);
    let query = RangeSet2::from(2u64..);
    let encoded = encode(&data, &outboard, &query);
    let mut expected = 3000u64.to_le_bytes().to_vec();
    expected.extend_from_slice(&outboard.pairs[&1].0 .0);
    expected.extend_from_slice(&outboard.pairs[&1].1 .0);
    expected.extend_from_slice(&data[2048..]);
    assert_eq!(encoded, expected);
}

#[test]
fn response_is_appended() {
    let data = make_data(10);
    let outboard = outboard_of(&data, 0);
    let mut encoded = vec![1u8, 2, 3];
    encode_ranges(Mem(data.clone()), &outboard, all().as_ref(), &mut encoded).unwrap();
    assert_eq!(encoded.len(), 3 + 8 + 10);
    assert_eq!(encoded[..3], [1, 2, 3]);
    assert_eq!(encoded[11..], data[..]);
}

#[test]
fn file_of_another_size_is_refused() {
    let data = make_data(5000);
    let outboard = outboard_of(&data, 0);
    for len in [0usize, 4999, 5001] {
        let mut encoded = Vec::new();
        let r = encode_ranges(Mem(make_data(len)), &outboard, all().as_ref(), &mut encoded);
        assert!(matches!(r, Err(EncodeError::SizeMismatch)));
        let r =
            encode_ranges_validated(Mem(make_data(len)), &outboard, all().as_ref(), &mut encoded);
        assert!(matches!(r, Err(EncodeError::SizeMismatch)));
        assert!(encoded.is_empty());
    }
}

#[test]
fn query_past_the_end_is_refused() {
    let data = make_data(5000);
    let mut outboard = outboard_of(&data, 0);
    let query = RangeSet2::from(0u64..5);
    let mut encoded = Vec::new();
    let r = encode_ranges(Mem(data.clone()), &outboard, query.as_ref(), &mut encoded);
    assert!(matches!(r, Err(EncodeError::InvalidQueryRange)));
    let r = encode_ranges_validated(Mem(data.clone()), &outboard, query.as_ref(), &mut encoded);
    assert!(matches!(r, Err(EncodeError::InvalidQueryRange)));
    assert!(encoded.is_empty());
    let encoded = encode(&data, &outboard, &all());
    let mut input: &[u8] = &encoded;
    let mut target = Mem(Vec::new());
    let r = decode_response_into(query.as_ref(), &mut input, &mut outboard, &mut target);
    assert!(matches!(r, Err(DecodeError::InvalidQueryRange)));
    assert_eq!(input.len(), encoded.len() - 8);
    assert!(target.0.is_empty());
    let query = RangeSet2::from(0u64..4);
    encode(&data, &outboard, &query);
}

#[test]
fn corrupt_block_is_found_by_both_sides() {
    let data = make_data(5000);
    let outboard = outboard_of(&data, 0);
    let mut corrupt = data.clone();
    corrupt[3100] ^= 1;
    let mut encoded = Vec::new();
    encode_ranges(Mem(corrupt.clone()), &outboard, all().as_ref(), &mut encoded).unwrap();
    let mut checked = Vec::new();
    let r = encode_ranges_validated(Mem(corrupt), &outboard, all().as_ref(), &mut checked);
    assert!(matches!(r, Err(EncodeError::LeafHashMismatch(ChunkNum(3)))));
    assert_eq!(checked[..], encoded[..checked.len()]);
    assert_eq!(checked.len(), 8 + 4 * 64 + 3 * 1024);
    let mut input: &[u8] = &encoded;
    let mut copy = empty_outboard(outboard.root, 0);
    let mut target = Mem(Vec::new());
    let r = decode_response_into(all().as_ref(), &mut input, &mut copy, &mut target);
    assert!(matches!(r, Err(DecodeError::LeafHashMismatch(ChunkNum(3)))));
    assert_eq!(target.0, data[..3072]);
    assert_eq!(input.len(), encoded.len() - checked.len() - 1024);
}

#[test]
fn corrupt_pair_is_found_by_both_sides() {
    let data = make_data(5000);
    let mut outboard = outboard_of(&data, 0);
    outboard.pairs.get_mut(&2).unwrap().1 .0[5] ^= 1;
    let mut encoded = Vec::new();
    encode_ranges(Mem(data.clone()), &outboard, all().as_ref(), &mut encoded).unwrap();
    let mut checked = Vec::new();
    let r = encode_ranges_validated(Mem(data.clone()), &outboard, all().as_ref(), &mut checked);
    assert!(matches!(r, Err(EncodeError::ParentHashMismatch(TreeNode(2)))));
    assert_eq!(checked[..], encoded[..checked.len()]);
    let mut input: &[u8] = &encoded;
    let mut copy = empty_outboard(outboard.root, 0);
    let mut target = Mem(Vec::new());
    let r = decode_response_into(all().as_ref(), &mut input, &mut copy, &mut target);
    assert!(matches!(r, Err(DecodeError::ParentHashMismatch(TreeNode(2)))));
    assert_eq!(target.0, data[..2048]);
    assert!(copy.pairs.contains_key(&0));
    assert!(!copy.pairs.contains_key(&2));
}

#[test]
fn every_changed_byte_is_found() {
    let data = make_data(2500);
    let outboard = outboard_of(&data, 0);
    let encoded = encode(&data, &outboard, &all());
    for i in 8..encoded.len() {
        let mut changed = encoded.clone();
        changed[i] ^= 0x40;
        let mut input: &[u8] = &changed;
        let mut copy = empty_outboard(outboard.root, 0);
        let mut target = Mem(Vec::new());
        let r = decode_response_into(all().as_ref(), &mut input, &mut copy, &mut target);
        assert!(matches!(
            r,
            Err(DecodeError::ParentHashMismatch(_)) | Err(DecodeError::LeafHashMismatch(_))
        ));
        assert_eq!(target.0[..], data[..target.0.len()]);
    }
}

#[test]
fn truncated_response_is_an_error() {
    let data = make_data(2500);
    let outboard = outboard_of(&data, 0);
    let encoded = encode(&data, &outboard, &all());
    for len in [0usize, 7, 8, 71, 72, 200, encoded.len() - 1] {
        let mut input: &[u8] = &encoded[..len];
        let mut copy = empty_outboard(outboard.root, 0);
        let mut target = Mem(Vec::new());
        let r = decode_response_into(all().as_ref(), &mut input, &mut copy, &mut target);
        match r {
            Err(DecodeError::Io(e)) => assert_eq!(e.kind(), io::ErrorKind::UnexpectedEof),
            _ => panic!("expected an end of input"),
        }
        assert_eq!(target.0[..], data[..target.0.len()]);
    }
}

#[test]
fn failing_sources_and_targets_are_errors() {
    let data = make_data(2500);
    let outboard = outboard_of(&data, 0);
    let mut encoded = Vec::new();
    let r = encode_ranges(Broken, &outboard, all().as_ref(), &mut encoded);
    assert!(matches!(r, Err(EncodeError::Io(_))));
    let r = encode_ranges_validated(Broken, &outboard, all().as_ref(), &mut encoded);
    assert!(matches!(r, Err(EncodeError::Io(_))));
    assert!(encoded.is_empty());
    let mut broken = outboard.clone();
    broken.broken = true;
    let r = encode_ranges(Mem(data.clone()), &broken, all().as_ref(), &mut encoded);
    assert!(matches!(r, Err(EncodeError::Io(_))));
    assert_eq!(encoded, 2500u64.to_le_bytes().to_vec());
    let encoded = encode(&data, &outboard, &all());
    let mut input: &[u8] = &encoded;
    let mut target = Mem(Vec::new());
    let r = decode_response_into(all().as_ref(), &mut input, &mut broken, &mut target);
    assert!(matches!(r, Err(DecodeError::Io(_))));
    let mut input: &[u8] = &encoded;
    let mut copy = empty_outboard(outboard.root, 0);
    let r = decode_response_into(all().as_ref(), &mut input, &mut copy, &mut Broken);
    assert!(matches!(r, Err(DecodeError::Io(_))));
    assert_eq!(copy.tree.size, ByteNum(2500));
}

#[test]
fn decoder_goes_item_by_item() {
    let data = make_data(3000);
    let outboard = outboard_of(&data, 0);
    let encoded = encode(&data, &outboard, &all());
    let query = all();
    let mut iter = DecodeResponseIter::new(
        outboard.root,
        BlockSize(0),
        query.as_ref(),
        BytesMut::from(&b"xy"[..]),
    );
    assert!(iter.tree().is_none());
    assert_eq!(iter.buffer(), b"xy");
    let mut pos = 0usize;
    let mut wanted = Vec::new();
    let mut items = Vec::new();
    loop {
        assert!(iter.is_ready());
        let n = iter.wanted();
        let mut input: &[u8] = &encoded[pos..pos + n];
        match iter.next0(&mut input).unwrap() {
            Some(item) => items.push(item),
            None => break,
        }
        assert!(input.is_empty());
        wanted.push(n);
        pos += n;
    }
    assert_eq!(pos, encoded.len());
    assert_eq!(wanted, vec![8, 64, 64, 1024, 1024, 952]);
    assert_eq!(iter.tree(), Some(&outboard.tree));
    assert!(iter.buffer().is_empty());
    assert!(matches!(
        &items[0],
        DecodeResponseItem::Header(Header { size: ByteNum(3000) })
    ));
    match &items[2] {
        DecodeResponseItem::Parent(Parent { node, pair }) => {
            assert_eq!(*node, TreeNode(0));
            assert_eq!(pair.0 .0, outboard.pairs[&0].0 .0);
            assert_eq!(pair.1 .0, outboard.pairs[&0].1 .0);
        }
        _ => panic!("expected a pair"),
    }
    match &items[5] {
        DecodeResponseItem::Leaf(Leaf { offset, data: block }) => {
            assert_eq!(*offset, ByteNum(2048));
            assert_eq!(&block[..], &data[2048..]);
        }
        _ => panic!("expected a block"),
    }
    let mut input: &[u8] = &[];
    assert!(iter.next0(&mut input).unwrap().is_none());
}

#[test]
fn decoder_says_when_it_has_no_hash_left() {
    let data = make_data(2048);
    let outboard = outboard_of(&data, 0);
    let query = all();
    let mut iter =
        DecodeResponseIter::new(outboard.root, BlockSize(0), query.as_ref(), BytesMut::new());
    let header = 2048u64.to_le_bytes();
    let mut input: &[u8] = &header;
    iter.next0(&mut input).unwrap();
    let mut input: &[u8] = &[9u8; 64];
    assert!(matches!(
        iter.next0(&mut input),
        Err(DecodeError::ParentHashMismatch(TreeNode(0)))
    ));
    assert!(!iter.is_ready());
    // an input that is too short is an error all the same
    let mut input: &[u8] = &[9u8; 10];
    assert!(matches!(iter.next0(&mut input), Err(DecodeError::Io(_))));
    assert_eq!(input.len(), 10);
}

#[test]
fn decoder_keeps_a_block_that_does_not_match() {
    let query = all();
    let mut iter =
        DecodeResponseIter::new(Digest([1; 32]), BlockSize(0), query.as_ref(), BytesMut::new());
    let header = 3u64.to_le_bytes();
    let mut input: &[u8] = &header;
    iter.next0(&mut input).unwrap();
    let mut input: &[u8] = b"abcd";
    assert!(matches!(
        iter.next0(&mut input),
        Err(DecodeError::LeafHashMismatch(ChunkNum(0)))
    ));
    assert_eq!(input, b"d");
    assert_eq!(iter.buffer(), b"abc");
    assert!(iter.is_ready());
    assert!(iter.next0(&mut input).unwrap().is_none());
}

#[test]
fn items_are_put_where_they_belong() {
    let mut outboard = empty_outboard(Digest([0; 32]), 0);
    let mut target = Mem(b"0123456789".to_vec());
    let header = DecodeResponseItem::Header(Header { size: ByteNum(12) });
    apply_item(header, &mut outboard, &mut target).unwrap();
    assert_eq!(outboard.tree.size, ByteNum(12));
    let pair = (Digest([1; 32]), Digest([2; 32]));
    let parent = DecodeResponseItem::Parent(Parent { node: TreeNode(5), pair });
    apply_item(parent, &mut outboard, &mut target).unwrap();
    assert_eq!(outboard.pairs[&5].1 .0, [2; 32]);
    let leaf = DecodeResponseItem::Leaf(Leaf {
        offset: ByteNum(8),
        data: BytesMut::from(&b"abcd"[..]).freeze(),
    });
    apply_item(leaf, &mut outboard, &mut target).unwrap();
    assert_eq!(target.0, b"01234567abcd");
}

#[test]
fn outboards_can_be_borrowed() {
    let data = make_data(3000);
    let mut outboard = outboard_of(&data, 0);
    let root = outboard.root;
    {
        let shared = &outboard;
        assert_eq!((&shared).root().0, root.0);
        assert_eq!((&shared).tree(), BaoTree::new(ByteNum(3000), BlockSize(0)));
        assert!((&shared).load(TreeNode(1)).unwrap().is_some());
        assert!((&shared).load(TreeNode(2)).unwrap().is_none());
    }
    let mut lent = &mut outboard;
    OutboardMut::set_size(&mut lent, ByteNum(1)).unwrap();
    OutboardMut::save(&mut lent, TreeNode(2), &(Digest([3; 32]), Digest([4; 32]))).unwrap();
    assert_eq!(Outboard::tree(&lent).size, ByteNum(1));
    assert_eq!(Outboard::root(&lent).0, root.0);
    assert_eq!(Outboard::load(&lent, TreeNode(2)).unwrap().unwrap().0 .0, [3; 32]);
}

#[test]
fn lengths_and_pairs_are_read() {
    let mut bytes = 0x0102_0304_0506_0708u64.to_le_bytes().to_vec();
    bytes.extend_from_slice(&[5; 32]);
    bytes.extend_from_slice(&[6; 32]);
    bytes.push(7);
    let mut input: &[u8] = &bytes;
    assert_eq!(read_len(&mut input).unwrap(), ByteNum(0x0102_0304_0506_0708));
    let (l, r) = read_parent(&mut input).unwrap();
    assert_eq!(l.0, [5; 32]);
    assert_eq!(r.0, [6; 32]);
    assert_eq!(input, &[7]);
    assert!(read_len(&mut input).is_err());
    assert!(read_parent(&mut input).is_err());
    assert_eq!(input, &[7]);
}

#[test]
fn ranges_are_read_into_the_start_of_a_buffer() {
    let mut file = Mem(b"0123456789".to_vec());
    let mut buf = [b'x'; 5];
    let r = read_range(&mut file, ByteNum(3)..ByteNum(6), &mut buf).unwrap();
    assert_eq!(r, b"345");
    assert_eq!(&buf, b"345xx");
    assert!(read_range(&mut file, ByteNum(8)..ByteNum(11), &mut buf).is_err());
    assert_eq!(&buf[3..], b"xx");
    assert_eq!(read_range(&mut file, ByteNum(20)..ByteNum(20), &mut buf).unwrap(), b"");
}

#[test]
fn items_are_encoded_one_at_a_time() {
    let data = make_data(5000);
    let outboard = outboard_of(&data, 1);
    let query = RangeSet2::from(1u64..3);
    let mut file = Mem(data.clone());
    let mut bytes = Vec::new();
    let mut iter = start_encoding(&mut file, &outboard, query.as_ref(), &mut bytes).unwrap();
    let mut stack = HashStack::new();
    stack.push(outboard.root);
    let mut buffer = vec![0; 2048];
    assert_eq!(bytes, 5000u64.to_le_bytes());
    let mut checked = bytes.clone();
    while let Some(item) = iter.next() {
        encode_item(item, &mut file, &outboard, &mut buffer, &mut bytes).unwrap();
        encode_item_validated(
            &mut stack,
            item,
            &mut file,
            &outboard,
            &mut buffer,
            &mut checked,
        )
        .unwrap();
        assert_eq!(bytes, checked);
    }
    assert!(stack.is_empty());
    assert_eq!(bytes, encode(&data, &outboard, &query));
}

#[test]
fn item_that_does_not_match_is_not_put_out() {
    let data = make_data(2048);
    let outboard = outboard_of(&data, 0);
    let mut stack = HashStack::new();
    stack.push(Digest([9; 32]));
    let mut buffer = vec![0; 1024];
    let mut bytes = Vec::new();
    let item = BaoChunk::Leaf { size: 1024, is_root: false, start_chunk: ChunkNum(1) };
    let r = encode_item_validated(
        &mut stack,
        item,
        &mut Mem(data),
        &outboard,
        &mut buffer,
        &mut bytes,
    );
    assert!(matches!(r, Err(EncodeError::LeafHashMismatch(ChunkNum(1)))));
    assert!(bytes.is_empty());
}

#[test]
fn sizes_and_queries_are_looked_at_before_the_outboard() {
    let data = make_data(5000);
    let mut outboard = outboard_of(&data, 0);
    outboard.broken = true;
    let past_end = RangeSet2::from(0u64..5);
    let mut encoded = Vec::new();
    let r = encode_ranges(Mem(make_data(10)), &outboard, past_end.as_ref(), &mut encoded);
    assert!(matches!(r, Err(EncodeError::SizeMismatch)));
    let r = encode_ranges(Mem(data.clone()), &outboard, past_end.as_ref(), &mut encoded);
    assert!(matches!(r, Err(EncodeError::InvalidQueryRange)));
    let r = encode_ranges_validated(Mem(make_data(10)), &outboard, all().as_ref(), &mut encoded);
    assert!(matches!(r, Err(EncodeError::SizeMismatch)));
    let r = encode_ranges_validated(Mem(data), &outboard, past_end.as_ref(), &mut encoded);
    assert!(matches!(r, Err(EncodeError::InvalidQueryRange)));
    assert!(encoded.is_empty());
}

#[test]
fn mismatch_comes_before_a_missing_pair() {
    let mut data = make_data(8192);
    let mut outboard = outboard_of(&data, 0);
    outboard.pairs.remove(&4);
    data[100] ^= 1;
    let mut encoded = Vec::new();
    let r = encode_ranges_validated(Mem(data), &outboard, all().as_ref(), &mut encoded);
    assert!(matches!(r, Err(EncodeError::LeafHashMismatch(ChunkNum(0)))));
    assert_eq!(encoded.len(), 8 + 3 * 64);
}

#[test]
fn encoding_without_checks_ignores_the_root() {
    let data = make_data(5000);
    let mut outboard = outboard_of(&data, 0);
    let expected = encode(&data, &outboard, &all());
    outboard.root = Digest([7; 32]);
    let mut encoded = Vec::new();
    encode_ranges(Mem(data), &outboard, all().as_ref(), &mut encoded).unwrap();
    assert_eq!(encoded, expected);
}

#[test]
fn nothing_but_what_was_checked_is_saved() {
    let data = b"hello".to_vec();
    let outboard = outboard_of(&data, 0);
    let encoded = encode(&data, &outboard, &all());
    let mut copy = empty_outboard(outboard.root, 0);
    copy.pairs.insert(77, (Digest([1; 32]), Digest([2; 32])));
    let mut target = Mem(Vec::new());
    let mut input: &[u8] = &encoded;
    decode_response_into(all().as_ref(), &mut input, &mut copy, &mut target).unwrap();
    assert_eq!(target.0, b"hello");
    assert_eq!(copy.tree.size, ByteNum(5));
    assert_eq!(copy.pairs.len(), 1);
    assert_eq!(copy.pairs[&77].0 .0, [1; 32]);
}

#[test]
fn blocks_are_decoded_in_order() {
    let data = make_data(9000);
    let outboard = outboard_of(&data, 0);
    let encoded = encode(&data, &outboard, &all());
    let query = all();
    let mut iter =
        DecodeResponseIter::new(outboard.root, BlockSize(0), query.as_ref(), BytesMut::new());
    let mut input: &[u8] = &encoded;
    let mut end = 0u64;
    while let Some(item) = iter.next0(&mut input).unwrap() {
        if let DecodeResponseItem::Leaf(Leaf { offset, data: block }) = item {
            assert_eq!(offset.0, end);
            end += block.len() as u64;
        }
    }
    assert_eq!(end, 9000);
}
