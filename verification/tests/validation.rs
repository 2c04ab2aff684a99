//! Valid ranges, sets of chunks, and writing of ranges.
use bao_sync::encode::encode_ranges_validated;
use bao_sync::decode::decode_response_into;
use bao_sync::hash::{hash_block, Digest};
use bao_sync::io::{write_ranges, Outboard, OutboardMut, SliceReader, SliceWriter};
use bao_sync::iter::BaoChunk;
use bao_sync::node::TreeNode;
use bao_sync::num::{BlockSize, ByteNum, ChunkNum};
use bao_sync::ranges::{range_ok, ChunkRanges};
use bao_sync::tree::BaoTree;
use bao_sync::validate::{valid_file_ranges, valid_ranges};
use range_collections::RangeSet2;
use std::collections::HashMap;
use std::io;

struct MemOutboard {
    root: Digest,
    tree: BaoTree,
    pairs: HashMap<u64, (Digest, Digest)>,
    broken: Vec<u64>,
}

impl Outboard for MemOutboard {
    fn root(&self) -> Digest {
        self.root
    }

    fn tree(&self) -> BaoTree {
        self.tree
    }

    fn load(&self, node: TreeNode) -> io::Result<Option<(Digest, Digest)>> {
        if self.broken.contains(&node.0) {
            return Err(io::Error::from(io::ErrorKind::Other));
        }
        Ok(self.pairs.get(&node.0).copied())
    }
}

impl OutboardMut for MemOutboard {
    fn set_size(&mut self, len: ByteNum) -> io::Result<()> {
        self.tree.size = len;
        Ok(())
    }

    fn save(&mut self, node: TreeNode, hash_pair: &(Digest, Digest)) -> io::Result<()> {
        self.pairs.insert(node.0, *hash_pair);
        Ok(())
    }
}

struct Mem(Vec<u8>);

impl SliceReader for Mem {
    fn read_at(&mut self, offset: u64, buf: &mut [u8]) -> io::Result<()> {
        if buf.is_empty() {
            return Ok(());
        }
        let start = offset as usize;
        match self.0.get(start..start + buf.len()) {
            Some(bytes) => {
                buf.copy_from_slice(bytes);
                Ok(())
            }
            None => Err(io::Error::from(io::ErrorKind::UnexpectedEof)),
        }
    }

    fn len(&mut self) -> io::Result<u64> {
        Ok(self.0.len() as u64)
    }
}

impl SliceWriter for Mem {
    fn write_at(&mut self, offset: u64, src: &[u8]) -> io::Result<()> {
        if src.is_empty() {
            return Ok(());
        }
        let start = offset as usize;
        if self.0.len() < start + src.len() {
            self.0.resize(start + src.len(), 0);
        }
        self.0[start..start + src.len()].copy_from_slice(src);
        Ok(())
    }
}

struct Broken;

impl SliceWriter for Broken {
    fn write_at(&mut self, _offset: u64, _src: &[u8]) -> io::Result<()> {
        Err(io::Error::from(io::ErrorKind::BrokenPipe))
    }
}

fn make_data(n: usize) -> Vec<u8> {
    (0..n).map(|i| (i / 1024) as u8 ^ (i % 251) as u8).collect()
}

fn outboard_of(data: &[u8], block_size: u8) -> MemOutboard {
    let tree = BaoTree::new(ByteNum(data.len() as u64), BlockSize(block_size));
    let mut pairs = HashMap::new();
    let mut stack: Vec<Digest> = Vec::new();
    let mut iter = tree.post_order_chunks_iter();
    while let Some(item) = iter.next() {
        match item {
            BaoChunk::Leaf { size, is_root, start_chunk } => {
                let s = start_chunk.to_bytes().0 as usize;
                stack.push(hash_block(start_chunk, &data[s..s + size], is_root));
            }
            BaoChunk::Parent { node, is_root, .. } => {
                let r = stack.pop().unwrap();
                let l = stack.pop().unwrap();
                pairs.insert(node.0, (l, r));
                let hash = blake3::guts::parent_cv(
                    &blake3::Hash::from(l.0),
                    &blake3::Hash::from(r.0),
                    is_root,
                );
                stack.push(Digest(*hash.as_bytes()));
            }
        }
    }
    MemOutboard { root: stack.pop().unwrap(), tree, pairs, broken: Vec::new() }
}

fn boundaries(ranges: &ChunkRanges) -> Vec<u64> {
    ranges.as_ranges().boundaries().to_vec()
}

#[test]
fn everything_is_valid() {
    for size in [1usize, 1024, 1025, 2048, 2049, 5000, 9000, 16385, 40_000] {
        let data = make_data(size);
        for block_size in 0..4u8 {
            let outboard = outboard_of(&data, block_size);
            let chunks = ((size + 1023) / 1024) as u64;
            let valid = valid_ranges(&outboard).unwrap();
            assert_eq!(boundaries(&valid), vec![0, chunks]);
            let valid = valid_file_ranges(&outboard, Mem(data.clone())).unwrap();
            assert_eq!(boundaries(&valid), vec![0, chunks]);
        }
    }
}

#[test]
fn empty_blob_has_no_valid_chunk() {
    let outboard = outboard_of(&[], 0);
    assert!(boundaries(&valid_ranges(&outboard).unwrap()).is_empty());
    assert!(boundaries(&valid_file_ranges(&outboard, Mem(Vec::new())).unwrap()).is_empty());
}

#[test]
fn corrupt_pair_makes_what_is_below_invalid() {
    let data = make_data(8192);
    let mut outboard = outboard_of(&data, 0);
    outboard.pairs.get_mut(&5).unwrap().0 .0[0] ^= 1;
    assert_eq!(boundaries(&valid_ranges(&outboard).unwrap()), vec![0, 4]);
    let valid = valid_file_ranges(&outboard, Mem(data)).unwrap();
    assert_eq!(boundaries(&valid), vec![0, 4]);
}

#[test]
fn corrupt_block_is_invalid_in_the_file_only() {
    let mut data = make_data(8192);
    let outboard = outboard_of(&data, 0);
    data[2100] ^= 1;
    assert_eq!(boundaries(&valid_ranges(&outboard).unwrap()), vec![0, 8]);
    let valid = valid_file_ranges(&outboard, Mem(data)).unwrap();
    assert_eq!(boundaries(&valid), vec![0, 2, 3, 8]);
}

#[test]
fn corrupt_last_half_leaf_is_invalid() {
    let mut data = make_data(4100);
    let outboard = outboard_of(&data, 0);
    data[4099] ^= 1;
    let valid = valid_file_ranges(&outboard, Mem(data)).unwrap();
    assert_eq!(boundaries(&valid), vec![0, 4]);
}

#[test]
fn missing_pair_hands_the_hash_to_the_left() {
    let data = make_data(8192);
    let mut outboard = outboard_of(&data, 0);
    outboard.pairs.remove(&5);
    // below node 5 neither the hash that is handed on nor zeros match
    assert_eq!(boundaries(&valid_ranges(&outboard).unwrap()), vec![0, 4]);
    // a leaf without a pair counts as valid in the outboard, and not in the file
    let mut outboard = outboard_of(&data, 0);
    outboard.pairs.remove(&4);
    assert_eq!(boundaries(&valid_ranges(&outboard).unwrap()), vec![0, 8]);
    let valid = valid_file_ranges(&outboard, Mem(data)).unwrap();
    assert_eq!(boundaries(&valid), vec![0, 4, 6, 8]);
}

#[test]
fn short_file_is_an_error() {
    let data = make_data(8192);
    let outboard = outboard_of(&data, 0);
    let r = valid_file_ranges(&outboard, Mem(data[..8000].to_vec()));
    assert!(r.is_err());
}

#[test]
fn failing_outboard_is_an_error() {
    let data = make_data(8192);
    let mut outboard = outboard_of(&data, 0);
    outboard.broken.push(6);
    assert!(valid_ranges(&outboard).is_err());
    assert!(valid_file_ranges(&outboard, Mem(data)).is_err());
}

#[test]
fn decoded_chunks_are_valid_and_can_be_served() {
    let data = make_data(10_000);
    let full = outboard_of(&data, 0);
    for (from, to) in [(0u64, 1u64), (2, 5), (7, 9), (0, 9)] {
        let query = RangeSet2::from(from..to);
        let mut encoded = Vec::new();
        encode_ranges_validated(Mem(data.clone()), &full, query.as_ref(), &mut encoded).unwrap();
        let mut part = MemOutboard {
            root: full.root,
            tree: BaoTree::new(ByteNum(0), BlockSize(0)),
            pairs: HashMap::new(),
            broken: Vec::new(),
        };
        let mut target = Mem(vec![0; 10_000]);
        let mut input: &[u8] = &encoded;
        decode_response_into(query.as_ref(), &mut input, &mut part, &mut target).unwrap();
        let valid = valid_file_ranges(&part, Mem(target.0.clone())).unwrap();
        assert_eq!(boundaries(&valid), vec![from, to]);
        let mut again = Vec::new();
        encode_ranges_validated(Mem(target.0), &part, query.as_ref(), &mut again).unwrap();
        assert_eq!(again, encoded);
    }
}

#[test]
fn sets_of_chunks_grow() {
    let mut ranges = ChunkRanges::empty();
    assert!(boundaries(&ranges).is_empty());
    ranges.insert(ChunkNum(5), ChunkNum(5));
    assert!(boundaries(&ranges).is_empty());
    ranges.insert(ChunkNum(5), ChunkNum(7));
    ranges.insert(ChunkNum(1), ChunkNum(2));
    assert_eq!(boundaries(&ranges), vec![1, 2, 5, 7]);
    ranges.insert(ChunkNum(2), ChunkNum(6));
    assert_eq!(boundaries(&ranges), vec![1, 7]);
}

#[test]
fn canonical_queries() {
    let all = RangeSet2::from(0u64..);
    let none = RangeSet2::<u64>::empty();
    let some = RangeSet2::from(1u64..3);
    assert!(range_ok(all.as_ref(), ChunkNum(0)));
    assert!(range_ok(all.as_ref(), ChunkNum(10)));
    assert!(range_ok(none.as_ref(), ChunkNum(0)));
    assert!(range_ok(some.as_ref(), ChunkNum(4)));
    assert!(!range_ok(some.as_ref(), ChunkNum(3)));
    assert!(!range_ok(some.as_ref(), ChunkNum(0)));
}

#[test]
fn ranges_are_written_where_they_are() {
    let mut to = Mem(b"..........".to_vec());
    let ranges = RangeSet2::from(1u64..3) | RangeSet2::from(6u64..7);
    write_ranges(b"abcdefgh", &mut to, ranges.as_ref()).unwrap();
    assert_eq!(to.0, b".bc...g...");
    let mut to = Mem(b"..".to_vec());
    let ranges = RangeSet2::from(0u64..1) | RangeSet2::from(5u64..);
    write_ranges(b"abcdefgh", &mut to, ranges.as_ref()).unwrap();
    assert_eq!(to.0, b"a.\0\0\0fgh");
    let mut to = Mem(b"..".to_vec());
    write_ranges(b"abcdefgh", &mut to, RangeSet2::empty().as_ref()).unwrap();
    assert_eq!(to.0, b"..");
}

#[test]
fn ranges_at_the_end_are_empty() {
    let mut to = Mem(b"..".to_vec());
    write_ranges(b"abc", &mut to, RangeSet2::from(3u64..).as_ref()).unwrap();
    assert_eq!(to.0, b"..");
}

#[test]
fn failing_writer_is_an_error() {
    let r = write_ranges(b"abc", &mut Broken, RangeSet2::from(0u64..1).as_ref());
    assert_eq!(r.unwrap_err().kind(), io::ErrorKind::BrokenPipe);
}

#[test]
fn nothing_is_written_for_no_ranges() {
    write_ranges(b"abc", &mut Broken, RangeSet2::empty().as_ref()).unwrap();
}

/// A writer with room for some bytes only.
struct Small(Vec<u8>, usize);

impl SliceWriter for Small {
    fn write_at(&mut self, offset: u64, src: &[u8]) -> io::Result<()> {
        let start = offset as usize;
        let n = std::cmp::min(src.len(), self.1.saturating_sub(start));
        self.0[start..start + n].copy_from_slice(&src[..n]);
        if n < src.len() {
            return Err(io::Error::from(io::ErrorKind::WriteZero));
        }
        Ok(())
    }
}

#[test]
fn writing_stops_at_the_first_failure() {
    let mut to = Small(b"......".to_vec(), 4);
    let ranges = RangeSet2::from(0u64..1) | RangeSet2::from(3u64..6) | RangeSet2::from(7u64..);
    let r = write_ranges(b"abcdefgh", &mut to, ranges.as_ref());
    assert_eq!(r.unwrap_err().kind(), io::ErrorKind::WriteZero);
    assert_eq!(to.0, b"a..d..");
}

#[test]
fn load_below_a_mismatch_is_never_seen() {
    let data = make_data(8192);
    let mut outboard = outboard_of(&data, 0);
    outboard.pairs.get_mut(&5).unwrap().0 .0[0] ^= 1;
    outboard.broken.push(4);
    assert_eq!(boundaries(&valid_ranges(&outboard).unwrap()), vec![0, 4]);
    let valid = valid_file_ranges(&outboard, Mem(data.clone())).unwrap();
    assert_eq!(boundaries(&valid), vec![0, 4]);
    outboard.broken.push(2);
    assert!(valid_ranges(&outboard).is_err());
    assert!(valid_file_ranges(&outboard, Mem(data)).is_err());
}
