//! Root hashes and outboards.
use bao_sync::hash::{blake3_hash_inner, hash_block, hash_chunk, Digest, HashStack};
use bao_sync::iter::BaoChunk;
use bao_sync::node::{LeafNode, TreeNode};
use bao_sync::num::{BlockSize, ByteNum, ChunkNum};
use bao_sync::outboard::{outboard_post_order, outboard_post_order_impl, post_order_step};
use bao_sync::tree::BaoTree;

const SIZES: [usize; 18] = [
    0, 1, 63, 1023, 1024, 1025, 2047, 2048, 2049, 3072, 4096, 5000, 7168, 10000, 16384, 16385,
    31744, 100_000,
];

fn make_data(n: usize) -> Vec<u8> {
    (0..n).map(|i| (i / 1024) as u8 ^ (i % 251) as u8).collect()
}

fn root_of(data: &[u8], block_size: u8) -> (Digest, Vec<u8>) {
    let mut input: &[u8] = data;
    let mut outboard = Vec::new();
    let root = outboard_post_order(
        &mut input,
        data.len() as u64,
        BlockSize(block_size),
        &mut outboard,
    )
    .unwrap();
    assert!(input.is_empty());
    (root, outboard)
}

fn chunk_cv(chunk: u64, data: &[u8], is_root: bool) -> blake3::Hash {
    blake3::guts::ChunkState::new(chunk).update(data).finalize(is_root)
}

#[test]
fn root_is_the_blake3_hash_for_every_block_size() {
    for size in SIZES {
        let data = make_data(size);
        let expected = blake3::hash(&data);
        for block_size in 0..6 {
            let (root, _) = root_of(&data, block_size);
            assert_eq!(root.as_bytes(), expected.as_bytes());
        }
    }
}

#[test]
fn root_of_nothing_is_the_published_value() {
    let (root, outboard) = root_of(&[], 0);
    let expected: [u8; 32] = [
        0xaf, 0x13, 0x49, 0xb9, 0xf5, 0xf9, 0xa1, 0xa6, 0xa0, 0x40, 0x4d, 0xea, 0x36, 0xdc, 0xc9,
        0x49, 0x9b, 0xcb, 0x25, 0xc9, 0xad, 0xc1, 0x12, 0xb7, 0xcc, 0x9a, 0x93, 0xca, 0xe4, 0x1f,
        0x32, 0x62,
    ];
    assert_eq!(root.0, expected);
    assert_eq!(outboard, vec![0u8; 8]);
}

#[test]
fn outboard_has_a_pair_less_than_blocks_and_the_size() {
    for size in SIZES {
        let data = make_data(size);
        for block_size in 0..4u8 {
            let block = 1024usize << block_size;
            let blocks = std::cmp::max(1, (size + block - 1) / block);
            let (_, outboard) = root_of(&data, block_size);
            assert_eq!(outboard.len(), 64 * (blocks - 1) + 8);
            assert_eq!(outboard[outboard.len() - 8..], (size as u64).to_le_bytes());
        }
    }
}

#[test]
fn outboard_of_three_chunks_is_in_post_order() {
    let data = make_data(3000);
    let c0 = chunk_cv(0, &data[..1024], false);
    let c1 = chunk_cv(1, &data[1024..2048], false);
    let c2 = chunk_cv(2, &data[2048..], false);
    let left = blake3::guts::parent_cv(&c0, &c1, false);
    let mut expected = Vec::new();
    expected.extend_from_slice(c0.as_bytes());
    expected.extend_from_slice(c1.as_bytes());
    expected.extend_from_slice(left.as_bytes());
    expected.extend_from_slice(c2.as_bytes());
    expected.extend_from_slice(&3000u64.to_le_bytes());
    let (root, outboard) = root_of(&data, 0);
    assert_eq!(outboard, expected);
    let expected_root = blake3::guts::parent_cv(&left, &c2, true);
    assert_eq!(&root.0, expected_root.as_bytes());
}

#[test]
fn outboard_is_appended_and_input_behind_it_is_left() {
    let data = make_data(2050);
    let mut input: &[u8] = &data;
    let mut outboard = vec![7u8, 8];
    outboard_post_order(&mut input, 2048, BlockSize(0), &mut outboard).unwrap();
    assert_eq!(input, &data[2048..]);
    assert_eq!(outboard.len(), 2 + 64 + 8);
    assert_eq!(outboard[..2], [7, 8]);
}

#[test]
fn short_input_is_an_error_with_the_pairs_before_it() {
    let data = make_data(3000);
    let mut input: &[u8] = &data[..2500];
    let mut outboard = Vec::new();
    let r = outboard_post_order(&mut input, 3000, BlockSize(0), &mut outboard);
    assert_eq!(r.unwrap_err().kind(), std::io::ErrorKind::UnexpectedEof);
    let mut expected = Vec::new();
    expected.extend_from_slice(chunk_cv(0, &data[..1024], false).as_bytes());
    expected.extend_from_slice(chunk_cv(1, &data[1024..2048], false).as_bytes());
    assert_eq!(outboard, expected);
}

#[test]
fn part_of_a_blob_is_hashed_from_its_start_chunk() {
    let data = make_data(2048);
    let tree = BaoTree::new_with_start_chunk(ByteNum(2048), BlockSize(1), ChunkNum(6));
    let mut input: &[u8] = &data;
    let mut outboard = Vec::new();
    let r = outboard_post_order_impl(tree, &mut input, &mut outboard).unwrap();
    let l = chunk_cv(6, &data[..1024], false);
    let r2 = chunk_cv(7, &data[1024..], false);
    assert_eq!(&r.0, blake3::guts::parent_cv(&l, &r2, true).as_bytes());
    assert!(outboard.is_empty());
}

#[test]
fn hash_of_a_part_is_not_a_root_hash() {
    let data = make_data(2500);
    let c0 = chunk_cv(4, &data[..1024], false);
    let c1 = chunk_cv(5, &data[1024..2048], false);
    let c2 = chunk_cv(6, &data[2048..], false);
    let left = blake3::guts::parent_cv(&c0, &c1, false);
    let part = blake3::guts::parent_cv(&left, &c2, false);
    assert_eq!(&hash_block(ChunkNum(4), &data, false).0, part.as_bytes());
    let mut input: &[u8] = &data;
    let r = blake3_hash_inner(&mut input, ByteNum(2048), ChunkNum(4), false).unwrap();
    assert_eq!(&r.0, left.as_bytes());
    assert_eq!(input, &data[2048..]);
    let whole = hash_block(ChunkNum(0), &data, true);
    assert_eq!(&whole.0, blake3::hash(&data).as_bytes());
}

#[test]
fn hash_of_short_input_is_an_error() {
    let data = make_data(100);
    let mut input: &[u8] = &data;
    let r = blake3_hash_inner(&mut input, ByteNum(101), ChunkNum(0), true);
    assert_eq!(r.unwrap_err().kind(), std::io::ErrorKind::UnexpectedEof);
}

#[test]
fn hash_of_a_chunk_depends_on_number_and_root_flag() {
    let data = make_data(1000);
    for (chunk, is_root) in [(0u64, false), (0, true), (1, false), (77, false)] {
        let actual = hash_chunk(ChunkNum(chunk), &data, is_root);
        assert_eq!(&actual.0, chunk_cv(chunk, &data, is_root).as_bytes());
    }
    let a = hash_chunk(ChunkNum(0), &data, false);
    let b = hash_chunk(ChunkNum(1), &data, false);
    let c = hash_chunk(ChunkNum(0), &data, true);
    assert!(!a.same(&b));
    assert!(!a.same(&c));
    assert!(a.same(&hash_chunk(ChunkNum(0), &data, false)));
}

#[test]
fn steps_can_be_taken_one_at_a_time() {
    let data = make_data(5000);
    let tree = BaoTree::new(ByteNum(5000), BlockSize(0));
    let mut stack = HashStack::new();
    let mut outboard = Vec::new();
    let mut iter = tree.post_order_chunks_iter();
    while let Some(item) = iter.next() {
        let block: &[u8] = match item {
            BaoChunk::Leaf { start_chunk, size, .. } => {
                let s = start_chunk.to_bytes().0 as usize;
                &data[s..s + size]
            }
            BaoChunk::Parent { .. } => &[],
        };
        post_order_step(&mut stack, item, block, &mut outboard);
    }
    let root = stack.pop().unwrap();
    assert!(stack.is_empty());
    assert!(stack.pop().is_none());
    assert_eq!(&root.0, blake3::hash(&data).as_bytes());
    let (_, expected) = root_of(&data, 0);
    assert_eq!(outboard, expected[..expected.len() - 8]);
}

#[test]
fn stack_gives_back_the_last_hash_first() {
    let mut stack = HashStack::new();
    assert!(stack.is_empty());
    for i in 0..20u8 {
        stack.push(Digest([i; 32]));
        assert!(!stack.is_empty());
    }
    for i in (0..20u8).rev() {
        assert_eq!(stack.pop().unwrap().0, [i; 32]);
    }
    assert!(stack.pop().is_none());
}

#[test]
fn tree_of_five_blocks() {
    let tree = BaoTree::new(ByteNum(4097), BlockSize(0));
    assert_eq!(tree.blocks(), 5);
    assert_eq!(tree.chunks(), ChunkNum(5));
    assert_eq!(tree.filled_size(), TreeNode(5));
    assert_eq!(tree.root(), TreeNode(3));
    assert_eq!(tree.root().left_child(), Some(TreeNode(1)));
    assert_eq!(tree.root().right_child(), Some(TreeNode(5)));
    assert_eq!(tree.root().right_descendant(tree.filled_size()), Some(TreeNode(4)));
    assert_eq!(TreeNode(4).as_leaf(), Some(LeafNode(4)));
    assert_eq!(TreeNode(1).as_leaf(), None);
    assert_eq!(TreeNode(4).left_child(), None);
    assert_eq!(
        tree.leaf_byte_ranges3(LeafNode(2)),
        (ByteNum(2048), ByteNum(3072), ByteNum(4096))
    );
    assert_eq!(
        tree.leaf_byte_ranges3(LeafNode(4)),
        (ByteNum(4096), ByteNum(4097), ByteNum(4097))
    );
    assert_eq!(tree.chunk_num(LeafNode(4)), ChunkNum(4));
}

#[test]
fn tree_with_larger_blocks() {
    let tree = BaoTree::new(ByteNum(100_000), BlockSize(2));
    assert_eq!(tree.chunk_group_chunks(), ChunkNum(4));
    assert_eq!(tree.chunk_group_bytes(), ByteNum(4096));
    assert_eq!(tree.blocks(), 25);
    assert_eq!(tree.chunks(), ChunkNum(98));
    assert_eq!(tree.root(), TreeNode(15));
    assert_eq!(tree.chunk_num(LeafNode(24)), ChunkNum(96));
}

#[test]
fn numbers_convert() {
    assert_eq!(ByteNum(0).chunks(), ChunkNum(0));
    assert_eq!(ByteNum(1).chunks(), ChunkNum(1));
    assert_eq!(ByteNum(1024).chunks(), ChunkNum(1));
    assert_eq!(ByteNum(1025).chunks(), ChunkNum(2));
    assert_eq!(ByteNum(u64::MAX).chunks(), ChunkNum(1 << 54));
    assert_eq!(ChunkNum(3).to_bytes(), ByteNum(3072));
    assert_eq!(BlockSize(4).bytes(), 16384);
    assert_eq!(BlockSize(4).chunks(), 16);
    assert!(BlockSize(0).is_valid());
    assert!(!BlockSize(64).is_valid());
    assert!(!BlockSize(255).is_valid());
}
