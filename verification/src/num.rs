//! Counts of bytes, chunks and blocks, each in a type of its own.
use vstd::arithmetic::power2::pow2;
use vstd::prelude::*;

use crate::pow;

verus! {

/// The number of bytes in a chunk, the unit that BLAKE3 hashes at a leaf.
pub const CHUNK_LEN: u64 = 1024;

/// A number of bytes, or a byte offset.
#[derive(Clone, Copy, Debug, PartialEq, Eq, Structural, PartialOrd, Ord, Hash)]
pub struct ByteNum(pub u64);

/// A number of chunks, or the number of a chunk.
#[derive(Clone, Copy, Debug, PartialEq, Eq, Structural, PartialOrd, Ord, Hash)]
pub struct ChunkNum(pub u64);

/// The size of a block, as the logarithm to base two of its number of chunks.
#[derive(Clone, Copy, Debug, PartialEq, Eq, Structural, PartialOrd, Ord, Hash)]
pub struct BlockSize(pub u8);

/// How many chunks hold `len` bytes.
pub open spec fn chunks_of(len: nat) -> nat {
    (len + 1023) / 1024
}

impl ByteNum {
    /// The number of chunks, complete or not, that hold this many bytes.
    pub fn chunks(&self) -> (r: ChunkNum)
        ensures
            r.0 == chunks_of(self.0 as nat),
            self.0 <= 1024 * r.0 < self.0 + 1024,
    {
        let part: u64 = if self.0 % 1024 == 0 {
            0
        } else {
            1
        };
        ChunkNum(self.0 / 1024 + part)
    }
}

impl ChunkNum {
    /// The offset of the first byte of this chunk.
    pub fn to_bytes(&self) -> (r: ByteNum)
        requires
            self.0 * 1024 <= u64::MAX,
        ensures
            r.0 == self.0 * 1024,
    {
        ByteNum(self.0 * 1024)
    }
}

impl BlockSize {
    /// The number of chunks in a block.
    pub open spec fn spec_chunks(self) -> nat {
        pow2(self.0 as nat)
    }

    /// The number of bytes in a block.
    pub open spec fn spec_bytes(self) -> nat {
        1024 * self.spec_chunks()
    }

    /// A block fits into memory: its length is one that a vector can have.
    pub open spec fn valid(self) -> bool {
        self.spec_bytes() <= isize::MAX
    }

    /// The number of chunks in a block.
    pub fn chunks(self) -> (r: u64)
        requires
            self.valid(),
        ensures
            r == self.spec_chunks(),
            r == pow2(self.0 as nat),
            1 <= r <= isize::MAX / 1024,
    {
        proof {
            pow::lemma_pow2_step(self.0 as nat);
        }
        pow::power_of_two(self.0)
    }

    /// The number of bytes in a block.
    pub fn bytes(self) -> (r: usize)
        requires
            self.valid(),
        ensures
            r == self.spec_bytes(),
            r == 1024 * pow2(self.0 as nat),
    {
        (self.chunks() * CHUNK_LEN) as usize
    }

    /// Whether a block of this size fits into memory.
    pub fn is_valid(self) -> (r: bool)
        ensures
            r == self.valid(),
            r == (1024 * pow2(self.0 as nat) <= isize::MAX),
    {
        let mut p: u64 = 1;
        let mut i: u8 = 0;
        proof {
            pow::lemma_pow2_step(0);
        }
        while i < self.0
            invariant
                i <= self.0,
                p == pow2(i as nat),
                1024 * p <= isize::MAX,
            decreases self.0 - i,
        {
            proof {
                pow::lemma_pow2_step(i as nat);
            }
            if p > isize::MAX as u64 / 2048 {
                proof {
                    pow::lemma_pow2_mono((i + 1) as nat, self.0 as nat);
                }
                return false;
            }
            p = p * 2;
            i = i + 1;
        }
        true
    }
}

/// The number that eight bytes denote, least significant byte first.
pub open spec fn le_value(b: Seq<u8>) -> nat {
    (b[0] + 0x100 * b[1] + 0x1_0000 * b[2] + 0x100_0000 * b[3] + 0x1_0000_0000 * b[4]
        + 0x100_0000_0000 * b[5] + 0x1_0000_0000_0000 * b[6] + 0x100_0000_0000_0000 * b[7]) as nat
}

/// The eight bytes that denote a number, least significant byte first.
pub open spec fn le_bytes(x: u64) -> Seq<u8> {
    seq![
        (x % 0x100) as u8,
        (x / 0x100 % 0x100) as u8,
        (x / 0x1_0000 % 0x100) as u8,
        (x / 0x100_0000 % 0x100) as u8,
        (x / 0x1_0000_0000 % 0x100) as u8,
        (x / 0x100_0000_0000 % 0x100) as u8,
        (x / 0x1_0000_0000_0000 % 0x100) as u8,
        (x / 0x100_0000_0000_0000) as u8,
    ]
}

/// Reading the eight bytes of a number gives the number back.
pub proof fn law_le_bytes_read_back(x: u64)
    ensures
        le_bytes(x).len() == 8,
        le_value(le_bytes(x)) == x,
{
    lemma_quotients(x);
}

/// Writing the number that eight bytes denote gives the bytes back.
pub proof fn law_le_value_written_back(b: Seq<u8>)
    requires
        b.len() == 8,
    ensures
        le_value(b) <= u64::MAX,
        le_bytes(le_value(b) as u64) == b,
{
    let w7 = b[7] as int;
    let w6 = b[6] + 0x100 * w7;
    let w5 = b[5] + 0x100 * w6;
    let w4 = b[4] + 0x100 * w5;
    let w3 = b[3] + 0x100 * w4;
    let w2 = b[2] + 0x100 * w3;
    let w1 = b[1] + 0x100 * w2;
    let v = b[0] + 0x100 * w1;
    assert(v == le_value(b));
    let x = v as u64;
    lemma_quotients(x);
    assert(x / 0x100 == w1);
    assert(x / 0x1_0000 == w2);
    assert(x / 0x100_0000 == w3);
    assert(x / 0x1_0000_0000 == w4);
    assert(x / 0x100_0000_0000 == w5);
    assert(x / 0x1_0000_0000_0000 == w6);
    assert(x / 0x100_0000_0000_0000 == w7);
    assert(le_bytes(x) =~= b);
}

/// Each quotient by a power of 256 is the previous one divided by 256.
proof fn lemma_quotients(x: u64)
    ensures
        x / 0x1_0000 == x / 0x100 / 0x100,
        x / 0x100_0000 == x / 0x1_0000 / 0x100,
        x / 0x1_0000_0000 == x / 0x100_0000 / 0x100,
        x / 0x100_0000_0000 == x / 0x1_0000_0000 / 0x100,
        x / 0x1_0000_0000_0000 == x / 0x100_0000_0000 / 0x100,
        x / 0x100_0000_0000_0000 == x / 0x1_0000_0000_0000 / 0x100,
        x / 0x100_0000_0000_0000 < 0x100,
{
    vstd::arithmetic::div_mod::lemma_div_denominator(x as int, 0x100, 0x100);
    vstd::arithmetic::div_mod::lemma_div_denominator(x as int, 0x1_0000, 0x100);
    vstd::arithmetic::div_mod::lemma_div_denominator(x as int, 0x100_0000, 0x100);
    vstd::arithmetic::div_mod::lemma_div_denominator(x as int, 0x1_0000_0000, 0x100);
    vstd::arithmetic::div_mod::lemma_div_denominator(x as int, 0x100_0000_0000, 0x100);
    vstd::arithmetic::div_mod::lemma_div_denominator(x as int, 0x1_0000_0000_0000, 0x100);
}

/// The number that the first eight bytes of a slice denote.
pub(crate) fn u64_from_le(b: &[u8]) -> (r: u64)
    requires
        b@.len() >= 8,
    ensures
        r == le_value(b@),
{
    b[0] as u64 + 0x100 * b[1] as u64 + 0x1_0000 * b[2] as u64 + 0x100_0000 * b[3] as u64
        + 0x1_0000_0000 * b[4] as u64 + 0x100_0000_0000 * b[5] as u64 + 0x1_0000_0000_0000
        * b[6] as u64 + 0x100_0000_0000_0000 * b[7] as u64
}

/// Appends the eight bytes of a number.
pub(crate) fn push_u64_le(out: &mut Vec<u8>, x: u64)
    ensures
        final(out)@ == old(out)@ + le_bytes(x),
{
    let ghost before = out@;
    out.push((x % 0x100) as u8);
    out.push((x / 0x100 % 0x100) as u8);
    out.push((x / 0x1_0000 % 0x100) as u8);
    out.push((x / 0x100_0000 % 0x100) as u8);
    out.push((x / 0x1_0000_0000 % 0x100) as u8);
    out.push((x / 0x100_0000_0000 % 0x100) as u8);
    out.push((x / 0x1_0000_0000_0000 % 0x100) as u8);
    out.push((x / 0x100_0000_0000_0000) as u8);
    assert(out@ =~= before + le_bytes(x));
}

} // verus!
