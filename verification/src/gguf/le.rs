//! Little-endian numbers.

use vstd::prelude::*;

verus! {

/// The number that the bytes denote, least significant byte first.
pub open spec fn le_value(bytes: Seq<u8>) -> nat
    decreases bytes.len(),
{
    if bytes.len() == 0 {
        0
    } else {
        bytes[0] as nat + 256 * le_value(bytes.skip(1))
    }
}

proof fn lemma_le_step(bytes: Seq<u8>, i: int)
    requires
        0 <= i < bytes.len(),
    ensures
        le_value(bytes.skip(i)) == bytes[i] as nat + 256 * le_value(bytes.skip(i + 1)),
{
    assert(bytes.skip(i).skip(1) =~= bytes.skip(i + 1));
}

/// The two bytes as a number.
pub fn le_u16(bytes: &[u8]) -> (r: u16)
    requires
        bytes@.len() == 2,
    ensures
        r == le_value(bytes@),
{
    proof {
        assert(bytes@.skip(0) =~= bytes@);
        lemma_le_step(bytes@, 0);
        lemma_le_step(bytes@, 1);
        assert(le_value(bytes@.skip(2)) == 0);
    }
    bytes[0] as u16 + 256 * (bytes[1] as u16)
}

/// The four bytes as a number.
pub fn le_u32(bytes: &[u8]) -> (r: u32)
    requires
        bytes@.len() == 4,
    ensures
        r == le_value(bytes@),
{
    proof {
        assert(bytes@.skip(0) =~= bytes@);
        lemma_le_step(bytes@, 0);
        lemma_le_step(bytes@, 1);
        lemma_le_step(bytes@, 2);
        lemma_le_step(bytes@, 3);
        assert(le_value(bytes@.skip(4)) == 0);
    }
    bytes[0] as u32 + 256 * (bytes[1] as u32 + 256 * (bytes[2] as u32 + 256 * (bytes[3] as u32)))
}

/// The eight bytes as a number.
pub fn le_u64(bytes: &[u8]) -> (r: u64)
    requires
        bytes@.len() == 8,
    ensures
        r == le_value(bytes@),
{
    proof {
        assert(bytes@.skip(0) =~= bytes@);
        lemma_le_step(bytes@, 0);
        lemma_le_step(bytes@, 1);
        lemma_le_step(bytes@, 2);
        lemma_le_step(bytes@, 3);
        lemma_le_step(bytes@, 4);
        lemma_le_step(bytes@, 5);
        lemma_le_step(bytes@, 6);
        lemma_le_step(bytes@, 7);
        assert(le_value(bytes@.skip(8)) == 0);
    }
    let high: u64 = bytes[4] as u64 + 256 * (bytes[5] as u64 + 256 * (bytes[6] as u64 + 256 * (
    bytes[7] as u64)));
    bytes[0] as u64 + 256 * (bytes[1] as u64 + 256 * (bytes[2] as u64 + 256 * (bytes[3] as u64 + 256
        * high)))
}

/// `n` bytes denote a number below `256^n`.
pub proof fn lemma_le_value_bound(bytes: Seq<u8>)
    ensures
        bytes.len() == 1 ==> le_value(bytes) == bytes[0],
        bytes.len() == 2 ==> le_value(bytes) <= u16::MAX,
        bytes.len() == 4 ==> le_value(bytes) <= u32::MAX,
        bytes.len() == 8 ==> le_value(bytes) <= u64::MAX,
{
    assert(bytes.skip(0) =~= bytes);
    if bytes.len() >= 1 {
        lemma_le_step(bytes, 0);
    }
    if bytes.len() >= 2 {
        lemma_le_step(bytes, 1);
    }
    if bytes.len() >= 4 {
        lemma_le_step(bytes, 2);
        lemma_le_step(bytes, 3);
    }
    if bytes.len() >= 8 {
        lemma_le_step(bytes, 4);
        lemma_le_step(bytes, 5);
        lemma_le_step(bytes, 6);
        lemma_le_step(bytes, 7);
    }
    assert(le_value(bytes.skip(bytes.len() as int)) == 0);
}

/// The number in eight bytes, byte by byte.
pub proof fn lemma_eight_bytes(b: Seq<u8>)
    requires
        b.len() == 8,
    ensures
        le_value(b) == b[0] + 0x100 * b[1] + 0x1_0000 * b[2] + 0x100_0000 * b[3] + 0x1_0000_0000
            * b[4] + 0x100_0000_0000 * b[5] + 0x1_0000_0000_0000 * b[6] + 0x100_0000_0000_0000
            * b[7],
{
    assert(b.skip(0) =~= b);
    lemma_le_step(b, 0);
    lemma_le_step(b, 1);
    lemma_le_step(b, 2);
    lemma_le_step(b, 3);
    lemma_le_step(b, 4);
    lemma_le_step(b, 5);
    lemma_le_step(b, 6);
    lemma_le_step(b, 7);
    assert(le_value(b.skip(8)) == 0);
}

/// The value of two bytes.
pub proof fn lemma_two_bytes(b: Seq<u8>)
    requires
        b.len() == 2,
    ensures
        le_value(b) == b[0] + 0x100 * b[1],
{
    assert(b.skip(0) =~= b);
    lemma_le_step(b, 0);
    lemma_le_step(b, 1);
    assert(le_value(b.skip(2)) == 0);
}

/// The value of four bytes.
pub proof fn lemma_four_bytes(b: Seq<u8>)
    requires
        b.len() == 4,
    ensures
        le_value(b) == b[0] + 0x100 * b[1] + 0x1_0000 * b[2] + 0x100_0000 * b[3],
{
    assert(b.skip(0) =~= b);
    lemma_le_step(b, 0);
    lemma_le_step(b, 1);
    lemma_le_step(b, 2);
    lemma_le_step(b, 3);
    assert(le_value(b.skip(4)) == 0);
}

} // verus!
