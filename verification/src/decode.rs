//! Little-endian integer decoding for values read out of the player's
//! process memory.

use vstd::prelude::*;

verus! {

/// The unsigned value of `count` little-endian bytes starting at `i`.
pub open spec fn le_value(bytes: Seq<u8>, i: int, count: int) -> int
    decreases count,
{
    if count <= 0 {
        0
    } else {
        bytes[i] + 256 * le_value(bytes, i + 1, count - 1)
    }
}

/// Two hundred fifty-six to the power of `count`.
pub open spec fn byte_radix(count: int) -> int
    decreases count,
{
    if count <= 0 {
        1
    } else {
        256 * byte_radix(count - 1)
    }
}

/// A little-endian value of `count` bytes is nonnegative and below the
/// byte radix to the power of `count`.
pub proof fn lemma_le_value_bound(bytes: Seq<u8>, i: int, count: int)
    requires
        0 <= i,
        i + count <= bytes.len(),
    ensures
        0 <= le_value(bytes, i, count) < byte_radix(count),
    decreases count,
{
    if count > 0 {
        lemma_le_value_bound(bytes, i + 1, count - 1);
        let rest = le_value(bytes, i + 1, count - 1);
        let bound = byte_radix(count - 1);
        assert(bytes[i] + 256 * rest < 256 * bound) by (nonlinear_arith)
            requires
                bytes[i] < 256,
                0 <= rest,
                rest < bound,
        ;
    }
}

/// Reads a little-endian thirty-two bit integer from the first four
/// bytes.
pub fn le_u32(bytes: &Vec<u8>) -> (r: u32)
    requires
        bytes@.len() >= 4,
    ensures
        r == le_value(bytes@, 0, 4),
{
    let b0: u32 = bytes[0] as u32;
    let b1: u32 = bytes[1] as u32;
    let b2: u32 = bytes[2] as u32;
    let b3: u32 = bytes[3] as u32;
    proof {
        assert(le_value(bytes@, 4, 0) == 0);
        assert(le_value(bytes@, 3, 1) == bytes@[3]);
        assert(le_value(bytes@, 2, 2) == bytes@[2] + 256 * le_value(bytes@, 3, 1));
        assert(le_value(bytes@, 1, 3) == bytes@[1] + 256 * le_value(bytes@, 2, 2));
        assert(le_value(bytes@, 0, 4) == bytes@[0] + 256 * le_value(bytes@, 1, 3));
    }
    b0 + 256 * b1 + 65536 * b2 + 16777216 * b3
}

/// Reads a little-endian sixty-four bit integer from the first eight
/// bytes.
pub fn le_u64(bytes: &Vec<u8>) -> (r: u64)
    requires
        bytes@.len() >= 8,
    ensures
        r == le_value(bytes@, 0, 8),
{
    let mut value: u64 = 0;
    let mut i: usize = 8;
    while i > 0
        invariant
            bytes@.len() >= 8,
            0 <= i <= 8,
            value == le_value(bytes@, i as int, 8 - i as int),
        decreases i,
    {
        proof {
            lemma_le_value_bound(bytes@, i as int, 8 - i as int);
            assert(byte_radix(0) == 1);
            assert(byte_radix(1) == 256);
            assert(byte_radix(2) == 65536);
            assert(byte_radix(3) == 0x100_0000);
            assert(byte_radix(4) == 0x1_0000_0000);
            assert(byte_radix(5) == 0x100_0000_0000);
            assert(byte_radix(6) == 0x1_0000_0000_0000);
            assert(byte_radix(7) == 0x100_0000_0000_0000);
            assert(le_value(bytes@, i as int - 1, 8 - (i as int - 1)) == bytes@[i as int - 1] + 256
                * le_value(bytes@, i as int, 8 - i as int));
        }
        i -= 1;
        value = 256 * value + bytes[i] as u64;
    }
    value
}

} // verus!
