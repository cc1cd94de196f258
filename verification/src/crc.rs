//! The checksum that every record carries.

use vstd::prelude::*;

verus! {

/// The remainder after one more bit: division by the CRC-32 polynomial, lowest bit first.
pub open spec fn crc_bit(c: u32) -> u32 {
    if c & 1 == 1 {
        (c >> 1) ^ 0xedb8_8320
    } else {
        c >> 1
    }
}

/// The remainder after one more byte.
pub open spec fn crc_byte(c: u32, b: u8) -> u32 {
    crc_bit(crc_bit(crc_bit(crc_bit(crc_bit(crc_bit(crc_bit(crc_bit(c ^ (b as u32)))))))))
}

/// The remainder after these bytes, from `c` on.
pub open spec fn crc_bytes(c: u32, bytes: Seq<u8>) -> u32
    decreases bytes.len(),
{
    if bytes.len() == 0 {
        c
    } else {
        crc_byte(crc_bytes(c, bytes.drop_last()), bytes.last())
    }
}

/// The CRC-32 (IEEE) of a byte sequence.
#[verifier::opaque]
pub open spec fn crc32(bytes: Seq<u8>) -> u32 {
    crc_bytes(0xffff_ffff, bytes) ^ 0xffff_ffff
}

/// Calls `crc32fast::hash`, which computes the CRC-32 (IEEE) checksum of the whole
/// buffer: the reflected polynomial, all bits set at the start, and all bits turned at
/// the end.
#[verifier::external_body]
pub(crate) fn checksum(bytes: &[u8]) -> (sum: u32)
    ensures
        sum == crc32(bytes@),
{
    crc32fast::hash(bytes)
}

/// One more byte that is zero.
proof fn lemma_zero_byte(bytes: Seq<u8>, n: int, before: u32, after: u32)
    requires
        0 < n <= bytes.len(),
        bytes[n - 1] == 0,
        crc_bytes(0xffff_ffff, bytes.take(n - 1)) == before,
        crc_byte(before, 0) == after,
    ensures
        crc_bytes(0xffff_ffff, bytes.take(n)) == after,
{
    assert(bytes.take(n).drop_last() =~= bytes.take(n - 1));
}

/// The checksum of eight zeros is not zero.
pub proof fn lemma_crc_of_zeros(bytes: Seq<u8>)
    requires
        bytes.len() == 8,
        forall|i: int| 0 <= i < 8 ==> #[trigger] bytes[i] == 0,
    ensures
        crc32(bytes) != 0,
{
    reveal(crc32);
    assert(bytes.take(0) =~= Seq::empty());
    assert(crc_byte(0xffff_ffffu32, 0u8) == 0x2dfd_1072) by (bit_vector);
    lemma_zero_byte(bytes, 1, 0xffff_ffff, 0x2dfd_1072);
    assert(crc_byte(0x2dfd_1072u32, 0u8) == 0xbe26_ed00) by (bit_vector);
    lemma_zero_byte(bytes, 2, 0x2dfd_1072, 0xbe26_ed00);
    assert(crc_byte(0xbe26_ed00u32, 0u8) == 0x00be_26ed) by (bit_vector);
    lemma_zero_byte(bytes, 3, 0xbe26_ed00, 0x00be_26ed);
    assert(crc_byte(0x00be_26edu32, 0u8) == 0xdebb_20e3) by (bit_vector);
    lemma_zero_byte(bytes, 4, 0x00be_26ed, 0xdebb_20e3);
    assert(crc_byte(0xdebb_20e3u32, 0u8) == 0x39dd_08e2) by (bit_vector);
    lemma_zero_byte(bytes, 5, 0xdebb_20e3, 0x39dd_08e2);
    assert(crc_byte(0x39dd_08e2u32, 0u8) == 0x4e3d_5e5c) by (bit_vector);
    lemma_zero_byte(bytes, 6, 0x39dd_08e2, 0x4e3d_5e5c);
    assert(crc_byte(0x4e3d_5e5cu32, 0u8) == 0x6293_2081) by (bit_vector);
    lemma_zero_byte(bytes, 7, 0x4e3d_5e5c, 0x6293_2081);
    assert(crc_byte(0x6293_2081u32, 0u8) == 0x9add_2096) by (bit_vector);
    lemma_zero_byte(bytes, 8, 0x6293_2081, 0x9add_2096);
    assert(bytes.take(8) =~= bytes);
    assert(0x9add_2096u32 ^ 0xffff_ffff != 0) by (bit_vector);
}

} // verus!
