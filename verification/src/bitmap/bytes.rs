//! Little-endian integers in byte sequences.

use vstd::prelude::*;

use crate::bitmap::bits::{byte_bit, word_bit};

verus! {

/// The 16-bit little-endian integer at `at`.
pub open spec fn le16(b: Seq<u8>, at: int) -> int {
    b[at] + 0x100 * b[at + 1]
}

/// The 32-bit little-endian integer at `at`.
pub open spec fn le32(b: Seq<u8>, at: int) -> int {
    b[at] + 0x100 * b[at + 1] + 0x1_0000 * b[at + 2] + 0x100_0000 * b[at + 3]
}

/// The 64-bit little-endian word at `at`.
pub open spec fn le64(b: Seq<u8>, at: int) -> u64 {
    (b[at] as u64) | ((b[at + 1] as u64) << 8) | ((b[at + 2] as u64) << 16) | ((b[at + 3] as u64)
        << 24) | ((b[at + 4] as u64) << 32) | ((b[at + 5] as u64) << 40) | ((b[at + 6] as u64)
        << 48) | ((b[at + 7] as u64) << 56)
}

/// Bit `k` of a little-endian word is bit `k % 8` of its byte `k / 8`.
pub proof fn lemma_le64_bit(b: Seq<u8>, at: int, k: int)
    requires
        0 <= k < 64,
    ensures
        word_bit(le64(b, at), k) <==> byte_bit(b[at + k / 8], k % 8),
{
    lemma_word_of_bytes(
        b[at],
        b[at + 1],
        b[at + 2],
        b[at + 3],
        b[at + 4],
        b[at + 5],
        b[at + 6],
        b[at + 7],
        le64(b, at),
        k as u64,
    );
    let byte = k / 8;
    assert(byte == 0 || byte == 1 || byte == 2 || byte == 3 || byte == 4 || byte == 5 || byte == 6
        || byte == 7);
}

proof fn lemma_word_of_bytes(
    b0: u8,
    b1: u8,
    b2: u8,
    b3: u8,
    b4: u8,
    b5: u8,
    b6: u8,
    b7: u8,
    w: u64,
    k: u64,
)
    by (bit_vector)
    requires
        w == (b0 as u64) | ((b1 as u64) << 8) | ((b2 as u64) << 16) | ((b3 as u64) << 24) | ((
        b4 as u64) << 32) | ((b5 as u64) << 40) | ((b6 as u64) << 48) | ((b7 as u64) << 56),
    ensures
        k < 8 ==> (((w >> k) & 1u64 == 1u64) <==> ((b0 >> ((k % 8) as u8)) & 1u8 == 1u8)),
        8 <= k < 16 ==> (((w >> k) & 1u64 == 1u64) <==> ((b1 >> ((k % 8) as u8)) & 1u8 == 1u8)),
        16 <= k < 24 ==> (((w >> k) & 1u64 == 1u64) <==> ((b2 >> ((k % 8) as u8)) & 1u8 == 1u8)),
        24 <= k < 32 ==> (((w >> k) & 1u64 == 1u64) <==> ((b3 >> ((k % 8) as u8)) & 1u8 == 1u8)),
        32 <= k < 40 ==> (((w >> k) & 1u64 == 1u64) <==> ((b4 >> ((k % 8) as u8)) & 1u8 == 1u8)),
        40 <= k < 48 ==> (((w >> k) & 1u64 == 1u64) <==> ((b5 >> ((k % 8) as u8)) & 1u8 == 1u8)),
        48 <= k < 56 ==> (((w >> k) & 1u64 == 1u64) <==> ((b6 >> ((k % 8) as u8)) & 1u8 == 1u8)),
        56 <= k < 64 ==> (((w >> k) & 1u64 == 1u64) <==> ((b7 >> ((k % 8) as u8)) & 1u8 == 1u8)),
{
}

pub(crate) fn read_u16_at(bytes: &[u8], offset: usize) -> (value: u16)
    requires
        offset + 2 <= bytes@.len(),
    ensures
        value == le16(bytes@, offset as int),
{
    bytes[offset] as u16 + 0x100 * (bytes[offset + 1] as u16)
}

pub(crate) fn read_u32_at(bytes: &[u8], offset: usize) -> (value: u32)
    requires
        offset + 4 <= bytes@.len(),
    ensures
        value == le32(bytes@, offset as int),
{
    bytes[offset] as u32 + 0x100 * (bytes[offset + 1] as u32) + 0x1_0000 * (bytes[offset
        + 2] as u32) + 0x100_0000 * (bytes[offset + 3] as u32)
}

pub(crate) fn read_u64_at(bytes: &[u8], offset: usize) -> (value: u64)
    requires
        offset + 8 <= bytes@.len(),
    ensures
        value == le64(bytes@, offset as int),
{
    (bytes[offset] as u64) | ((bytes[offset + 1] as u64) << 8) | ((bytes[offset + 2] as u64) << 16)
        | ((bytes[offset + 3] as u64) << 24) | ((bytes[offset + 4] as u64) << 32) | ((bytes[offset
        + 5] as u64) << 40) | ((bytes[offset + 6] as u64) << 48) | ((bytes[offset + 7] as u64)
        << 56)
}

} // verus!
