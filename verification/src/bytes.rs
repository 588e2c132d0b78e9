//! Little-endian integers in byte strings.

use vstd::prelude::*;

verus! {

/// The little-endian 32-bit value of the four bytes from `at` on.
pub open spec fn le32(bytes: Seq<u8>, at: int) -> nat {
    (bytes[at] + 0x100 * bytes[at + 1] + 0x1_0000 * bytes[at + 2] + 0x100_0000 * bytes[at + 3]) as nat
}

/// The little-endian 64-bit value of the eight bytes from `at` on.
pub open spec fn le64(bytes: Seq<u8>, at: int) -> nat {
    le32(bytes, at) + 0x1_0000_0000 * le32(bytes, at + 4)
}

/// The value of a 32-bit pattern read as a two's complement number.
pub open spec fn signed32(pattern: nat) -> int {
    if pattern < 0x8000_0000 {
        pattern as int
    } else {
        pattern - 0x1_0000_0000
    }
}

/// The value of an 8-bit pattern read as a two's complement number.
pub open spec fn signed8(pattern: u8) -> i8 {
    if pattern < 0x80 {
        pattern as i8
    } else {
        (pattern - 0x100) as i8
    }
}

/// Reads four bytes as a little-endian number.
pub fn word32(bytes: &[u8], at: usize) -> (value: u32)
    requires
        at + 4 <= bytes@.len(),
    ensures
        value as nat == le32(bytes@, at as int),
{
    let low: u32 = bytes[at] as u32 + 0x100 * (bytes[at + 1] as u32);
    let high: u32 = bytes[at + 2] as u32 + 0x100 * (bytes[at + 3] as u32);
    low + 0x1_0000 * high
}

/// Reads eight bytes as a little-endian number.
pub fn word64(bytes: &[u8], at: usize) -> (value: u64)
    requires
        at + 8 <= bytes@.len(),
    ensures
        value as nat == le64(bytes@, at as int),
{
    assert(bytes.len() == bytes@.len());
    let low: u64 = word32(bytes, at) as u64;
    let high: u64 = word32(bytes, at + 4) as u64;
    low + 0x1_0000_0000 * high
}

/// Reads a 32-bit pattern as a two's complement number.
pub fn to_signed32(pattern: u32) -> (value: i32)
    ensures
        value as int == signed32(pattern as nat),
{
    if pattern < 0x8000_0000 {
        pattern as i32
    } else {
        (pattern as i64 - 0x1_0000_0000i64) as i32
    }
}

/// Reads an 8-bit pattern as a two's complement number.
pub fn to_signed8(pattern: u8) -> (value: i8)
    ensures
        value == signed8(pattern),
{
    if pattern < 0x80 {
        pattern as i8
    } else {
        (pattern as i16 - 0x100) as i8
    }
}

/// A part of a byte string has the numbers that stand there in the whole.
pub proof fn parts_keep_numbers(bytes: Seq<u8>, start: int, end: int, at: int)
    requires
        0 <= start <= end <= bytes.len(),
        0 <= at,
    ensures
        at + 4 <= end - start ==> le32(bytes.subrange(start, end), at) == le32(bytes, start + at),
        at + 8 <= end - start ==> le64(bytes.subrange(start, end), at) == le64(bytes, start + at),
{
}

/// Compares two byte strings.
pub(crate) fn same_bytes(left: &[u8], right: &[u8]) -> (same: bool)
    ensures
        same == (left@ == right@),
{
    if left.len() != right.len() {
        return false;
    }
    let mut index: usize = 0;
    while index < left.len()
        invariant
            index <= left@.len(),
            left@.len() == right@.len(),
            left@.take(index as int) == right@.take(index as int),
        decreases left@.len() - index,
    {
        if left[index] != right[index] {
            return false;
        }
        index = index + 1;
    }
    proof {
        assert(left@.take(index as int) == left@);
        assert(right@.take(index as int) == right@);
    }
    true
}

/// The byte at a position counts 256 times as much as the byte before it.
pub proof fn later_bytes_count_more(bytes: Seq<u8>, at: int)
    ensures
        le32(bytes, at) == bytes[at] + 256 * (bytes[at + 1] + 256 * (bytes[at + 2] + 256
            * bytes[at + 3])),
        le64(bytes, at) == bytes[at] + 256 * (bytes[at + 1] + 256 * (bytes[at + 2] + 256 * (bytes[at
            + 3] + 256 * (bytes[at + 4] + 256 * (bytes[at + 5] + 256 * (bytes[at + 6] + 256
            * bytes[at + 7])))))),
{
}

/// A signed number has the pattern that it is read from: it is congruent to it
/// and in range.
pub proof fn signed_numbers_keep_patterns(pattern: nat, byte: u8)
    ensures
        pattern < 0x1_0000_0000 ==> -0x8000_0000 <= signed32(pattern) < 0x8000_0000,
        (pattern - signed32(pattern)) % 0x1_0000_0000 == 0,
        (byte - signed8(byte)) % 256 == 0,
{
}

} // verus!
