//! Big-endian integers inside a page.

use vstd::prelude::*;

verus! {

/// The number whose big-endian form is the four bytes of `b` that start at `at`.
pub open spec fn be32(b: Seq<u8>, at: int) -> u32 {
    (b[at] as int * 0x100_0000 + b[at + 1] as int * 0x1_0000 + b[at + 2] as int * 0x100 + b[at
        + 3] as int) as u32
}

/// The big-endian form of `x`, four bytes.
pub open spec fn be32_bytes(x: u32) -> Seq<u8> {
    seq![
        (x / 0x100_0000) as u8,
        (x / 0x1_0000 % 0x100) as u8,
        (x / 0x100 % 0x100) as u8,
        (x % 0x100) as u8,
    ]
}

/// The number whose big-endian form is the eight bytes of `b` that start at `at`.
pub open spec fn be64(b: Seq<u8>, at: int) -> u64 {
    (be32(b, at) as int * 0x1_0000_0000 + be32(b, at + 4) as int) as u64
}

/// The big-endian form of `x`, eight bytes.
pub open spec fn be64_bytes(x: u64) -> Seq<u8> {
    be32_bytes((x / 0x1_0000_0000) as u32) + be32_bytes((x % 0x1_0000_0000) as u32)
}

/// The two's complement bit pattern of `v`, read as an unsigned number.
pub open spec fn i64_bits(v: i64) -> u64 {
    if v >= 0 {
        v as u64
    } else {
        (v + 0x1_0000_0000_0000_0000) as u64
    }
}

/// The signed number whose two's complement bit pattern is `u`.
pub open spec fn i64_of_bits(u: u64) -> i64 {
    if u < 0x8000_0000_0000_0000 {
        u as i64
    } else {
        (u - 0x1_0000_0000_0000_0000) as i64
    }
}

/// Reading back the four bytes of a number gives the number.
pub proof fn lemma_be32_roundtrip(b: Seq<u8>, at: int, x: u32)
    requires
        0 <= at,
        at + 4 <= b.len(),
        b.subrange(at, at + 4) == be32_bytes(x),
    ensures
        be32(b, at) == x,
{
    let s = b.subrange(at, at + 4);
    assert(s[0] == b[at] && s[1] == b[at + 1] && s[2] == b[at + 2] && s[3] == b[at + 3]);
}

/// Reading back the eight bytes of a number gives the number.
pub proof fn lemma_be64_roundtrip(b: Seq<u8>, at: int, x: u64)
    requires
        0 <= at,
        at + 8 <= b.len(),
        b.subrange(at, at + 8) == be64_bytes(x),
    ensures
        be64(b, at) == x,
{
    let s = b.subrange(at, at + 8);
    let hi = (x / 0x1_0000_0000) as u32;
    let lo = (x % 0x1_0000_0000) as u32;
    assert(b.subrange(at, at + 4) =~= s.subrange(0, 4));
    assert(b.subrange(at + 4, at + 8) =~= s.subrange(4, 8));
    assert(s.subrange(0, 4) =~= be32_bytes(hi));
    assert(s.subrange(4, 8) =~= be32_bytes(lo));
    lemma_be32_roundtrip(b, at, hi);
    lemma_be32_roundtrip(b, at + 4, lo);
}

/// The bit pattern of a signed number determines it.
pub proof fn lemma_i64_bits_roundtrip(v: i64)
    ensures
        i64_of_bits(i64_bits(v)) == v,
{
}

/// The unsigned reading of the two's complement bit pattern of `v`.
pub fn i64_to_bits(v: i64) -> (u: u64)
    ensures
        u == i64_bits(v),
{
    if v >= 0 {
        v as u64
    } else {
        u64::MAX - ((-(v + 1)) as u64)
    }
}

/// The signed reading of the bit pattern `u`.
pub fn i64_from_bits(u: u64) -> (v: i64)
    ensures
        v == i64_of_bits(u),
{
    if u < 0x8000_0000_0000_0000 {
        u as i64
    } else {
        -((u64::MAX - u) as i64) - 1
    }
}

/// Reads a big-endian `u32` at offset `at`.
pub fn read_be32(page: &[u8; 4096], at: usize) -> (x: u32)
    requires
        at + 4 <= 4096,
    ensures
        x == be32(page@, at as int),
{
    (page[at] as u32) * 0x100_0000 + (page[at + 1] as u32) * 0x1_0000 + (page[at + 2] as u32)
        * 0x100 + (page[at + 3] as u32)
}

/// Reads a big-endian `u64` at offset `at`.
pub fn read_be64(page: &[u8; 4096], at: usize) -> (x: u64)
    requires
        at + 8 <= 4096,
    ensures
        x == be64(page@, at as int),
{
    (read_be32(page, at) as u64) * 0x1_0000_0000 + (read_be32(page, at + 4) as u64)
}

/// Writes `x` in big-endian form at offset `at`, leaving the other bytes as they are.
pub fn write_be32(page: &mut [u8; 4096], at: usize, x: u32)
    requires
        at + 4 <= 4096,
    ensures
        final(page)@.subrange(at as int, at + 4) == be32_bytes(x),
        forall|i: int| 0 <= i < 4096 && !(at <= i < at + 4) ==> final(page)@[i] == old(page)@[i],
{
    page[at] = (x / 0x100_0000) as u8;
    page[at + 1] = (x / 0x1_0000 % 0x100) as u8;
    page[at + 2] = (x / 0x100 % 0x100) as u8;
    page[at + 3] = (x % 0x100) as u8;
    assert(page@.subrange(at as int, at + 4) =~= be32_bytes(x));
}

/// Writes `x` in big-endian form at offset `at`, leaving the other bytes as they are.
pub fn write_be64(page: &mut [u8; 4096], at: usize, x: u64)
    requires
        at + 8 <= 4096,
    ensures
        final(page)@.subrange(at as int, at + 8) == be64_bytes(x),
        forall|i: int| 0 <= i < 4096 && !(at <= i < at + 8) ==> final(page)@[i] == old(page)@[i],
{
    write_be32(page, at, (x / 0x1_0000_0000) as u32);
    let ghost mid = page@;
    write_be32(page, at + 4, (x % 0x1_0000_0000) as u32);
    proof {
        assert(page@.subrange(at as int, at + 4) =~= mid.subrange(at as int, at + 4));
        assert(page@.subrange(at as int, at + 8) =~= page@.subrange(at as int, at + 4)
            + page@.subrange(at + 4, at + 8));
    }
}

} // verus!
