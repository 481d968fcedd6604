//! Facts about the bit layout of nids and tables, proved by bit-blasting.
use vstd::prelude::*;

verus! {

/// Facts about one 64-bit word (a nid or a table) and a bit position `q`.
pub proof fn lemma_word(n: u64, q: u64)
    by (bit_vector)
    ensures
        ((n & !(0x8000_0000_0000_0000u64 | 0x4000_0000_0000_0000u64)) >> 32u64) < 0x4000_0000u64,
        ((n >> 32u64) & 0x07FF_FFFFu64) < 0x0800_0000u64,
        n & 0xFFFF_FFFFu64 <= 0xFFFF_FFFFu64,
        (n ^ 0x8000_0000_0000_0000u64) ^ 0x8000_0000_0000_0000u64 == n,
        n ^ 0x8000_0000_0000_0000u64 != n,
        n & 0x0800_0000_0000_0000u64 == 0x0800_0000_0000_0000u64
            ==> (n & !0x8000_0000_0000_0000u64) & 0x0800_0000_0000_0000u64 == 0x0800_0000_0000_0000u64,
        n <= 1u64 ==> n & 1u64 == n,
        n <= 3u64 ==> n & 3u64 == n,
        n <= 0xFu64 ==> n & 0xFu64 == n,
        n <= 0xFFu64 ==> n & 0xFFu64 == n,
        n <= 0xFFFFu64 ==> n & 0xFFFFu64 == n,
        n <= 0xFFFF_FFFFu64 ==> n & 0xFFFF_FFFFu64 == n && (n as u32) as u64 == n,
        n <= 0x3FFF_FFFFu64 ==> n << 32u64 <= 0x3FFF_FFFF_0000_0000u64,
        q < 64 ==> (n >> q) & 1u64 <= 1u64,
        q < 64 ==> (0u64 >> q) & 1u64 == 0u64,
        n & 0x8000_0000_0000_0000u64 == 0 ==> n & !0x8000_0000_0000_0000u64 == n,
        n & 0x8000_0000_0000_0000u64 != 0 ==> n ^ 0x8000_0000_0000_0000u64 == n & !0x8000_0000_0000_0000u64,
        (n ^ 0x8000_0000_0000_0000u64) & !(0x8000_0000_0000_0000u64 | 0x4000_0000_0000_0000u64)
            == n & !(0x8000_0000_0000_0000u64 | 0x4000_0000_0000_0000u64),
        (n ^ 0x8000_0000_0000_0000u64) & 0x0800_0000_0000_0000u64 == n & 0x0800_0000_0000_0000u64,
        ((n ^ 0x8000_0000_0000_0000u64) >> 32u64) & 0x07FF_FFFFu64 == (n >> 32u64) & 0x07FF_FFFFu64,
        (n ^ 0x8000_0000_0000_0000u64) & 0xFFFF_FFFFu64 == n & 0xFFFF_FFFFu64,
        (n ^ 0x8000_0000_0000_0000u64) & 0x2000_0000_0000_0000u64 == n & 0x2000_0000_0000_0000u64,
        (n ^ 0x8000_0000_0000_0000u64) & 0x4000_0000_0000_0000u64 == n & 0x4000_0000_0000_0000u64,
        ((n ^ 0x8000_0000_0000_0000u64) & 0x8000_0000_0000_0000u64 != 0) == (n & 0x8000_0000_0000_0000u64 == 0),
{
}

/// Setting bit `i` of a byte whose bits from `i` up are clear.
pub proof fn lemma_byte(bits: u8, i: u8)
    by (bit_vector)
    ensures
        i < 5 && (bits as u64) < (1u64 << (i as u64)) ==>
            ((bits | (1u8 << i)) as u64) < (1u64 << ((i + 1) as u64)),
{
}

/// Facts about a variable field `b` and the nid `(b << 32) | VAR` built from it.
pub proof fn lemma_field(b: u64)
    by (bit_vector)
    ensures
        b < 0x4000_0000u64 ==> ((((b << 32u64) | 0x4000_0000_0000_0000u64)
            & !(0x8000_0000_0000_0000u64 | 0x4000_0000_0000_0000u64)) >> 32u64) == b,
        b < 0x4000_0000u64 ==> ((((b << 32u64) | 0x4000_0000_0000_0000u64) & 0x0800_0000_0000_0000u64
            == 0x0800_0000_0000_0000u64) <==> b & 0x0800_0000u64 != 0),
        b < 0x4000_0000u64 ==> ((((b << 32u64) | 0x4000_0000_0000_0000u64) & 0x2000_0000_0000_0000u64 == 0)
            <==> b & 0x2000_0000u64 == 0),
        b < 0x4000_0000u64 ==> ((b << 32u64) | 0x4000_0000_0000_0000u64) & 0x4000_0000_0000_0000u64 != 0,
        b < 0x4000_0000u64 ==> ((b << 32u64) | 0x4000_0000_0000_0000u64) & 0x8000_0000_0000_0000u64 == 0,
        b < 0x0800_0000u64 ==> (b | 0x1000_0000u64) != 0x2000_0000u64
            && (b | 0x1000_0000u64) != 0x0400_0000u64
            && (b | 0x1000_0000u64) & 0x1000_0000u64 != 0
            && (b | 0x1000_0000u64) & !0x1000_0000u64 == b
            && (b | 0x1000_0000u64) < 0x4000_0000u64
            && (b | 0x1000_0000u64) & 0x0800_0000u64 == 0
            && (b | 0x1000_0000u64) & 0x2000_0000u64 == 0,
        b < 0x0400_0000u64 ==> b & 0x1000_0000u64 == 0 && b & 0x0800_0000u64 == 0 && b & 0x2000_0000u64 == 0,
{
}

/// Facts about constants.
pub proof fn lemma_constants()
    by (bit_vector)
    ensures
        1u64 << 0u64 == 1, 1u64 << 1u64 == 2, 1u64 << 2u64 == 4, 1u64 << 3u64 == 8,
        1u64 << 4u64 == 16, 1u64 << 5u64 == 32, 1u64 << 8u64 == 256, 1u64 << 16u64 == 65536,
        1u64 << 32u64 == 0x1_0000_0000u64,
        0x0400_0000u64 << 32u64 == 0x0400_0000_0000_0000u64,
        0x2000_0000_0000_0000u64 ^ 0x8000_0000_0000_0000u64 == 0xA000_0000_0000_0000u64,
        0xA000_0000_0000_0000u64 ^ 0x8000_0000_0000_0000u64 == 0x2000_0000_0000_0000u64,
        0x0400_0000u64 & 0x0800_0000u64 == 0, 0x0400_0000u64 & 0x2000_0000u64 == 0,
        0x2000_0000u64 & 0x0800_0000u64 == 0,
        0x2000_0000_0000_0000u64 & 0x2000_0000_0000_0000u64 != 0,
        0xA000_0000_0000_0000u64 & 0x2000_0000_0000_0000u64 != 0,
        0x2000_0000_0000_0000u64 & 0x8000_0000_0000_0000u64 == 0,
        0xA000_0000_0000_0000u64 & 0x8000_0000_0000_0000u64 != 0,
        0x2000_0000_0000_0000u64 & 0x4000_0000_0000_0000u64 == 0,
        0xA000_0000_0000_0000u64 & 0x4000_0000_0000_0000u64 == 0,
        0x2000_0000_0000_0000u64 & 0x0800_0000_0000_0000u64 == 0,
        0xA000_0000_0000_0000u64 & 0x0800_0000_0000_0000u64 == 0,
{
}

/// Facts about small shifts: `m` counts table entries, `b` is an input position.
pub proof fn lemma_shifts(r: u64, m: u64, b: u64)
    by (bit_vector)
    ensures
        1 <= m <= 32 ==> 0u64 < (1u64 << m),
        r < (1u64 << m) && 1 <= m <= 32 ==> r <= ((1u64 << m) - 1) as u64,
        b < 5 ==> 1u64 << b >= 1,
        b <= 5 ==> (1u64 << b) <= 32,
{
}

/// Facts about one bit of a cell.
pub proof fn lemma_usize(x: usize, s: usize, t: usize)
    by (bit_vector)
    ensures
        s < usize::BITS && t < usize::BITS && s != t ==> ((x | (1usize << s)) >> t) & 1 == (x >> t) & 1,
        s < usize::BITS && t < usize::BITS && s != t ==> ((x & !(1usize << s)) >> t) & 1 == (x >> t) & 1,
        s < usize::BITS ==> ((!x) >> s) & 1 == 1 - ((x >> s) & 1),
        s < usize::BITS ==> (x >> s) & 1 <= 1,
        s < usize::BITS ==> (1usize << s) >= 1,
        s + 1 < usize::BITS ==> (x >> s) >> 1usize == x >> ((s + 1) as usize),
        s < usize::BITS ==> (0usize >> s) & 1 == 0,
        s < usize::BITS ==> ((x | (1usize << s)) >> s) & 1 == 1,
        s < usize::BITS ==> ((x & !(1usize << s)) >> s) & 1 == 0,
        s < usize::BITS ==> ((x >> s) & 1 == 1) == (x & (1usize << s) != 0),
        x >> 0usize == x,
{
}

} // verus!
