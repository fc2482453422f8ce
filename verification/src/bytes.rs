//! Verified helpers for reading and writing big-endian words and byte ranges
//! inside an in-memory byte buffer.

use vstd::pervasive::VecAdditionalExecFns;
use vstd::prelude::*;

verus! {

/// The value of the big-endian 32-bit word starting at byte `i` of `d`.
pub open spec fn be32_at(d: Seq<u8>, i: int) -> int {
    d[i] * 0x100_0000 + d[i + 1] * 0x1_0000 + d[i + 2] * 0x100 + d[i + 3]
}

/// Reads the big-endian 32-bit word starting at byte `i`.
pub fn read_be32(d: &Vec<u8>, i: usize) -> (r: u32)
    requires
        i + 4 <= d@.len(),
    ensures
        r as int == be32_at(d@, i as int),
{
    let _len = d.len();
    let b0 = d[i] as u32;
    let b1 = d[i + 1] as u32;
    let b2 = d[i + 2] as u32;
    let b3 = d[i + 3] as u32;
    b0 * 0x100_0000 + b1 * 0x1_0000 + b2 * 0x100 + b3
}

/// A 32-bit value decomposes into its four base-256 digits.
proof fn lemma_u32_be_digits(v: u32)
    ensures
        v == (v / 0x100_0000) * 0x100_0000 + ((v / 0x1_0000) % 0x100) * 0x1_0000 + ((v
            / 0x100) % 0x100) * 0x100 + (v % 0x100),
        v / 0x100_0000 < 0x100,
{
    assert(v == (v / 0x100_0000) * 0x100_0000 + ((v / 0x1_0000) % 0x100) * 0x1_0000 + ((v
        / 0x100) % 0x100) * 0x100 + (v % 0x100) && v / 0x100_0000 < 0x100) by (bit_vector);
}

/// Overwrites the four bytes starting at `i` with `v` in big-endian order.
pub fn write_be32(d: &mut Vec<u8>, i: usize, v: u32)
    requires
        i + 4 <= old(d)@.len(),
    ensures
        final(d)@.len() == old(d)@.len(),
        be32_at(final(d)@, i as int) == v as int,
        forall|j: int| 0 <= j < old(d)@.len() && !(i <= j < i + 4) ==> final(d)@[j] == old(d)@[j],
{
    proof {
        lemma_u32_be_digits(v);
    }
    let _len = d.len();
    let b0 = (v / 0x100_0000) as u8;
    let b1 = ((v / 0x1_0000) % 0x100) as u8;
    let b2 = ((v / 0x100) % 0x100) as u8;
    let b3 = (v % 0x100) as u8;
    d.set(i, b0);
    d.set(i + 1, b1);
    d.set(i + 2, b2);
    d.set(i + 3, b3);
}

/// Writes zero to every byte of `d` in the range `[start, end)`.
pub fn zero_range(d: &mut Vec<u8>, start: usize, end: usize)
    requires
        start <= end <= old(d)@.len(),
    ensures
        final(d)@.len() == old(d)@.len(),
        forall|j: int| start <= j < end ==> final(d)@[j] == 0,
        forall|j: int| 0 <= j < old(d)@.len() && !(start <= j < end) ==> final(d)@[j] == old(
            d,
        )@[j],
{
    let mut k = start;
    while k < end
        invariant
            start <= k <= end <= d@.len(),
            d@.len() == old(d)@.len(),
            forall|j: int| start <= j < k ==> d@[j] == 0,
            forall|j: int| 0 <= j < old(d)@.len() && !(start <= j < k) ==> d@[j] == old(d)@[j],
        decreases end - k,
    {
        d.set(k, 0);
        k = k + 1;
    }
}

/// Returns a copy of the `n` bytes of `d` starting at `start`.
pub fn read_range(d: &Vec<u8>, start: usize, n: usize) -> (r: Vec<u8>)
    requires
        start + n <= d@.len(),
    ensures
        r@ == d@.subrange(start as int, start + n),
{
    let len = d.len();
    let mut r: Vec<u8> = Vec::new();
    let mut k: usize = 0;
    while k < n
        invariant
            k <= n,
            start + n <= len == d@.len(),
            r@ == d@.subrange(start as int, start + k),
        decreases n - k,
    {
        r.push(d[start + k]);
        proof {
            assert(r@ =~= d@.subrange(start as int, start + k + 1));
        }
        k = k + 1;
    }
    r
}

/// Overwrites the bytes of `d` starting at `start` with the contents of `src`.
pub fn write_range(d: &mut Vec<u8>, start: usize, src: &Vec<u8>)
    requires
        start + src@.len() <= old(d)@.len(),
    ensures
        final(d)@.len() == old(d)@.len(),
        final(d)@.subrange(start as int, start + src@.len()) == src@,
        forall|j: int|
            0 <= j < old(d)@.len() && !(start <= j < start + src@.len()) ==> final(d)@[j] == old(
                d,
            )@[j],
{
    let n = src.len();
    let len = d.len();
    let mut k: usize = 0;
    while k < n
        invariant
            k <= n,
            n == src@.len(),
            start + n <= len == d@.len(),
            d@.len() == old(d)@.len(),
            forall|j: int| start <= j < start + k ==> d@[j] == src@[j - start],
            forall|j: int| 0 <= j < old(d)@.len() && !(start <= j < start + k) ==> d@[j] == old(
                d,
            )@[j],
        decreases n - k,
    {
        d.set(start + k, src[k]);
        k = k + 1;
    }
    proof {
        assert(d@.subrange(start as int, start + src@.len()) =~= src@);
    }
}

} // verus!
