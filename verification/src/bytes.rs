//! Numbers in runs of bytes, little end first.

use vstd::prelude::*;

verus! {

/// The two-byte number at `i`.
pub open spec fn le16(b: Seq<u8>, i: int) -> nat {
    (b[i] + 0x100 * b[i + 1]) as nat
}

/// The four-byte number at `i`.
pub open spec fn le32(b: Seq<u8>, i: int) -> nat {
    (b[i] + 0x100 * b[i + 1] + 0x1_0000 * b[i + 2] + 0x100_0000 * b[i + 3]) as nat
}

/// The eight-byte number at `i`.
pub open spec fn le64(b: Seq<u8>, i: int) -> nat {
    le32(b, i) + 0x1_0000_0000 * le32(b, i + 4)
}

pub fn read_u16(b: &[u8], i: usize) -> (n: u16)
    requires
        i + 2 <= b@.len(),
    ensures
        n == le16(b@, i as int),
{
    let total: usize = b.len();
    (b[i] as u16) + 0x100 * (b[i + 1] as u16)
}

pub fn read_u32(b: &[u8], i: usize) -> (n: u32)
    requires
        i + 4 <= b@.len(),
    ensures
        n == le32(b@, i as int),
{
    let total: usize = b.len();
    (b[i] as u32) + 0x100 * (b[i + 1] as u32) + 0x1_0000 * (b[i + 2] as u32) + 0x100_0000 * (b[i
        + 3] as u32)
}

pub fn read_u64(b: &[u8], i: usize) -> (n: u64)
    requires
        i + 8 <= b@.len(),
    ensures
        n == le64(b@, i as int),
{
    let total: usize = b.len();
    (read_u32(b, i) as u64) + 0x1_0000_0000 * (read_u32(b, i + 4) as u64)
}

/// A number below `2^32` is found in the four bytes that it is written as.
pub proof fn four_bytes_hold_a_number(b: Seq<u8>, i: int, n: nat)
    requires
        0 <= i,
        i + 4 <= b.len(),
        n < 0x1_0000_0000,
        b[i] == n % 0x100,
        b[i + 1] == (n / 0x100) % 0x100,
        b[i + 2] == (n / 0x1_0000) % 0x100,
        b[i + 3] == n / 0x100_0000,
    ensures
        le32(b, i) == n,
{
}

/// A number as two bytes, the little end first.
pub open spec fn two_bytes(n: nat) -> Seq<u8> {
    seq![(n % 256) as u8, (n / 256) as u8]
}

/// A number as four bytes, the little end first.
pub open spec fn four_bytes(n: nat) -> Seq<u8> {
    seq![
        (n % 256) as u8,
        (n / 256 % 256) as u8,
        (n / 65536 % 256) as u8,
        (n / 16777216) as u8,
    ]
}

/// Numbers are read back from the bytes that they are written as, wherever
/// those stand.
pub proof fn written_numbers_read_back(before: Seq<u8>, n: nat, high: nat, after: Seq<u8>)
    requires
        n < 4294967296,
        high < 4294967296,
    ensures
        n < 65536 ==> le16(before + two_bytes(n) + after, before.len() as int) == n,
        le32(before + four_bytes(n) + after, before.len() as int) == n,
        le64(before + (four_bytes(n) + four_bytes(high)) + after, before.len() as int) == n
            + 4294967296 * high,
{
    let at = before.len() as int;
    if n < 65536 {
        let b = before + two_bytes(n) + after;
        assert(b[at] == (n % 256) as u8);
        assert(b[at + 1] == (n / 256) as u8);
    }
    let b = before + four_bytes(n) + after;
    assert(b[at] == four_bytes(n)[0] && b[at + 1] == four_bytes(n)[1]);
    assert(b[at + 2] == four_bytes(n)[2] && b[at + 3] == four_bytes(n)[3]);
    four_bytes_hold_a_number(b, at, n);
    let w = four_bytes(n) + four_bytes(high);
    let c = before + w + after;
    assert(c[at] == w[0] && c[at + 1] == w[1] && c[at + 2] == w[2] && c[at + 3] == w[3]);
    assert(c[at + 4] == w[4] && c[at + 5] == w[5] && c[at + 6] == w[6] && c[at + 7] == w[7]);
    four_bytes_hold_a_number(c, at, n);
    four_bytes_hold_a_number(c, at + 4, high);
}

} // verus!
