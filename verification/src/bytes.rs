//! Little-endian fields inside byte buffers.

use vstd::prelude::*;

verus! {

/// The value of the two-byte little-endian field that starts at `at`.
pub open spec fn le16(buf: Seq<u8>, at: int) -> int {
    buf[at] + 0x100 * buf[at + 1]
}

/// The value of the four-byte little-endian field that starts at `at`.
pub open spec fn le32(buf: Seq<u8>, at: int) -> int {
    le16(buf, at) + 0x1_0000 * le16(buf, at + 2)
}

/// Reads the two-byte little-endian field that starts at `at`.
pub fn read_le16(buf: &[u8], at: usize) -> (value: u16)
    requires
        at + 2 <= buf.len(),
    ensures
        value == le16(buf@, at as int),
{
    buf[at] as u16 + 0x100 * (buf[at + 1] as u16)
}

/// Reads the four-byte little-endian field that starts at `at`.
pub fn read_le32(buf: &[u8], at: usize) -> (value: u32)
    requires
        at + 4 <= buf.len(),
    ensures
        value == le32(buf@, at as int),
{
    read_le16(buf, at) as u32 + 0x1_0000 * (read_le16(buf, at + 2) as u32)
}

/// Whether `buf` opens with the eight bytes of `magic`.
pub fn has_magic(buf: &[u8], magic: &[u8; 8]) -> (found: bool)
    requires
        buf@.len() >= 8,
    ensures
        found == (buf@.subrange(0, 8) == magic@),
{
    let mut i: usize = 0;
    while i < 8
        invariant
            i <= 8,
            buf@.len() >= 8,
            forall|k: int| 0 <= k < i ==> buf@[k] == magic@[k],
        decreases 8 - i,
    {
        if buf[i] != magic[i] {
            assert(buf@.subrange(0, 8)[i as int] != magic@[i as int]);
            return false;
        }
        i += 1;
    }
    assert(buf@.subrange(0, 8) =~= magic@);
    true
}

/// A number reads back from its bytes, the least significant one first.
pub proof fn law_numbers_read_back(buf: Seq<u8>, at: int, n: u32)
    requires
        0 <= at,
        at + 4 <= buf.len(),
        buf[at] == n % 0x100,
        buf[at + 1] == n / 0x100 % 0x100,
        buf[at + 2] == n / 0x1_0000 % 0x100,
        buf[at + 3] == n / 0x100_0000,
    ensures
        le32(buf, at) == n,
        le16(buf, at) == n % 0x1_0000,
        le16(buf, at + 2) == n / 0x1_0000,
{
}

} // verus!
