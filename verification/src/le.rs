//! Little-endian integers in byte buffers.

use vstd::prelude::*;

verus! {

/// The 16-bit integer at `o`.
pub open spec fn le16(s: Seq<u8>, o: int) -> int {
    s[o] + s[o + 1] * 0x100
}

/// The 32-bit integer at `o`.
pub open spec fn le32(s: Seq<u8>, o: int) -> int {
    s[o] + s[o + 1] * 0x100 + s[o + 2] * 0x1_0000 + s[o + 3] * 0x100_0000
}

/// The 64-bit integer at `o`.
pub open spec fn le64(s: Seq<u8>, o: int) -> int {
    le32(s, o) + le32(s, o + 4) * 0x1_0000_0000
}

/// The 16-bit integer at `o`.
pub fn u16_at(s: &[u8], o: usize) -> (v: u16)
    requires
        o + 2 <= s@.len(),
    ensures
        v == le16(s@, o as int),
{
    s[o] as u16 + s[o + 1] as u16 * 0x100
}

/// The 32-bit integer at `o`.
pub fn u32_at(s: &[u8], o: usize) -> (v: u32)
    requires
        o + 4 <= s@.len(),
    ensures
        v == le32(s@, o as int),
{
    s[o] as u32 + s[o + 1] as u32 * 0x100 + s[o + 2] as u32 * 0x1_0000 + s[o + 3] as u32
        * 0x100_0000
}

/// The 64-bit integer at `o`.
pub fn u64_at(s: &[u8], o: usize) -> (v: u64)
    requires
        o + 8 <= s@.len(),
    ensures
        v == le64(s@, o as int),
{
    let n: usize = s.len();
    assert(o + 4 <= n);
    u32_at(s, o) as u64 + u32_at(s, o + 4) as u64 * 0x1_0000_0000
}

} // verus!
