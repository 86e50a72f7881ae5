//! Little-endian field access inside a block-sized byte buffer.  The
//! on-disk format stores every multi-byte field least significant byte
//! first; the spec functions here say what a field is in terms of the
//! bytes, and the executable functions are proved against them.

use vstd::prelude::*;
use vstd::pervasive::VecAdditionalExecFns;

verus! {

/// The 16-bit value stored as `lo`, `hi`.
pub open spec fn le16_of(lo: u8, hi: u8) -> u16 {
    (lo + hi * 256) as u16
}

/// The 16-bit field at byte offset `off` of `b`.
pub open spec fn le16_at(b: Seq<u8>, off: int) -> u16 {
    le16_of(b[off], b[off + 1])
}

/// The 32-bit field at byte offset `off` of `b`.
pub open spec fn le32_at(b: Seq<u8>, off: int) -> u32 {
    (b[off] + 256 * (b[off + 1] + 256 * (b[off + 2] + 256 * b[off + 3]))) as u32
}

/// The 64-bit field at byte offset `off` of `b`.
pub open spec fn le64_at(b: Seq<u8>, off: int) -> u64 {
    (b[off] + 256 * (b[off + 1] + 256 * (b[off + 2] + 256 * (b[off + 3] + 256 * (b[off + 4] + 256
        * (b[off + 5] + 256 * (b[off + 6] + 256 * b[off + 7]))))))) as u64
}

/// Bytes of `b` outside `[off, off + n)` equal those of `a`.
pub open spec fn same_outside(a: Seq<u8>, b: Seq<u8>, off: int, n: int) -> bool {
    a.len() == b.len() && forall|i: int| 0 <= i < b.len() && !(off <= i < off + n) ==> a[i] == #[trigger] b[i]
}

/// Read the 16-bit field at `off`.
pub fn get_le16(v: &Vec<u8>, off: usize) -> (r: u16)
    requires
        off + 2 <= v@.len(),
    ensures
        r == le16_at(v@, off as int),
{
    let n = v.len();
    assert(off + 2 <= n);
    v[off] as u16 + (v[off + 1] as u16) * 256
}

/// Write the 16-bit field at `off`.
pub fn put_le16(v: &mut Vec<u8>, off: usize, x: u16)
    requires
        off + 2 <= old(v)@.len(),
    ensures
        final(v)@.len() == old(v)@.len(),
        le16_at(final(v)@, off as int) == x,
        same_outside(old(v)@, final(v)@, off as int, 2),
{
    let n = v.len();
    assert(off + 2 <= n);
    v.set(off, (x % 256) as u8);
    v.set(off + 1, (x / 256) as u8);
}

/// Read the 32-bit field at `off`.
pub fn get_le32(v: &Vec<u8>, off: usize) -> (r: u32)
    requires
        off + 4 <= v@.len(),
    ensures
        r == le32_at(v@, off as int),
{
    let n = v.len();
    assert(off + 4 <= n);
    v[off] as u32 + 256 * (v[off + 1] as u32 + 256 * (v[off + 2] as u32 + 256 * (v[off + 3]
        as u32)))
}

/// Write the 32-bit field at `off`.
pub fn put_le32(v: &mut Vec<u8>, off: usize, x: u32)
    requires
        off + 4 <= old(v)@.len(),
    ensures
        final(v)@.len() == old(v)@.len(),
        le32_at(final(v)@, off as int) == x,
        same_outside(old(v)@, final(v)@, off as int, 4),
{
    let n = v.len();
    assert(off + 4 <= n);
    let y1 = x / 256;
    let y2 = y1 / 256;
    let y3 = y2 / 256;
    v.set(off, (x % 256) as u8);
    v.set(off + 1, (y1 % 256) as u8);
    v.set(off + 2, (y2 % 256) as u8);
    v.set(off + 3, y3 as u8);
}

/// Read the 64-bit field at `off`.
pub fn get_le64(v: &Vec<u8>, off: usize) -> (r: u64)
    requires
        off + 8 <= v@.len(),
    ensures
        r == le64_at(v@, off as int),
{
    let n = v.len();
    assert(off + 8 <= n);
    v[off] as u64 + 256 * (v[off + 1] as u64 + 256 * (v[off + 2] as u64 + 256 * (v[off + 3] as u64
        + 256 * (v[off + 4] as u64 + 256 * (v[off + 5] as u64 + 256 * (v[off + 6] as u64 + 256 * (
    v[off + 7] as u64)))))))
}

/// Write the 64-bit field at `off`.
pub fn put_le64(v: &mut Vec<u8>, off: usize, x: u64)
    requires
        off + 8 <= old(v)@.len(),
    ensures
        final(v)@.len() == old(v)@.len(),
        le64_at(final(v)@, off as int) == x,
        same_outside(old(v)@, final(v)@, off as int, 8),
{
    let n = v.len();
    assert(off + 8 <= n);
    let y1 = x / 256;
    let y2 = y1 / 256;
    let y3 = y2 / 256;
    let y4 = y3 / 256;
    let y5 = y4 / 256;
    let y6 = y5 / 256;
    let y7 = y6 / 256;
    v.set(off, (x % 256) as u8);
    v.set(off + 1, (y1 % 256) as u8);
    v.set(off + 2, (y2 % 256) as u8);
    v.set(off + 3, (y3 % 256) as u8);
    v.set(off + 4, (y4 % 256) as u8);
    v.set(off + 5, (y5 % 256) as u8);
    v.set(off + 6, (y6 % 256) as u8);
    v.set(off + 7, y7 as u8);
}

} // verus!
