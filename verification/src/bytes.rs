//! Little-endian integers read out of byte slices.
use vstd::prelude::*;

verus! {

/// The little-endian `u16` at `off` in `b`.
pub open spec fn le16(b: Seq<u8>, off: int) -> int {
    b[off] + 256 * b[off + 1]
}

/// The little-endian `u32` at `off` in `b`.
pub open spec fn le32(b: Seq<u8>, off: int) -> int {
    le16(b, off) + 65536 * le16(b, off + 2)
}

/// The little-endian `u64` at `off` in `b`.
pub open spec fn le64(b: Seq<u8>, off: int) -> int {
    le32(b, off) + 0x1_0000_0000 * le32(b, off + 4)
}

/// The little-endian `u16` at `off`.
pub fn read_u16(b: &[u8], off: usize) -> (r: u16)
    requires
        off + 2 <= b@.len(),
    ensures
        r == le16(b@, off as int),
{
    (b[off] as u16) + (b[off + 1] as u16) * 256
}

/// The little-endian `u32` at `off`.
pub fn read_u32(b: &[u8], off: usize) -> (r: u32)
    requires
        off + 4 <= b@.len(),
    ensures
        r == le32(b@, off as int),
{
    let _n = b.len();
    let lo = read_u16(b, off);
    let hi = read_u16(b, off + 2);
    (lo as u32) + (hi as u32) * 65536
}

/// The little-endian `u64` at `off`.
pub fn read_u64(b: &[u8], off: usize) -> (r: u64)
    requires
        off + 8 <= b@.len(),
    ensures
        r == le64(b@, off as int),
{
    let _n = b.len();
    let lo = read_u32(b, off);
    let hi = read_u32(b, off + 4);
    (lo as u64) + (hi as u64) * 0x1_0000_0000
}

/// Appends `x` to `v` as a little-endian `u16`.
pub fn push_u16(v: &mut Vec<u8>, x: u16)
    ensures
        final(v)@.len() == old(v)@.len() + 2,
        forall|i: int| 0 <= i < old(v)@.len() ==> #[trigger] final(v)@[i] == old(v)@[i],
        le16(final(v)@, old(v)@.len() as int) == x,
{
    v.push((x % 256) as u8);
    v.push((x / 256) as u8);
}

/// Appends `x` to `v` as a little-endian `u32`.
pub fn push_u32(v: &mut Vec<u8>, x: u32)
    ensures
        final(v)@.len() == old(v)@.len() + 4,
        forall|i: int| 0 <= i < old(v)@.len() ==> #[trigger] final(v)@[i] == old(v)@[i],
        le32(final(v)@, old(v)@.len() as int) == x,
{
    let ghost n = v@.len() as int;
    push_u16(v, (x % 65536) as u16);
    let ghost mid = v@;
    push_u16(v, (x / 65536) as u16);
    assert(le16(v@, n) == le16(mid, n));
}

/// Appends `x` to `v` as a little-endian `u64`.
pub fn push_u64(v: &mut Vec<u8>, x: u64)
    ensures
        final(v)@.len() == old(v)@.len() + 8,
        forall|i: int| 0 <= i < old(v)@.len() ==> #[trigger] final(v)@[i] == old(v)@[i],
        le64(final(v)@, old(v)@.len() as int) == x,
{
    let ghost n = v@.len() as int;
    push_u32(v, (x % 0x1_0000_0000) as u32);
    let ghost mid = v@;
    push_u32(v, (x / 0x1_0000_0000) as u32);
    assert(le32(v@, n) == le32(mid, n));
}

} // verus!
