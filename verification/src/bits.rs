//! Reading and writing bits and bit fields of integers.
use vstd::prelude::*;

verus! {

/// Mask of `width` bits (`1 <= width <= 63`) starting at bit `lo`.
pub open spec fn mask64(lo: u64, width: u64) -> u64 {
    (((1u64 << width) - 1u64) as u64) << lo
}

/// `v` with bit `i` set to `b`.
pub open spec fn with_bit64(v: u64, i: u64, b: bool) -> u64 {
    if b { v | (1u64 << i) } else { v & !(1u64 << i) }
}

/// `v` with the field of `width` bits at `lo` replaced by the low bits of `val`.
pub open spec fn with_field64(v: u64, lo: u64, width: u64, val: u64) -> u64 {
    (v & !mask64(lo, width)) | ((val << lo) & mask64(lo, width))
}

/// The field of `width` bits at `lo` of `v`.
pub open spec fn field64(v: u64, lo: u64, width: u64) -> u64 {
    (v >> lo) & (((1u64 << width) - 1u64) as u64)
}

/// Bit `i` of `v`.
pub open spec fn bit64(v: u64, i: u64) -> bool {
    (v >> i) & 1u64 == 1u64
}

/// Sets bit `i` of `v` to `b`.
pub fn set_bit64(v: u64, i: u64, b: bool) -> (r: u64)
    requires
        i < 64,
    ensures
        r == with_bit64(v, i, b),
{
    if b { v | (1u64 << i) } else { v & !(1u64 << i) }
}

/// Bit `i` of `v`.
pub fn get_bit64(v: u64, i: u64) -> (r: bool)
    requires
        i < 64,
    ensures
        r == bit64(v, i),
{
    (v >> i) & 1u64 == 1u64
}

/// Replaces the field of `width` bits at `lo` with the low `width` bits of `val`.
pub fn set_field64(v: u64, lo: u64, width: u64, val: u64) -> (r: u64)
    requires
        1 <= width < 64,
        lo + width <= 64,
    ensures
        r == with_field64(v, lo, width, val),
{
    assert((1u64 << width) >= 1u64) by (bit_vector)
        requires width < 64u64;
    let mask: u64 = ((1u64 << width) - 1u64) << lo;
    (v & !mask) | ((val << lo) & mask)
}

/// The field of `width` bits at `lo` of `v`.
pub fn get_field64(v: u64, lo: u64, width: u64) -> (r: u64)
    requires
        1 <= width < 64,
        lo + width <= 64,
    ensures
        r == field64(v, lo, width),
{
    assert((1u64 << width) >= 1u64) by (bit_vector)
        requires width < 64u64;
    (v >> lo) & ((1u64 << width) - 1u64)
}

/// Mask of `width` bits (`1 <= width <= 127`) starting at bit `lo`.
pub open spec fn mask128(lo: u128, width: u128) -> u128 {
    (((1u128 << width) - 1u128) as u128) << lo
}

/// `v` with bit `i` set to `b`.
pub open spec fn with_bit128(v: u128, i: u128, b: bool) -> u128 {
    if b { v | (1u128 << i) } else { v & !(1u128 << i) }
}

/// `v` with the field of `width` bits at `lo` replaced by the low bits of `val`.
pub open spec fn with_field128(v: u128, lo: u128, width: u128, val: u128) -> u128 {
    (v & !mask128(lo, width)) | ((val << lo) & mask128(lo, width))
}

/// Sets bit `i` of `v` to `b`.
pub fn set_bit128(v: u128, i: u128, b: bool) -> (r: u128)
    requires
        i < 128,
    ensures
        r == with_bit128(v, i, b),
{
    if b { v | (1u128 << i) } else { v & !(1u128 << i) }
}

/// Replaces the field of `width` bits at `lo` with the low `width` bits of `val`.
pub fn set_field128(v: u128, lo: u128, width: u128, val: u128) -> (r: u128)
    requires
        1 <= width < 128,
        lo + width <= 128,
    ensures
        r == with_field128(v, lo, width, val),
{
    assert((1u128 << width) >= 1u128) by (bit_vector)
        requires width < 128u128;
    let mask: u128 = ((1u128 << width) - 1u128) << lo;
    (v & !mask) | ((val << lo) & mask)
}


/// Setting bit `i` and reading it gives back what was set; the other bits are unchanged.
pub proof fn law_bit_get_after_set(v: u64, i: u64, b: bool, j: u64)
    requires
        i < 64,
        j < 64,
    ensures
        bit64(with_bit64(v, i, b), i) == b,
        j != i ==> bit64(with_bit64(v, i, b), j) == bit64(v, j),
{
    assert(bit64(with_bit64(v, i, b), i) == b && (j != i ==> bit64(with_bit64(v, i, b), j) == bit64(v, j))) by (bit_vector)
        requires i < 64u64, j < 64u64;
}

/// Writing a field and reading it gives back the low bits of what was written; the bits
/// outside the field are unchanged.
pub proof fn law_field_get_after_set(v: u64, lo: u64, width: u64, val: u64)
    requires
        1 <= width < 64,
        lo + width <= 64,
    ensures
        field64(with_field64(v, lo, width, val), lo, width) == val & (((1u64 << width) - 1u64) as u64),
        with_field64(v, lo, width, val) & !mask64(lo, width) == v & !mask64(lo, width),
{
    assert(field64(with_field64(v, lo, width, val), lo, width) == val & (((1u64 << width) - 1u64) as u64)
        && with_field64(v, lo, width, val) & !mask64(lo, width) == v & !mask64(lo, width)) by (bit_vector)
        requires 1u64 <= width < 64u64, lo + width <= 64u64;
}

} // verus!
