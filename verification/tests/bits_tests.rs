use daisogen::bits::{get_bit64, get_field64, set_bit128, set_bit64, set_field128, set_field64};
use daisogen::bytes::{read_u16, read_u32, read_u64};

#[test]
fn test_bit_get_after_set() {
    let v = set_bit64(0, 5, true);
    assert_eq!(v, 0x20);
    assert!(get_bit64(v, 5));
    assert!(!get_bit64(v, 4));
    let w = set_bit64(0xFF, 3, false);
    assert_eq!(w, 0xF7);
    assert!(!get_bit64(w, 3));
    assert!(get_bit64(w, 2));
    assert_eq!(set_bit64(0, 63, true), 1 << 63);
}

#[test]
fn test_field_get_after_set() {
    let v = set_field64(0xFFFF_FFFF_FFFF_FFFF, 12, 40, 0x12345);
    assert_eq!(get_field64(v, 12, 40), 0x12345);
    assert_eq!(v & 0xFFF, 0xFFF);
    assert_eq!(v >> 52, 0xFFF);
    // Only the low bits of the value fit in the field.
    let w = set_field64(0, 4, 4, 0x1F);
    assert_eq!(w, 0xF0);
    assert_eq!(get_field64(w, 4, 4), 0xF);
}

#[test]
fn test_u128_fields() {
    assert_eq!(set_bit128(0, 100, true), 1u128 << 100);
    let v = set_field128(0, 64, 32, 0xDEAD_BEEF);
    assert_eq!(v, 0xDEAD_BEEFu128 << 64);
}

#[test]
fn test_little_endian_reads() {
    let b = [0x01, 0x02, 0x03, 0x04, 0x05, 0x06, 0x07, 0x08, 0x09];
    assert_eq!(read_u16(&b, 0), 0x0201);
    assert_eq!(read_u32(&b, 1), 0x0504_0302);
    assert_eq!(read_u64(&b, 1), 0x0908_0706_0504_0302);
}
