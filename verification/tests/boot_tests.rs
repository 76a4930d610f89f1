use daisogen::boot::{
    find_tag, modules_error, parse_mm, parse_module, parse_modules, parse_usize, sort_modules, BootError, Module,
    MEMORY_MAP_ID, MODULES_ID, MODULE_SIZE, MM_ENTRY_SIZE, STIVALE2_MMAP_USABLE,
};
use daisogen::utils::str_from_u8_nul_utf8;

fn mm_bytes(entries: &[(u64, u64, u32)]) -> Vec<u8> {
    let mut b = Vec::new();
    for (base, len, ty) in entries {
        b.extend_from_slice(&base.to_le_bytes());
        b.extend_from_slice(&len.to_le_bytes());
        b.extend_from_slice(&ty.to_le_bytes());
        b.extend_from_slice(&0u32.to_le_bytes());
    }
    b
}

fn module_record(begin: u64, end: u64, s: &[u8]) -> Vec<u8> {
    let mut b = Vec::new();
    b.extend_from_slice(&begin.to_le_bytes());
    b.extend_from_slice(&end.to_le_bytes());
    let mut string = [0u8; 128];
    string[..s.len()].copy_from_slice(s);
    b.extend_from_slice(&string);
    b
}

#[test]
fn test_parse_mm() {
    let b = mm_bytes(&[(0x1000, 0x9F000, STIVALE2_MMAP_USABLE), (0x100000, 0x10000, 2)]);
    assert_eq!(b.len(), 2 * MM_ENTRY_SIZE);
    let es = parse_mm(&b, 2).unwrap();
    assert_eq!(es.len(), 2);
    assert_eq!((es[0].base, es[0].length, es[0].entry_type), (0x1000, 0x9F000, 1));
    assert_eq!((es[1].base, es[1].length, es[1].entry_type), (0x100000, 0x10000, 2));
    assert_eq!(parse_mm(&b, 1).unwrap().len(), 1);
}

#[test]
fn test_parse_mm_errors() {
    let b = mm_bytes(&[(0x1000, 0x9F000, 1)]);
    assert!(matches!(parse_mm(&b, 2), Err(BootError::Truncated)));
    assert!(parse_mm(&[], 0).unwrap().is_empty());
}

#[test]
fn test_parse_usize() {
    assert_eq!(parse_usize(b"123"), Some(123));
    assert_eq!(parse_usize(b"+7"), Some(7));
    assert_eq!(parse_usize(b"0"), Some(0));
    assert_eq!(parse_usize(b""), None);
    assert_eq!(parse_usize(b"+"), None);
    assert_eq!(parse_usize(b"12a"), None);
    assert_eq!(parse_usize(b"-1"), None);
    assert_eq!(parse_usize(b"99999999999999999999999"), None);
    assert_eq!(parse_usize(b"18446744073709551615"), Some(usize::MAX));
}

#[test]
fn test_parse_module() {
    let m = parse_module(b"3 init\0garbage", 0x1000, 0x2000).unwrap();
    assert_eq!((m.id, m.name.as_str(), m.begin, m.end), (3, "init", 0x1000, 0x2000));
    let m = parse_module(b"12 shell extra", 5, 6).unwrap();
    assert_eq!((m.id, m.name.as_str()), (12, "shell"));
    assert!(matches!(parse_module(b"x init", 0, 0), Err(BootError::InvalidId)));
    assert!(matches!(parse_module(b"4", 0, 0), Err(BootError::NoName)));
    assert!(matches!(parse_module(&[b'1', b' ', 0xFF], 0, 0), Err(BootError::InvalidUtf8)));
}

#[test]
fn test_sort_modules() {
    let mk = |id: usize, name: &str| Module { id, name: String::from(name), begin: 0, end: 0 };
    let r = sort_modules(vec![mk(3, "c"), mk(1, "a"), mk(2, "b"), mk(1, "z")]);
    let ids: Vec<usize> = r.iter().map(|m| m.id).collect();
    assert_eq!(ids, vec![1, 1, 2, 3]);
    let names: Vec<&str> = r.iter().map(|m| m.name.as_str()).collect();
    assert_eq!(names, vec!["a", "z", "b", "c"]);
}

#[test]
fn test_parse_modules_sorted() {
    let mut b = module_record(0x3000, 0x4000, b"2 second");
    b.extend(module_record(0x1000, 0x2000, b"1 first"));
    assert_eq!(b.len(), 2 * MODULE_SIZE);
    let ms = parse_modules(Vec::new(), &b, 2).unwrap();
    assert_eq!(ms.len(), 2);
    assert_eq!((ms[0].id, ms[0].name.as_str(), ms[0].begin, ms[0].end), (1, "first", 0x1000, 0x2000));
    assert_eq!((ms[1].id, ms[1].name.as_str(), ms[1].begin, ms[1].end), (2, "second", 0x3000, 0x4000));
}

#[test]
fn test_parse_modules_errors() {
    let b = module_record(0, 0, b"nope");
    assert_eq!(modules_error(&b, 1), Some(BootError::InvalidId));
    assert_eq!(modules_error(&b, 2), Some(BootError::Truncated));
    assert!(matches!(parse_modules(Vec::new(), &b, 2), Err(BootError::Truncated)));
    let good = module_record(0, 0, b"1 ok");
    assert_eq!(modules_error(&good, 1), None);
}

#[test]
fn test_find_tag() {
    let ids = [MODULES_ID, MEMORY_MAP_ID, MODULES_ID];
    assert_eq!(find_tag(&ids, MODULES_ID), Some(0));
    assert_eq!(find_tag(&ids, MEMORY_MAP_ID), Some(1));
    assert_eq!(find_tag(&ids, 7), None);
    assert_eq!(find_tag(&[], 7), None);
}

#[test]
fn test_str_from_u8_nul_utf8() {
    assert_eq!(str_from_u8_nul_utf8(b"hello\0world").unwrap(), "hello");
    assert_eq!(str_from_u8_nul_utf8(b"no nul").unwrap(), "no nul");
    assert_eq!(str_from_u8_nul_utf8(b"\0").unwrap(), "");
    assert!(str_from_u8_nul_utf8(&[0xC3, 0x28, 0]).is_err());
    assert_eq!(str_from_u8_nul_utf8(&[0xC3, 0xA9, 0, 0xFF]).unwrap(), "é");
}

#[test]
fn test_parse_modules_equal_ids_keep_record_order() {
    let mut b = module_record(0x5000, 0x6000, b"2 later");
    b.extend(module_record(0x1000, 0x2000, b"1 first"));
    b.extend(module_record(0x3000, 0x4000, b"1 second"));
    let ms = parse_modules(Vec::new(), &b, 3).unwrap();
    let names: Vec<&str> = ms.iter().map(|m| m.name.as_str()).collect();
    assert_eq!(names, vec!["first", "second", "later"]);
}

#[test]
fn test_parse_modules_after_recorded_ones() {
    let mk = |id: usize, name: &str| Module { id, name: String::from(name), begin: 0, end: 0 };
    let mut b = module_record(0x1000, 0x2000, b"1 new");
    b.extend(module_record(0x3000, 0x4000, b"0 zero"));
    let ms = parse_modules(vec![mk(2, "old2"), mk(1, "old1")], &b, 2).unwrap();
    let names: Vec<&str> = ms.iter().map(|m| m.name.as_str()).collect();
    assert_eq!(names, vec!["zero", "old1", "new", "old2"]);
}
