use daisogen::boot::{StivaleMMEntry, STIVALE2_MMAP_USABLE};
use daisogen::collections::PageMap;
use daisogen::mem::paging::Paging;
use daisogen::mem::pmm::Pmm;
use daisogen::mem::HH;
use daisogen::tasks::elf::{Rela, Segment, PT_LOAD, R_X86_64_GLOB_DAT, R_X86_64_RELATIVE};
use daisogen::tasks::loader::{
    load, parse, plan_segments, relocation_target, relocation_value, solve_relocations, CopyOp,
    LoaderError,
};
use daisogen::tasks::Tasks;

fn one_region() -> Pmm {
    Pmm::init(&[StivaleMMEntry { base: 0x100000, length: 0x100000, entry_type: STIVALE2_MMAP_USABLE, unused: 0 }])
}

fn put16(b: &mut Vec<u8>, v: u16) {
    b.extend_from_slice(&v.to_le_bytes());
}
fn put32(b: &mut Vec<u8>, v: u32) {
    b.extend_from_slice(&v.to_le_bytes());
}
fn put64(b: &mut Vec<u8>, v: u64) {
    b.extend_from_slice(&v.to_le_bytes());
}

fn shdr(b: &mut Vec<u8>, ty: u32, off: u64, size: u64, link: u32, entsize: u64) {
    put32(b, 0);
    put32(b, ty);
    put64(b, 0);
    put64(b, 0);
    put64(b, off);
    put64(b, size);
    put32(b, link);
    put32(b, 0);
    put64(b, 8);
    put64(b, entsize);
}

/// A small position-independent ELF file: one loadable segment (the whole file, at
/// address 0, 0x1800 bytes in memory), two relocations, and a dynamic symbol table whose
/// symbol 1 is worth 0x1234.
fn elf(phdrs: bool, sections: bool, dynsym: bool, relas: &[(u64, u32, u32, i64)]) -> Vec<u8> {
    let nrela = relas.len() as u64;
    let rela_off = 120u64;
    let dynsym_off = rela_off + 24 * nrela;
    let dynstr_off = dynsym_off + 48;
    let shoff = dynstr_off + 8;
    let nsh: u16 = if dynsym { 4 } else { 2 };
    let total = shoff + 64 * nsh as u64;
    let mut b = vec![0x7F, b'E', b'L', b'F', 2, 1, 1, 0, 0, 0, 0, 0, 0, 0, 0, 0];
    put16(&mut b, 3);
    put16(&mut b, 0x3E);
    put32(&mut b, 1);
    put64(&mut b, 0x40);
    put64(&mut b, if phdrs { 64 } else { 0 });
    put64(&mut b, if sections { shoff } else { 0 });
    put32(&mut b, 0);
    put16(&mut b, 64);
    put16(&mut b, 56);
    put16(&mut b, 1);
    put16(&mut b, 64);
    put16(&mut b, nsh);
    put16(&mut b, 0);
    assert_eq!(b.len(), 64);
    put32(&mut b, 1);
    put32(&mut b, 5);
    put64(&mut b, 0);
    put64(&mut b, 0);
    put64(&mut b, 0);
    put64(&mut b, total);
    put64(&mut b, 0x1800);
    put64(&mut b, 0x1000);
    assert_eq!(b.len() as u64, rela_off);
    for (off, sym, ty, addend) in relas {
        put64(&mut b, *off);
        put64(&mut b, ((*sym as u64) << 32) | *ty as u64);
        b.extend_from_slice(&addend.to_le_bytes());
    }
    b.extend_from_slice(&[0u8; 24]);
    put32(&mut b, 1);
    b.push(0x12);
    b.push(0);
    put16(&mut b, 1);
    put64(&mut b, 0x1234);
    put64(&mut b, 0);
    b.extend_from_slice(b"\0f\0\0\0\0\0\0");
    assert_eq!(b.len() as u64, shoff);
    shdr(&mut b, 0, 0, 0, 0, 0);
    shdr(&mut b, 4, rela_off, 24 * nrela, if dynsym { 2 } else { 0 }, 24);
    if dynsym {
        shdr(&mut b, 11, dynsym_off, 48, 3, 24);
        shdr(&mut b, 3, dynstr_off, 3, 0, 0);
    }
    assert_eq!(b.len() as u64, total);
    b
}

fn good_relas() -> Vec<(u64, u32, u32, i64)> {
    vec![(0x1008, 0, R_X86_64_RELATIVE, 0x100), (0x1010, 1, R_X86_64_GLOB_DAT, 0)]
}

#[test]
fn test_parse_places_pages_and_copies() {
    let data = elf(true, true, true, &good_relas());
    let mut pmm = one_region();
    let info = parse(&mut pmm, &data).unwrap();
    assert_eq!(info.entry, 0x40);
    assert_eq!(info.base, None);
    assert_eq!(info.pages.get(0), Some(0x102000));
    assert_eq!(info.pages.get(0x1000), Some(0x103000));
    assert_eq!(info.pages.get(0x2000), None);
    assert_eq!(info.copies, vec![CopyOp { dst: 0x102000, src: 0, n: data.len() as u64 }]);
    assert_eq!(pmm.alloc_pages(1), Ok(0x104000));
}

#[test]
fn test_parse_errors() {
    let mut pmm = one_region();
    assert_eq!(parse(&mut pmm, b"not an elf file at all").err(), Some(LoaderError::Malformed));
    let data = elf(false, true, true, &good_relas());
    assert_eq!(parse(&mut pmm, &data).err(), Some(LoaderError::NoPHDRs));
    let data = elf(true, true, true, &good_relas());
    assert_eq!(parse(&mut pmm, &data[..data.len() - 64]).err(), Some(LoaderError::Malformed));
    let mut tiny = Pmm::init(&[StivaleMMEntry { base: 0x100000, length: 0x3000, entry_type: STIVALE2_MMAP_USABLE, unused: 0 }]);
    assert_eq!(parse(&mut tiny, &data).err(), Some(LoaderError::OOM));
    // The page taken before memory ran out was given back.
    assert_eq!(tiny.alloc_pages(1), Ok(0x102000));
}

#[test]
fn test_plan_segments() {
    let mut pmm = one_region();
    let segs = [
        Segment { p_type: PT_LOAD, p_offset: 0x10, p_vaddr: 0xFF8, p_filesz: 0x10, p_memsz: 0x20 },
        Segment { p_type: 2, p_offset: 0, p_vaddr: 0x9000, p_filesz: 0, p_memsz: 0x10 },
        Segment { p_type: PT_LOAD, p_offset: 0x100, p_vaddr: 0x1100, p_filesz: 0x8, p_memsz: 0x8 },
    ];
    let (pages, copies) = plan_segments(&mut pmm, &segs, 0x200).unwrap();
    assert_eq!(pages.get(0), Some(0x102000));
    assert_eq!(pages.get(0x1000), Some(0x103000));
    assert_eq!(pages.get(0x9000), None);
    assert_eq!(
        copies,
        vec![
            CopyOp { dst: 0x102FF8, src: 0x10, n: 8 },
            CopyOp { dst: 0x103000, src: 0x18, n: 8 },
            CopyOp { dst: 0x103100, src: 0x100, n: 8 },
        ]
    );
    assert_eq!(pmm.alloc_pages(1), Ok(0x104000));
}

#[test]
fn test_plan_segments_out_of_range() {
    let mut pmm = one_region();
    let past_file = [Segment { p_type: PT_LOAD, p_offset: 0x100, p_vaddr: 0, p_filesz: 0x101, p_memsz: 0x200 }];
    assert_eq!(plan_segments(&mut pmm, &past_file, 0x200).err(), Some(LoaderError::OutOfRange));
    let top = [Segment { p_type: PT_LOAD, p_offset: 0, p_vaddr: u64::MAX - 0x1000, p_filesz: 0, p_memsz: 0x10 }];
    assert_eq!(plan_segments(&mut pmm, &top, 0x200).err(), Some(LoaderError::OutOfRange));
    // Nothing was allocated.
    assert_eq!(pmm.alloc_pages(1), Ok(0x102000));
}

#[test]
fn test_relocation_value() {
    let rel = Rela { r_offset: 0, r_sym: 0, r_type: R_X86_64_RELATIVE, r_addend: 0x10 };
    assert_eq!(relocation_value(0x1000, &rel, Err(())), Ok(0x1010));
    let neg = Rela { r_addend: -0x10, ..rel };
    assert_eq!(relocation_value(0x1000, &neg, Ok(None)), Ok(0xFF0));
    let glob = Rela { r_offset: 0, r_sym: 3, r_type: R_X86_64_GLOB_DAT, r_addend: 0 };
    assert_eq!(relocation_value(0x1000, &glob, Ok(Some(0x77))), Ok(0x77));
    assert_eq!(relocation_value(0x1000, &glob, Ok(None)), Err(LoaderError::NoSymbols));
    assert_eq!(relocation_value(0x1000, &glob, Err(())), Err(LoaderError::Malformed));
    let other = Rela { r_type: 7, ..glob };
    assert_eq!(relocation_value(0x1000, &other, Ok(Some(1))), Err(LoaderError::EnigmaRelocation));
}

#[test]
fn test_relocation_target() {
    let mut pages = PageMap::new();
    pages.insert(0x1000, 0x7000);
    assert_eq!(relocation_target(&pages, 0x1010), Ok(0x7010));
    assert_eq!(relocation_target(&pages, 0x1004), Err(LoaderError::Unaligned));
    assert_eq!(relocation_target(&pages, 0x2000), Err(LoaderError::OutOfRange));
}

#[test]
fn test_solve_relocations() {
    let data = elf(true, true, true, &good_relas());
    let mut pmm = one_region();
    let mut info = parse(&mut pmm, &data).unwrap();
    info.base = Some(0xFFFF_8000_8000_0000);
    let mut writes = Vec::new();
    assert_eq!(solve_relocations(&info, &data, &mut writes), Ok(()));
    assert_eq!(writes, vec![(0x103008, 0xFFFF_8000_8000_0100), (0x103010, 0x1234)]);
}

#[test]
fn test_solve_relocations_errors() {
    let mut pmm = one_region();
    let cases: Vec<(Vec<u8>, LoaderError)> = vec![
        (elf(true, true, true, &[(0x1008, 0, 7, 0)]), LoaderError::EnigmaRelocation),
        (elf(true, true, true, &[(0x5008, 0, R_X86_64_RELATIVE, 0)]), LoaderError::OutOfRange),
        (elf(true, true, true, &[(0x1004, 0, R_X86_64_RELATIVE, 0)]), LoaderError::Unaligned),
        (elf(true, true, false, &[(0x1008, 1, R_X86_64_GLOB_DAT, 0)]), LoaderError::NoSymbols),
        (elf(true, true, true, &[(0x1008, 9, R_X86_64_GLOB_DAT, 0)]), LoaderError::Malformed),
        (elf(true, false, true, &good_relas()), LoaderError::NoSections),
    ];
    for (data, err) in cases {
        let mut info = parse(&mut pmm, &data).unwrap();
        info.base = Some(HH);
        let mut writes = Vec::new();
        assert_eq!(solve_relocations(&info, &data, &mut writes).err(), Some(err));
        assert!(writes.is_empty());
    }
}

#[test]
fn test_load_program() {
    let data = elf(true, true, true, &good_relas());
    let mut pmm = one_region();
    let root = pmm.alloc_pages(1).unwrap();
    let mut pt = Paging::new(root);
    let mut tasks = Tasks::new();
    let loaded = load(&mut tasks, &mut pt, &mut pmm, &data, &mut None).unwrap();
    let base = HH + 0x8000_0000;
    assert_eq!(loaded.pid, 1);
    assert_eq!(loaded.info.base, Some(base));
    assert_eq!(loaded.info.copies, vec![CopyOp { dst: 0x103000, src: 0, n: data.len() as u64 }]);
    assert_eq!(loaded.writes, vec![(0x104008, base + 0x100), (0x104010, 0x1234)]);
    assert_eq!(loaded.mappings.len(), 2);
    assert_eq!(pt.get_ptr(base), Some(0x103000));
    assert_eq!(pt.get_ptr(base + 0x1000), Some(0x104000));
    assert_eq!(pt.get_ptr(base + 0x2000), None);
    assert_eq!(tasks.get_task(1).rip, base + 0x40);
    assert_eq!(tasks.get_task(1).rsp, base + 0x8000_0000);
    // The next program gets the next PID and the next 2 GiB.
    let second = load(&mut tasks, &mut pt, &mut pmm, &data, &mut None).unwrap();
    assert_eq!(second.pid, 2);
    assert_eq!(second.info.base, Some(HH + 0x1_0000_0000));
}

#[test]
fn test_load_errors() {
    let mut pmm = one_region();
    let root = pmm.alloc_pages(1).unwrap();
    let mut pt = Paging::new(root);
    let mut tasks = Tasks::new();
    let mut left = None;
    assert_eq!(load(&mut tasks, &mut pt, &mut pmm, b"\x7fELF", &mut left).err(), Some(LoaderError::Malformed));
    assert!(left.is_none());
    let bad = elf(true, true, true, &[(0x1008, 0, R_X86_64_RELATIVE, 0x10), (0x1010, 0, 7, 0)]);
    assert_eq!(load(&mut tasks, &mut pt, &mut pmm, &bad, &mut left).err(), Some(LoaderError::EnigmaRelocation));
    // The program's pages stay, with the write made before the failing relocation.
    let lo = left.unwrap();
    assert_eq!(lo.writes.len(), 1);
    assert_eq!(lo.writes[0].1, HH + 0x8000_0000 + 0x10);
    assert_eq!(lo.info.pages.entries().len(), 2);
}

#[test]
fn test_loader_error_messages() {
    assert_eq!(LoaderError::NoPHDRs.message(), "No program headers");
    assert_eq!(LoaderError::OOM.message(), "Out of memory");
    assert_eq!(LoaderError::Unaligned.message(), "Unaligned address");
}

#[test]
fn test_solve_relocations_keeps_writes_before_failure() {
    let data = elf(true, true, true, &[(0x1008, 0, R_X86_64_RELATIVE, 0x100), (0x1004, 0, R_X86_64_RELATIVE, 0)]);
    let mut pmm = one_region();
    let mut info = parse(&mut pmm, &data).unwrap();
    info.base = Some(HH);
    let mut writes = Vec::new();
    assert_eq!(solve_relocations(&info, &data, &mut writes), Err(LoaderError::Unaligned));
    assert_eq!(writes, vec![(0x103008, HH + 0x100)]);
}

/// A manager of one region with exactly `n` pages free (besides the root table's).
fn tight(n: usize) -> (Pmm, Paging) {
    let mut pmm = one_region();
    let root = pmm.alloc_pages(1).unwrap();
    let pt = Paging::new(root);
    let mut taken = Vec::new();
    while let Ok(p) = pmm.alloc_pages(1) {
        taken.push(p);
    }
    for p in taken.iter().rev().take(n) {
        pmm.free(*p, 1);
    }
    (pmm, pt)
}

#[test]
fn test_load_needs_exactly_pages_and_tables() {
    let data = elf(true, true, true, &good_relas());
    // Two program pages, and a PDP, a PD and a PT for them: five pages in all.
    let (mut pmm, mut pt) = tight(5);
    let mut tasks = Tasks::new();
    assert!(load(&mut tasks, &mut pt, &mut pmm, &data, &mut None).is_ok());
    assert!(pmm.alloc_pages(1).is_err());

    let (mut pmm, mut pt) = tight(4);
    let mut tasks = Tasks::new();
    assert_eq!(load(&mut tasks, &mut pt, &mut pmm, &data, &mut None).err(), Some(LoaderError::OOM));
    assert_eq!(pt.get_ptr(HH + 0x8000_0000), None);
}
