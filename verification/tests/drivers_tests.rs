use daisogen::boot::{StivaleMMEntry, STIVALE2_MMAP_USABLE};
use daisogen::drivers::acpi::{
    check_rsdp, checksum, rsdp_error, get, map_rsdp, map_sdtheader, sdt_request, rsdt_entries, AcpiError, SDTHeader,
};
use daisogen::drivers::apic::{
    disable_pic, enable_lapic, irq2gsi, lapic_refusal, madt_error, is_supported, lapic_base, parse_madt, read_redirection,
    redirection_reg, set_irq_redirection, sivr_enabled, unmask, write_redirection, LapicError,
    MadtError, MADT_ISO,
};
use daisogen::drivers::pit::set_frequency;
use daisogen::mem::paging::Paging;
use daisogen::mem::pmm::Pmm;

fn setup() -> (Paging, Pmm) {
    let mut pmm = Pmm::init(&[StivaleMMEntry { base: 0x100000, length: 0x100000, entry_type: STIVALE2_MMAP_USABLE, unused: 0 }]);
    let root = pmm.alloc_pages(1).unwrap();
    (Paging::new(root), pmm)
}

fn header(sig: &[u8; 4], length: u32) -> SDTHeader {
    SDTHeader {
        signature: *sig,
        length,
        revision: 1,
        checksum: 0,
        oemid: [0; 6],
        oemtableid: [0; 8],
        oemrevision: 0,
        creatorid: 0,
        creatorrevision: 0,
    }
}

#[test]
fn test_pit_set_frequency() {
    assert_eq!(set_frequency(1), vec![(0x43, 0x36), (0x40, 0xA9), (0x40, 0x04)]);
    assert_eq!(set_frequency(10), vec![(0x43, 0x36), (0x40, 0x9B), (0x40, 0x2E)]);
}

#[test]
fn test_checksum() {
    assert_eq!(checksum(&[]), 0);
    assert_eq!(checksum(&[1, 2, 3]), 6);
    assert_eq!(checksum(&[0xFF, 0x02]), 1);
}

fn rsdp(rev: u8, rsdt: u32) -> Vec<u8> {
    let mut b = b"RSD PTR ".to_vec();
    b.push(0); // checksum
    b.extend_from_slice(b"OEMID!");
    b.push(rev);
    b.extend_from_slice(&rsdt.to_le_bytes());
    b
}

fn fix_checksum(b: &mut Vec<u8>, len: usize) {
    b[8] = 0;
    let sum: u32 = b[..len].iter().map(|x| *x as u32).sum();
    b[8] = ((256 - (sum % 256)) % 256) as u8;
}

#[test]
fn test_check_rsdp() {
    let mut b = rsdp(0, 0x7FFE_0000);
    fix_checksum(&mut b, 20);
    assert_eq!(checksum(&b[..20]), 0);
    assert_eq!(rsdp_error(&b), None);
    assert_eq!(check_rsdp(&b), 0x7FFE_0000);
    let mut bad = b.clone();
    bad[0] = b'X';
    assert_eq!(rsdp_error(&bad), Some(AcpiError::InvalidSignature));
    let mut badsum = b.clone();
    badsum[8] = badsum[8].wrapping_add(1);
    assert_eq!(rsdp_error(&badsum), Some(AcpiError::InvalidChecksum));
    assert_eq!(rsdp_error(&b[..19]), Some(AcpiError::Truncated));
    let mut r1 = rsdp(1, 0);
    fix_checksum(&mut r1, 20);
    assert_eq!(rsdp_error(&r1), Some(AcpiError::InvalidRevision(1)));
}

#[test]
fn test_check_rsdp_v2() {
    let mut b = rsdp(2, 0x1000);
    b.resize(36, 0);
    fix_checksum(&mut b, 36);
    assert_eq!(rsdp_error(&b), Some(AcpiError::Unsupported));
    assert_eq!(rsdp_error(&b[..30]), Some(AcpiError::Truncated));
    b[8] = b[8].wrapping_add(1);
    assert_eq!(rsdp_error(&b), Some(AcpiError::InvalidChecksum));
}

#[test]
fn test_rsdt_entries() {
    let mut b = vec![0u8; 36];
    b.extend_from_slice(&0x1000u32.to_le_bytes());
    b.extend_from_slice(&0x2000u32.to_le_bytes());
    b.extend_from_slice(&[1, 2]);
    assert_eq!(rsdt_entries(&b, 44), vec![0x1000, 0x2000]);
    assert_eq!(rsdt_entries(&b, 46), vec![0x1000, 0x2000]);
    assert_eq!(rsdt_entries(&b, 36), Vec::<u32>::new());
}

#[test]
fn test_acpi_get() {
    let tables = vec![header(b"FACP", 36), header(b"APIC", 80), header(b"APIC", 90)];
    assert_eq!(get(&tables, b"APIC"), Some(1));
    assert_eq!(get(&tables, b"FACP"), Some(0));
    assert_eq!(get(&tables, b"HPET"), None);
}

#[test]
fn test_map_acpi_tables() {
    let (mut pt, mut pmm) = setup();
    map_rsdp(&mut pt, &mut pmm, 0xE0010);
    assert_eq!(pt.get_ptr(0xE0000), Some(0xE0000));
    assert!(pt.room_for(&pmm, sdt_request(0x7FFF_0F00, 36)));
    map_sdtheader(&mut pt, &mut pmm, 0x7FFF_0F00, 36);
    assert_eq!(pt.get_ptr(0x7FFF_0F00), Some(0x7FFF_0000));
    assert_eq!(pt.get_ptr(0x7FFF_1000), None);
    map_sdtheader(&mut pt, &mut pmm, 0x7FFF_0F00, 0x200);
    assert_eq!(pt.get_ptr(0x7FFF_1000), Some(0x7FFF_1000));
    assert_eq!(pt.get_ptr(0x7FFF_2000), None);
}

fn madt() -> Vec<u8> {
    let mut b = vec![0u8; 0x2C];
    b.extend_from_slice(&[0, 8, 0, 0, 1, 0, 0, 0]);
    b.extend_from_slice(&[0, 8, 1, 1, 1, 0, 0, 0]);
    b.extend_from_slice(&[1, 12, 1, 0]);
    b.extend_from_slice(&0xFEC0_0000u32.to_le_bytes());
    b.extend_from_slice(&0u32.to_le_bytes());
    b.extend_from_slice(&[2, 10, 0, 0]);
    b.extend_from_slice(&2u32.to_le_bytes());
    b.extend_from_slice(&0u16.to_le_bytes());
    b
}

#[test]
fn test_parse_madt() {
    let b = madt();
    let info = parse_madt(&b, b.len() as u32).unwrap();
    assert_eq!(info.ncores, 2);
    let io = info.ioapic.unwrap();
    assert_eq!((io.id, io.address, io.gsibase), (1, 0xFEC0_0000, 0));
    assert_eq!(info.isos, vec![MADT_ISO { bus: 0, irq: 0, gsi: 2, flags: 0 }]);
    // Only the records within the table's length count.
    let first = parse_madt(&b, 0x2C + 8).unwrap();
    assert_eq!(first.ncores, 1);
    assert!(first.ioapic.is_none());
}

#[test]
fn test_parse_madt_errors() {
    let mut b = madt();
    b[0x2C + 1] = 1;
    assert!(matches!(parse_madt(&b, b.len() as u32), Err(MadtError::BadRecordLength)));
    let mut g = madt();
    g[0x2C + 16 + 8] = 1;
    assert_eq!(madt_error(&g, g.len() as u32), Some(MadtError::GsiBaseNotZero));
    let mut two = madt();
    two.extend_from_slice(&[1, 12, 2, 0]);
    two.extend_from_slice(&0xFEC1_0000u32.to_le_bytes());
    two.extend_from_slice(&0u32.to_le_bytes());
    assert_eq!(madt_error(&two, two.len() as u32), Some(MadtError::MultipleIoapics));
    assert_eq!(madt_error(&madt(), madt().len() as u32), None);
    let t = madt();
    assert!(matches!(parse_madt(&t[..t.len() - 4], t.len() as u32), Err(MadtError::Truncated)));
}

#[test]
fn test_irq_redirection() {
    let isos = vec![MADT_ISO { bus: 0, irq: 0, gsi: 2, flags: 0 }, MADT_ISO { bus: 0, irq: 9, gsi: 9, flags: 0xA }];
    assert_eq!(irq2gsi(&isos, 0), (2, false, false));
    assert_eq!(irq2gsi(&isos, 9), (9, true, true));
    assert_eq!(irq2gsi(&isos, 1), (1, true, true));
    assert_eq!(set_irq_redirection(&isos, 3, 0x20, 1), (1, 0x0300_0000_0001_A020));
    assert_eq!(set_irq_redirection(&isos, 0, 0x30, 0), (2, 0x1_0030));
    assert_eq!(redirection_reg(2, 0), 20);
    assert_eq!(write_redirection(2, 0, 0x1234_5678_9ABC_DEF0), vec![(20, 0x9ABC_DEF0), (21, 0x1234_5678)]);
    assert_eq!(read_redirection(0x9ABC_DEF0, 0x1234_5678), 0x1234_5678_9ABC_DEF0);
    assert_eq!(unmask(0x1_A020), 0xA020);
}

#[test]
fn test_disable_pic_once() {
    let mut disabled = false;
    assert_eq!(disable_pic(&mut disabled), vec![(0xA1, 0xFF), (0x21, 0xFF)]);
    assert!(disabled);
    assert_eq!(disable_pic(&mut disabled), vec![]);
}

#[test]
fn test_lapic_bits() {
    assert!(is_supported(1 << 9));
    assert!(!is_supported(!(1 << 9)));
    assert_eq!(lapic_base(0xFEE0_0000), 0xFEE0_0800);
    assert_eq!(sivr_enabled(0xFF), 0x1FF);
}

#[test]
fn test_enable_lapic() {
    let (mut pt, mut pmm) = setup();
    let mut mapped = false;
    assert_eq!(lapic_refusal(&pt, &pmm, 0xFEE0_0900, mapped), None);
    assert_eq!(enable_lapic(&mut pt, &mut pmm, 0xFEE0_0900, &mut mapped), 0xFEE0_0900);
    assert!(mapped);
    assert_eq!(pt.get_ptr(0xFEE0_0000), Some(0xFEE0_0000));
    assert_eq!(enable_lapic(&mut pt, &mut pmm, 0xFEE0_0000, &mut mapped), 0xFEE0_0800);
}

#[test]
fn test_enable_lapic_errors() {
    let (mut pt, mut pmm) = setup();
    let mut mapped = false;
    assert_eq!(lapic_refusal(&pt, &pmm, 0xFED0_0000, mapped), Some(LapicError::WeirdAddress));
    assert_eq!(lapic_refusal(&pt, &pmm, 0xFEE0_0000, mapped), None);
    assert_eq!(pt.map(&mut pmm, Paging::newmap(0xFEE0_0000, 0x5000)), Ok(()));
    assert_eq!(lapic_refusal(&pt, &pmm, 0xFEE0_0000, mapped), Some(LapicError::AddressInUse));
    assert_eq!(lapic_refusal(&pt, &pmm, 0xFEE0_0000, true), None);
    assert!(!mapped);
}

#[test]
fn test_lapic_refused_without_memory() {
    let (pt, mut pmm) = setup();
    while pmm.alloc_pages(1).is_ok() {}
    assert_eq!(lapic_refusal(&pt, &pmm, 0xFEE0_0000, false), Some(LapicError::OutOfMemory));
    assert!(!pt.room_for(&pmm, sdt_request(0x7FFF_0F00, 36)));
}
