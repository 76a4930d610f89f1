use daisogen::boot::{StivaleMMEntry, STIVALE2_MMAP_USABLE};
use daisogen::desc::gdt::{
    CodeGDTEntry, DataGDTEntry, Gdt, RealCodeGDTEntry, RealDataGDTEntry, RealTSSGDTEntry,
    TSSGDTEntry, CODE_BASE, DATA_BASE, KCODE,
};
use daisogen::desc::idt::{Gate, Idt, RealGate, WrappedIsrs, EXCEPTION_PF, EXCEPTION_UD};
use daisogen::desc::isr::{after_isr, default_isr, pf_flags, pf_isr, pf_refusal, AfterIsr, PfOutcome};
use daisogen::desc::tss::{ist_top, tss_with_stacks, TSS, TSS_SIZE};
use daisogen::mem::paging::Paging;
use daisogen::mem::pmm::Pmm;
use daisogen::mem::HH;

fn one_region() -> Pmm {
    Pmm::init(&[StivaleMMEntry { base: 0x100000, length: 0x100000, entry_type: STIVALE2_MMAP_USABLE, unused: 0 }])
}

#[test]
fn test_code_descriptor() {
    assert_eq!(RealCodeGDTEntry::new().raw(), CODE_BASE);
    assert_eq!(CODE_BASE, 0x0020_9800_0000_0000);
    let k = CodeGDTEntry { conforming: false, dpl: 0, avl: false }.to_real();
    assert_eq!(k.raw(), 0x0020_9800_0000_0000);
    let u = CodeGDTEntry { conforming: true, dpl: 3, avl: true }.to_real();
    assert_eq!(u.raw(), 0x0020_9800_0000_0000 | (1 << 42) | (3 << 45) | (1 << 52));
}

#[test]
fn test_data_descriptor() {
    assert_eq!(RealDataGDTEntry::new().raw(), DATA_BASE);
    assert_eq!(DataGDTEntry {}.to_real().raw(), 0x0000_9200_0000_0000);
}

#[test]
fn test_tss_descriptor_holds_base() {
    assert_eq!(RealTSSGDTEntry::new().raw(), (0x8900_0000_0068, 0));
    let d = TSSGDTEntry { ptr: 0xFFFF_8000_1234_5678 }.to_real();
    assert_eq!(d.raw(), (0x1200_8934_5678_0068, 0xFFFF_8000));
}

#[test]
fn test_gdt_init_and_add_tss() {
    let mut gdt = Gdt::init();
    assert_eq!(gdt.limit(), 23);
    assert_eq!(gdt.entry(0), 0);
    assert_eq!(gdt.entry(1), CODE_BASE);
    assert_eq!(gdt.entry(2), DATA_BASE);
    assert_eq!(gdt.entry(3), 0);
    assert_eq!(gdt.add_tss(0xFFFF_8000_1234_5678), 24);
    assert_eq!(gdt.entry(3), 0x1200_8934_5678_0068);
    assert_eq!(gdt.entry(4), 0xFFFF_8000);
    assert_eq!(gdt.limit(), 39);
    assert_eq!(gdt.add_tss(0x1000), 40);
    assert_eq!(gdt.limit(), 55);
    assert_eq!(KCODE, 8);
}

#[test]
fn test_gate_holds_handler() {
    let mut g = RealGate::new();
    assert_eq!(g.raw(), 0x8E00_0000_0000);
    g.set_wholeaddr(0xFFFF_8000_0012_3456);
    assert_eq!(g.raw() & 0xFFFF, 0x3456);
    let r = Gate { addr: 0xFFFF_8000_0012_3456, ist: 0 }.to_real().raw();
    assert_eq!(r as u64, 0x0012_8E00_0008_3456);
    assert_eq!((r >> 64) as u64, 0xFFFF_8000);
    let r1 = Gate { addr: 0xFFFF_8000_0012_3456, ist: 1 }.to_real().raw();
    assert_eq!(r1 as u64, 0x0012_8E01_0008_3456);
}

#[test]
fn test_idt_init() {
    let isrs: Vec<u64> = (0..256u64).map(|i| 0xFFFF_8000_0000_1000 + i * 16).collect();
    let mut idt = Idt::init(&isrs, 0xFFFF_8000_0012_3456, 0xFFFF_8000_0055_0000);
    let g0 = Gate { addr: isrs[0], ist: 0 }.to_real().raw();
    assert_eq!(idt.gate(0), (g0 as u64, (g0 >> 64) as u64));
    let g255 = Gate { addr: isrs[255], ist: 0 }.to_real().raw();
    assert_eq!(idt.gate(255), (g255 as u64, (g255 >> 64) as u64));
    assert_eq!(idt.gate(EXCEPTION_UD), (0x0012_8E00_0008_3456, 0xFFFF_8000));
    let pf = Gate { addr: 0xFFFF_8000_0055_0000, ist: 0 }.to_real().raw();
    assert_eq!(idt.gate(EXCEPTION_PF), (pf as u64, (pf >> 64) as u64));
    idt.init2(0xFFFF_8000_0055_0000);
    let pf1 = Gate { addr: 0xFFFF_8000_0055_0000, ist: 1 }.to_real().raw();
    assert_eq!(idt.gate(EXCEPTION_PF), (pf1 as u64, (pf1 >> 64) as u64));
    assert_eq!(Idt::empty().gate(7), (0, 0));
}

#[test]
fn test_idt_set_vector() {
    let mut idt = Idt::empty();
    idt.set_vector(0x20, 0xFFFF_8000_0012_3456, 0);
    assert_eq!(idt.gate(0x20), (0x0012_8E00_0008_3456, 0xFFFF_8000));
    assert_eq!(idt.gate(0x21), (0, 0));
}

#[test]
fn test_tss() {
    let mut t = TSS::new();
    assert_eq!(t.iopb as usize, TSS_SIZE);
    assert_eq!(t.ists, [0; 7]);
    t.set_ist(1, 0x5000);
    assert_eq!(t.ists[1], 0x5000);
    assert_eq!(ist_top(0x10000), 0x14000);
    let mut pmm = one_region();
    let t = tss_with_stacks(&mut pmm).unwrap();
    assert_eq!(t.ists[0], 0x102000 + 0x4000);
    assert_eq!(t.ists[1], 0x106000 + 0x4000);
    assert_eq!(t.ists[2], 0);
    assert_eq!(pmm.alloc_pages(1), Ok(0x10A000));
}

#[test]
fn test_tss_with_stacks_out_of_memory() {
    let mut pmm = Pmm::init(&[StivaleMMEntry { base: 0x100000, length: 0x6000, entry_type: STIVALE2_MMAP_USABLE, unused: 0 }]);
    assert!(tss_with_stacks(&mut pmm).is_err());
}

#[test]
fn test_wrapped_isrs() {
    let mut w = WrappedIsrs::new();
    assert_eq!(w.get_wrapped_isr(0x21), None);
    w.set_wrapped_isr(0x21, 0xABC);
    assert_eq!(w.get_wrapped_isr(0x21), Some(0xABC));
    assert_eq!(default_isr(&w, 0x21), 0xABC);
    assert_eq!(default_isr(&w, 0x121), 0xABC);
    w.set_wrapped_isr(0x21, 0);
    assert_eq!(w.get_wrapped_isr(0x21), None);
}

#[test]
fn test_after_isr() {
    assert_eq!(after_isr(0), AfterIsr::Schedule);
    assert_eq!(after_isr(3), AfterIsr::Resume);
}

#[test]
fn test_pf_flags() {
    assert_eq!(pf_flags(0), Vec::<char>::new());
    assert_eq!(pf_flags(0b10011), vec!['P', 'W', 'I']);
    assert_eq!(pf_flags(0xFF), vec!['P', 'W', 'U', 'R', 'I']);
}

#[test]
fn test_pf_maps_heap_page() {
    let mut pmm = one_region();
    let root = pmm.alloc_pages(1).unwrap();
    let mut pt = Paging::new(root);
    let addr = HH + 0x4000_0000 + 0x1234;
    assert_eq!(pf_refusal(&pt, &pmm, addr, 0b10), None);
    assert_eq!(pf_isr(&mut pt, &mut pmm, addr, 0b10), 0x103000);
    assert_eq!(pt.get_ptr(addr), Some(0x103000));
    // A second fault in the third GiB of the higher half (odd again) too.
    let stack = HH + 3 * 0x4000_0000 + 0x10;
    let page = pf_isr(&mut pt, &mut pmm, stack, 0);
    assert_eq!(pt.get_ptr(stack), Some(page));
}

#[test]
fn test_pf_refuses_other_faults() {
    let mut pmm = one_region();
    let root = pmm.alloc_pages(1).unwrap();
    let mut pt = Paging::new(root);
    assert_eq!(pf_refusal(&pt, &pmm, 0x1000, 0), Some(PfOutcome::Unhandled));
    assert_eq!(pf_refusal(&pt, &pmm, HH + 0x10, 0), Some(PfOutcome::Unhandled));
    assert_eq!(pf_refusal(&pt, &pmm, HH + 0x8000_0000, 0), Some(PfOutcome::Unhandled));
    assert_eq!(pf_refusal(&pt, &pmm, HH + 0x4000_0000, 1), Some(PfOutcome::PresentPage));
    assert_eq!(pf_refusal(&pt, &pmm, HH + 0x4000_0000, 2), None);
    assert_eq!(pt.get_ptr(HH + 0x4000_0000), None);
    assert_eq!(pmm.alloc_pages(1), Ok(0x103000));
}

#[test]
fn test_pf_out_of_memory() {
    let mut pmm = Pmm::init(&[StivaleMMEntry { base: 0x100000, length: 0x2000, entry_type: STIVALE2_MMAP_USABLE, unused: 0 }]);
    let mut pt = Paging::new(0x10000);
    assert_eq!(pf_refusal(&pt, &pmm, HH + 0x4000_0000, 0), Some(PfOutcome::OutOfMemory));
}

#[test]
fn test_tss_image_layout() {
    let mut t = TSS::new();
    t.set_ist(0, 0x1122_3344_5566_7788);
    t.set_ist(6, 0xAA);
    t.rsps[2] = 0x0102_0304_0506_0708;
    let img = t.image();
    assert_eq!(img.len(), TSS_SIZE);
    assert_eq!(&img[0..4], &[0, 0, 0, 0]);
    assert_eq!(&img[20..28], &0x0102_0304_0506_0708u64.to_le_bytes());
    assert_eq!(&img[36..44], &0x1122_3344_5566_7788u64.to_le_bytes());
    assert_eq!(&img[84..92], &0xAAu64.to_le_bytes());
    assert_eq!(&img[100..102], &[0, 0]);
    assert_eq!(&img[102..104], &(TSS_SIZE as u16).to_le_bytes());
}
