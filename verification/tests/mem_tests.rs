use daisogen::boot::{
    StivaleMMEntry, STIVALE2_MMAP_BOOTLOADER_RECLAIMABLE, STIVALE2_MMAP_KERNEL_AND_MODULES,
    STIVALE2_MMAP_USABLE,
};
use daisogen::mem::bitmap::Bitmap;
use daisogen::mem::entries::{PDPE, PML4E, PTE};
use daisogen::mem::kspace::{
    efer_with_nx, init_kernel_paging, kernel_maps, kernel_paging_fits, new_tables, map_all_exec, map_stack, phys_of, stack_fits, FRAMEBUFFER,
    NEW_STACK_BASE,
};
use daisogen::mem::paging::{get_indices, Mapping, Paging};
use daisogen::mem::pmm::Pmm;
use daisogen::pd::{map_pd_start, pd_start_refusal, PdStartError, PD_START};
use daisogen::mem::{npages, page, pageoff, HH, PAGE_SIZE};

fn entry(base: u64, length: u64, entry_type: u32) -> StivaleMMEntry {
    StivaleMMEntry { base, length, entry_type, unused: 0 }
}

/// One usable megabyte at 1 MiB: 256 pages, the first holding the region's bitmap, the
/// second the list of regions; 254 are free, from 0x102000 on.
fn one_region() -> Pmm {
    Pmm::init(&[entry(0x100000, 0x100000, STIVALE2_MMAP_USABLE)])
}

#[test]
fn test_npages_rounds_up() {
    assert_eq!(npages(0), 0);
    assert_eq!(npages(1), 1);
    assert_eq!(npages(4096), 1);
    assert_eq!(npages(4097), 2);
    assert_eq!(npages(16384), 4);
}

#[test]
fn test_page_and_pageoff() {
    assert_eq!(page(0x12345), 0x12000);
    assert_eq!(pageoff(0x12345), 0x345);
    assert_eq!(page(0x1000), 0x1000);
    assert_eq!(pageoff(0x1000), 0);
    assert_eq!(PAGE_SIZE, 4096);
}

#[test]
fn test_bitmap_set_get() {
    let mut b = Bitmap::new(10);
    assert_eq!(b.len(), 10);
    assert_eq!(b.get(3), Ok(false));
    assert_eq!(b.set(3, true), Ok(()));
    assert_eq!(b.get(3), Ok(true));
    assert_eq!(b.get(2), Ok(false));
    assert_eq!(b.get(4), Ok(false));
    assert_eq!(b.set(3, false), Ok(()));
    assert_eq!(b.get(3), Ok(false));
}

#[test]
fn test_bitmap_out_of_range() {
    let mut b = Bitmap::new(10);
    assert_eq!(b.get(10), Err(()));
    assert_eq!(b.set(10, true), Err(()));
    assert_eq!(b.get(9), Ok(false));
}

#[test]
fn test_pmm_init_one_region() {
    let mut pmm = one_region();
    assert_eq!(pmm.nregions(), 1);
    assert_eq!(pmm.alloc_pages(1), Ok(0x102000));
    assert_eq!(pmm.alloc_pages(2), Ok(0x103000));
    assert_eq!(pmm.alloc_pages(1), Ok(0x105000));
}

#[test]
fn test_pmm_skips_unusable_entries() {
    let mut pmm = Pmm::init(&[
        entry(0x0, 0x100000, 2),
        entry(0x180000, 0x1000, STIVALE2_MMAP_USABLE),
        entry(0x200000, 0x10000, STIVALE2_MMAP_USABLE),
    ]);
    assert_eq!(pmm.nregions(), 1);
    assert_eq!(pmm.alloc_pages(1), Ok(0x202000));
}

#[test]
fn test_pmm_free_undoes_alloc() {
    let mut pmm = one_region();
    let a = pmm.alloc_pages(3).unwrap();
    assert_eq!(a, 0x102000);
    pmm.free(a, 3);
    assert_eq!(pmm.alloc_pages(3), Ok(a));
}

#[test]
fn test_pmm_free_makes_room_first_fit() {
    let mut pmm = one_region();
    let a = pmm.alloc_pages(1).unwrap();
    let b = pmm.alloc_pages(1).unwrap();
    assert_eq!(b, a + 0x1000);
    pmm.free(a, 1);
    assert_eq!(pmm.alloc_pages(1), Ok(a));
    assert_eq!(pmm.alloc_pages(1), Ok(b + 0x1000));
}

#[test]
fn test_pmm_exhaustion() {
    let mut pmm = one_region();
    assert_eq!(pmm.alloc_pages(255), Err(()));
    assert_eq!(pmm.alloc_pages(254), Ok(0x102000));
    assert_eq!(pmm.alloc_pages(1), Err(()));
    assert_eq!(pmm.calloc(1), Err(()));
}

#[test]
fn test_pmm_calloc_like_alloc() {
    let mut pmm = one_region();
    assert_eq!(pmm.calloc(2), Ok(0x102000));
    assert_eq!(pmm.calloc(1), Ok(0x104000));
}

#[test]
fn test_pmm_two_regions() {
    let mut pmm = Pmm::init(&[
        entry(0x100000, 0x4000, STIVALE2_MMAP_USABLE),
        entry(0x400000, 0x10000, STIVALE2_MMAP_USABLE),
    ]);
    assert_eq!(pmm.nregions(), 2);
    // First region: 4 pages, one for its bitmap, one for the list of regions.
    assert_eq!(pmm.alloc_pages(2), Ok(0x102000));
    // Three pages do not fit in the first region any more: the second gives them.
    assert_eq!(pmm.alloc_pages(3), Ok(0x401000));
}

#[test]
fn test_get_indices() {
    assert_eq!(get_indices(0xFFFF_8000_0040_1000), (256, 0, 2, 1));
    assert_eq!(get_indices(0), (0, 0, 0, 0));
}

#[test]
fn test_entries_bits() {
    let e = PML4E::new();
    assert_eq!(e.0, 3);
    assert!(e.get_present());
    let mut d = PDPE::new();
    d.set_ptr(0x1234);
    assert_eq!(d.get_ptr(), 0x1234);
    assert_eq!(d.0 >> 12, 0x1234);
    d.set_present(false);
    assert!(!d.get_present());
    let mut t = PTE::new();
    t.set_nx(true);
    assert_eq!(t.0 >> 63, 1);
    t.set_global(true);
    assert_eq!((t.0 >> 8) & 1, 1);
    t.set_rw(false);
    assert_eq!((t.0 >> 1) & 1, 0);
    t.set_user(true);
    assert_eq!((t.0 >> 2) & 1, 1);
    t.set_pcd(true);
    assert_eq!((t.0 >> 4) & 1, 1);
}

#[test]
fn test_paging_lookup_after_map() {
    let mut pmm = one_region();
    let root = pmm.alloc_pages(1).unwrap();
    let mut pt = Paging::new(root);
    assert_eq!(pt.load(), root);
    assert_eq!(pt.get_ptr(0x400000), None);
    let m = Paging::newmap(0x400000, 0x1234000);
    assert_eq!(pt.map(&mut pmm, m), Ok(()));
    assert_eq!(pt.get_ptr(0x400000), Some(0x1234000));
    assert_eq!(pt.get_ptr(0x400123), Some(0x1234000));
    assert_eq!(pt.get_ptr(0x401000), None);
    // Three tables were taken for the new path.
    assert_eq!(pmm.alloc_pages(1), Ok(0x106000));
    // A second page in the same table takes no new table, and the first keeps its page.
    assert_eq!(pt.map(&mut pmm, Paging::newmap(0x401000, 0x5555000)), Ok(()));
    assert_eq!(pt.get_ptr(0x401000), Some(0x5555000));
    assert_eq!(pt.get_ptr(0x400000), Some(0x1234000));
    assert_eq!(pmm.alloc_pages(1), Ok(0x107000));
    // Mapping again replaces.
    assert_eq!(pt.map(&mut pmm, Paging::newmap(0x400000, 0x9999000)), Ok(()));
    assert_eq!(pt.get_ptr(0x400000), Some(0x9999000));
}

#[test]
fn test_paging_map_several_pages() {
    let mut pmm = one_region();
    let root = pmm.alloc_pages(1).unwrap();
    let mut pt = Paging::new(root);
    let mut m = Paging::newmap(0x800000, 0x2000000);
    m.npages = 3;
    assert_eq!(pt.map(&mut pmm, m), Ok(()));
    assert_eq!(pt.get_ptr(0x800000), Some(0x2000000));
    assert_eq!(pt.get_ptr(0x802fff), Some(0x2002000));
    assert_eq!(pt.get_ptr(0x803000), None);
    let mut one = Paging::newmap(0x7FF000, 0x3000000);
    one.ro = true;
    assert_eq!(pt.map_one(&mut pmm, one), Ok(()));
    assert_eq!(pt.get_ptr(0x7FF000), Some(0x3000000));
}

#[test]
fn test_paging_map_fails_without_memory() {
    // Two pages: one for the bitmap, one for the list of regions; none left for tables.
    let mut pmm = Pmm::init(&[entry(0x100000, 0x2000, STIVALE2_MMAP_USABLE)]);
    let mut pt = Paging::new(0x10000);
    assert_eq!(pt.map(&mut pmm, Paging::newmap(0x400000, 0x1000)), Err(()));
    assert_eq!(pt.get_ptr(0x400000), None);
}

#[test]
fn test_newmap_defaults() {
    let m: Mapping = Paging::newmap(0x1000, 0x2000);
    assert_eq!((m.virt, m.phys, m.npages), (0x1000, 0x2000, 1));
    assert!(!m.global && !m.ro && !m.nx && !m.pcd);
}

#[test]
fn test_efer_with_nx() {
    assert_eq!(efer_with_nx(0), 0x800);
    assert_eq!(efer_with_nx(0x501), 0xD01);
}

#[test]
fn test_kernel_maps() {
    let es = [
        entry(0x100000, 0x100000, STIVALE2_MMAP_USABLE),
        entry(0x300000, 0x2000, 2),
        entry(0x400000, 0x3001, STIVALE2_MMAP_KERNEL_AND_MODULES),
        entry(0x500000, 0x1000, STIVALE2_MMAP_BOOTLOADER_RECLAIMABLE),
    ];
    let ms = kernel_maps(&es);
    assert_eq!(ms.len(), 4);
    assert_eq!((ms[0].virt, ms[0].phys, ms[0].npages), (FRAMEBUFFER, FRAMEBUFFER, 1));
    assert_eq!((ms[1].virt, ms[1].phys, ms[1].npages), (0x100000, 0x100000, 256));
    assert_eq!((ms[2].virt, ms[2].phys, ms[2].npages), (HH + 0x400000, 0x400000, 4));
    assert_eq!((ms[3].virt, ms[3].phys, ms[3].npages), (0x500000, 0x500000, 1));
}

#[test]
fn test_init_kernel_paging_and_phys_of() {
    let es = [
        entry(0x100000, 0x100000, STIVALE2_MMAP_USABLE),
        entry(0x400000, 0x2000, STIVALE2_MMAP_KERNEL_AND_MODULES),
    ];
    let mut pmm = Pmm::init(&es);
    let root = pmm.alloc_pages(1).unwrap();
    let mut pt = Paging::new(root);
    assert!(kernel_paging_fits(&pt, &pmm, &es));
    init_kernel_paging(&mut pt, &mut pmm, &es);
    assert_eq!(pt.get_ptr(FRAMEBUFFER), Some(FRAMEBUFFER));
    assert_eq!(pt.get_ptr(0x1ff000), Some(0x1ff000));
    assert_eq!(pt.get_ptr(HH + 0x401000), Some(0x401000));
    assert_eq!(pt.get_ptr(HH + 0x402000), None);
    assert_eq!(phys_of(&pt, (HH + 0x401234) as usize), 0x401000);
    assert_eq!(phys_of(&pt, 0x7000_0000), 0);
}

#[test]
fn test_map_all_exec_in_order() {
    let mut pmm = one_region();
    let root = pmm.alloc_pages(1).unwrap();
    let mut pt = Paging::new(root);
    let ms = vec![Paging::newmap(0x1000, 0xA000), Paging::newmap(0x1000, 0xB000)];
    assert_eq!(map_all_exec(&mut pt, &mut pmm, &ms), Ok(()));
    assert_eq!(pt.get_ptr(0x1000), Some(0xB000));
}

#[test]
fn test_map_stack() {
    let mut pmm = one_region();
    let root = pmm.alloc_pages(1).unwrap();
    let mut pt = Paging::new(root);
    let mut m = Paging::newmap(0x300000, 0x7000000);
    m.npages = 4;
    assert_eq!(pt.map(&mut pmm, m), Ok(()));
    assert!(stack_fits(&pt, &pmm, 0x300000));
    assert!(!stack_fits(&pt, &pmm, 0x900000));
    assert_eq!(map_stack(&mut pt, &mut pmm, 0x300000), NEW_STACK_BASE);
    assert_eq!(NEW_STACK_BASE, HH + 0x8000_0000 - 16384);
    assert_eq!(pt.get_ptr(NEW_STACK_BASE), Some(0x7000000));
    assert_eq!(pt.get_ptr(NEW_STACK_BASE + 0x3000), Some(0x7003000));
}


#[test]
fn test_map_stack_needs_memory_for_tables() {
    let mut pmm = one_region();
    let root = pmm.alloc_pages(1).unwrap();
    let mut pt = Paging::new(root);
    let mut m = Paging::newmap(0x300000, 0x7000000);
    m.npages = 4;
    assert_eq!(pt.map(&mut pmm, m), Ok(()));
    while pmm.alloc_pages(1).is_ok() {}
    assert!(!stack_fits(&pt, &pmm, 0x300000));
}

#[test]
fn test_pmm_free_outside_regions_changes_nothing() {
    let mut pmm = one_region();
    pmm.free(0x5000_0000, 1);
    assert_eq!(pmm.alloc_pages(1), Ok(0x102000));
    // Freeing past the end of the region stops at its end.
    let a = pmm.alloc_pages(253).unwrap();
    assert_eq!(a, 0x103000);
    pmm.free(0x1FF000, 5);
    assert_eq!(pmm.alloc_pages(1), Ok(0x1FF000));
    assert_eq!(pmm.alloc_pages(1), Err(()));
}

#[test]
fn test_map_pd_start_maps_a_fresh_page() {
    let mut pmm = one_region();
    let root = pmm.alloc_pages(1).unwrap();
    let mut pt = Paging::new(root);
    assert_eq!(pd_start_refusal(&pt, &pmm), None);
    let page = map_pd_start(&mut pt, &mut pmm);
    assert_eq!(pt.get_ptr(PD_START), Some(page));
    assert_eq!(pd_start_refusal(&pt, &pmm), Some(PdStartError::AlreadyMapped));
}

#[test]
fn test_map_pd_start_without_memory() {
    let mut pmm = one_region();
    let root = pmm.alloc_pages(1).unwrap();
    let mut pt = Paging::new(root);
    while pmm.alloc_pages(1).is_ok() {}
    assert_eq!(pd_start_refusal(&pt, &pmm), Some(PdStartError::NoMemory));
    assert_eq!(pt.get_ptr(PD_START), None);
}

#[test]
fn test_map_pd_start_without_memory_for_tables() {
    let mut pmm = one_region();
    let root = pmm.alloc_pages(1).unwrap();
    let mut pt = Paging::new(root);
    // Leave exactly one page free: the directory's page, but none for its tables.
    let mut last = None;
    while let Ok(p) = pmm.alloc_pages(1) {
        last = Some(p);
    }
    pmm.free(last.unwrap(), 1);
    assert_eq!(pd_start_refusal(&pt, &pmm), Some(PdStartError::MapFailed));
    assert_eq!(pt.get_ptr(PD_START), None);
}

#[test]
fn test_free_gives_back_exactly_an_allocation() {
    let mut pmm = one_region();
    let a = pmm.alloc_pages(3).unwrap();
    let b = pmm.alloc_pages(1).unwrap();
    assert_eq!(b, a + 3 * 4096);
    pmm.free(a, 3);
    // The three pages are free again, the one after them is not.
    assert_eq!(pmm.alloc_pages(3), Ok(a));
    let c = pmm.alloc_pages(1).unwrap();
    assert_ne!(c, b);
}

#[test]
fn test_kernel_paging_needs_memory() {
    // A region of three pages: after its own bookkeeping and the root table, not
    // enough is left for the tables of the framebuffer's mapping.
    let es = [entry(0x100000, 0x3000, STIVALE2_MMAP_USABLE)];
    let mut pmm = Pmm::init(&es);
    assert!(pmm.fit_for_tables());
    let pt = new_tables(&mut pmm).unwrap();
    let free_before = pmm.can_alloc_pages_one_by_one(1);
    assert!(!kernel_paging_fits(&pt, &pmm, &es));
    // The check leaves the manager as it was.
    assert_eq!(pmm.can_alloc_pages_one_by_one(1), free_before);
    assert!(!pmm.can_alloc_pages_one_by_one(3));
}

#[test]
fn test_paging_tables_missing() {
    let mut pmm = one_region();
    let mut pt = new_tables(&mut pmm).unwrap();
    assert_eq!(pt.tables_missing(0x1000), 3);
    assert_eq!(pt.map(&mut pmm, Paging::newmap(0x1000, 0x5000)), Ok(()));
    assert_eq!(pt.tables_missing(0x2000), 0);
    assert_eq!(pt.tables_missing(0x4000_0000), 2);
    assert_eq!(pt.tables_missing(0x20_0000), 1);
    let copy = pt.duplicate();
    assert_eq!(copy.get_ptr(0x1000), Some(0x5000));
}
