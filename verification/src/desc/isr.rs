//! What the interrupt handlers decide: page faults in the heap and stack regions get a
//! fresh page, other faults are fatal; other interrupts go to their wrapped handler.
use vstd::prelude::*;
use crate::desc::idt::WrappedIsrs;
use crate::mem::paging::{Paging, Mapping, map_pages, map_pte, key_of, pmm_sane, pmm_full, can_alloc_times, alloc_times};
use crate::mem::pmm::{Pmm, RegionView, alloc_addr, alloc_state};
use crate::mem::entries::{present, entry_addr, writable, no_execute, global_page, cache_disabled, ADDR_MASK};
use crate::mem::{page, HH, PAGE_SIZE};
use crate::tasks::PID;

verus! {

/// Why a page fault is fatal.
#[derive(Clone, Copy, Debug, PartialEq, Eq, Structural)]
pub enum PfOutcome {
    /// The fault hit a present page of the heap or stack region (a protection fault).
    PresentPage,
    /// No page could be had for the heap or stack region, or no page for its tables.
    OutOfMemory,
    /// The fault is outside the heap and stack regions.
    Unhandled,
}

/// The letters naming the bits of a page fault error code, from bit 0 on.
pub open spec fn pferr_letters() -> Seq<char> {
    seq!['P', 'W', 'U', 'R', 'I']
}

/// Address `addr` lies in the heap or stack region: in an odd GiB of the higher half,
/// below the last page of the address space (which the mapper cannot map).
pub open spec fn in_heap_or_stack(addr: u64) -> bool {
    addr >= HH && ((addr - HH) / 0x4000_0000) % 2 == 1 && addr < 0xFFFF_FFFF_FFFF_F000
}

/// The letters of the bits of `err` set among its five low bits, in order.
pub open spec fn pferr_flags(err: u64, n: int) -> Seq<char>
    decreases n,
{
    if n <= 0 {
        Seq::empty()
    } else if err & (1u64 << ((n - 1) as u64)) != 0 {
        pferr_flags(err, n - 1).push(pferr_letters()[n - 1])
    } else {
        pferr_flags(err, n - 1)
    }
}

/// The letters of the error code bits set in `err` (present, write, user, reserved,
/// instruction fetch), as the fatal page fault message lists them.
pub fn pf_flags(err: u64) -> (r: Vec<char>)
    ensures
        r@ == pferr_flags(err, 5),
{
    let letters: [char; 5] = ['P', 'W', 'U', 'R', 'I'];
    let mut r: Vec<char> = Vec::new();
    let mut i: u64 = 0;
    while i < 5
        invariant
            i <= 5,
            letters@ == pferr_letters(),
            r@ == pferr_flags(err, i as int),
        decreases 5 - i,
    {
        if err & (1u64 << i) != 0 {
            r.push(letters[i as usize]);
        }
        i = i + 1;
    }
    r
}

/// The mapping a heap or stack fault at `addr` gets: its page to `phys`.
pub open spec fn fault_mapping(addr: u64, phys: u64) -> Mapping {
    Mapping { virt: (addr - addr % 4096) as u64, phys, npages: 1, global: false, ro: false, nx: false, pcd: false }
}

/// Mapping the page of a heap or stack fault at `addr` to `phys` makes the faulting
/// address's entry present, pointing at `phys`, writable and executable, neither global
/// nor uncached: the faulting access, read, write or fetch, then succeeds.
pub proof fn law_fault_page_writable(view: Map<(int, int, int, int), u64>, addr: u64, phys: u64)
    ensures
        map_pages(view, fault_mapping(addr, phys), 1).contains_key(key_of(addr)),
        present(map_pages(view, fault_mapping(addr, phys), 1)[key_of(addr)]),
        entry_addr(map_pages(view, fault_mapping(addr, phys), 1)[key_of(addr)]) == phys & ADDR_MASK,
        writable(map_pages(view, fault_mapping(addr, phys), 1)[key_of(addr)]),
        !no_execute(map_pages(view, fault_mapping(addr, phys), 1)[key_of(addr)]),
        !global_page(map_pages(view, fault_mapping(addr, phys), 1)[key_of(addr)]),
        !cache_disabled(map_pages(view, fault_mapping(addr, phys), 1)[key_of(addr)]),
{
    let m = fault_mapping(addr, phys);
    crate::mem::paging::law_lookup_after_map(view, m, addr);
    crate::mem::paging::lemma_key_of_page(addr);
}

/// There is memory to handle a fault at `addr`: a free page, and after it the page
/// tables missing for `addr`.
pub open spec fn pf_memory(pt: Paging, rs: Seq<RegionView>, addr: u64) -> bool {
    alloc_addr(rs, 1) is Some && can_alloc_times(alloc_state(rs, 1), pt.missing_tables(addr))
}

/// Why a page fault at `addr` with error code `err` is fatal, if it is: it lies outside
/// the heap and stack regions, it hit a present page there, or there is no memory for
/// the page and its tables.
pub fn pf_refusal(pt: &Paging, pmm: &Pmm, addr: u64, err: u64) -> (r: Option<PfOutcome>)
    requires
        pt.wf(),
        pmm.wf(),
    ensures
        !in_heap_or_stack(addr) ==> r == Some(PfOutcome::Unhandled),
        in_heap_or_stack(addr) && err & 1 != 0 ==> r == Some(PfOutcome::PresentPage),
        in_heap_or_stack(addr) && err & 1 == 0 && !pf_memory(*pt, pmm@, addr) ==> r == Some(PfOutcome::OutOfMemory),
        in_heap_or_stack(addr) && err & 1 == 0 && pf_memory(*pt, pmm@, addr) ==> r is None,
{
    if addr >= HH {
        let gbi = (addr - HH) / 0x4000_0000;
        if gbi % 2 == 1 && addr < 0xFFFF_FFFF_FFFF_F000 {
            if err & 1 != 0 {
                return Some(PfOutcome::PresentPage);
            }
            let need = pt.tables_missing(addr);
            let n: usize = need as usize + 1;
            let ok = pmm.can_alloc_pages_one_by_one(n);
            proof {
                assert(n as nat == need as nat + 1);
                crate::mem::paging::lemma_can_alloc_step(pmm@, need as nat);
                crate::mem::paging::lemma_full_iff(pmm@);
                assert(crate::mem::paging::alloc_times(pmm@, 1) == alloc_state(pmm@, 1)) by {
                    crate::mem::paging::lemma_alloc_times_step(pmm@, 0);
                    assert(crate::mem::paging::alloc_times(pmm@, 0) == pmm@);
                }
            }
            if !ok {
                return Some(PfOutcome::OutOfMemory);
            }
            return None;
        }
    }
    Some(PfOutcome::Unhandled)
}

/// Handles a page fault at `addr` on a missing page of the heap or stack region, for
/// which there is memory (`pf_refusal` accepts it): a fresh zeroed page, which it gives
/// back, is mapped there, and the page tables missing for `addr` are allocated.
pub fn pf_isr(pt: &mut Paging, pmm: &mut Pmm, addr: u64, err: u64) -> (r: u64)
    requires
        old(pt).wf(),
        old(pmm).wf(),
        pmm_sane(old(pmm)@),
        old(pt).frames_allocated(old(pmm)@),
        in_heap_or_stack(addr),
        err & 1 == 0,
        pf_memory(*old(pt), old(pmm)@, addr),
    ensures
        final(pt).wf(),
        final(pmm).wf(),
        pmm_sane(final(pmm)@),
        final(pt).frames_allocated(final(pmm)@),
        r == alloc_addr(old(pmm)@, 1)->Some_0,
        final(pt)@ == map_pages(old(pt)@, fault_mapping(addr, r), 1),
        final(pmm)@ == alloc_times(alloc_state(old(pmm)@, 1), old(pt).missing_tables(addr)),
        final(pt)@.contains_key(key_of(addr)),
        present(final(pt)@[key_of(addr)]),
        entry_addr(final(pt)@[key_of(addr)]) == r & ADDR_MASK,
        writable(final(pt)@[key_of(addr)]),
        !no_execute(final(pt)@[key_of(addr)]),
        !global_page(final(pt)@[key_of(addr)]),
        !cache_disabled(final(pt)@[key_of(addr)]),
{
    let phys = match pmm.calloc(1) {
        Ok(p) => p,
        Err(_) => {
            return 0;
        },
    };
    proof {
        crate::mem::paging::lemma_sane_after_alloc(old(pmm)@, 1);
        crate::mem::pmm::law_alloc_hands_out_free_pages(old(pmm)@, 1);
        assert(crate::mem::pmm::allocated(alloc_state(old(pmm)@, 1), alloc_addr(old(pmm)@, 1)->Some_0 + 0 * 4096));
        crate::mem::paging::lemma_allocated_frame(pmm@, phys as int);
        pt.lemma_frames_allocated_grow(old(pmm)@, pmm@);
    }
    let pg = page(addr);
    let m = Paging::newmap(pg, phys);
    proof {
        assert(map_pages(pt@, m, 1) == map_pages(pt@, m, 0).insert(
            key_of((m.virt + 0 * PAGE_SIZE) as u64), map_pte(m, (m.phys + 0 * PAGE_SIZE) as u64)));
        assert((m.virt + 0 * PAGE_SIZE) as u64 == m.virt);
        assert((m.phys + 0 * PAGE_SIZE) as u64 == m.phys);
        assert(key_of(pg) == key_of(addr)) by {
            crate::mem::paging::lemma_key_of_page(addr);
        }
        crate::mem::paging::lemma_missing_tables_same_table(*pt, pg, addr);
    }
    let _ = pt.map_one(pmm, m);
    proof {
        law_fault_page_writable(old(pt)@, addr, phys);
    }
    phys
}

/// What the default interrupt handler does once the wrapped handler returns.
#[derive(Clone, Copy, Debug, PartialEq, Eq, Structural)]
pub enum AfterIsr {
    /// The core was idle: pick a task to run.
    Schedule,
    /// The core was running a task: return to it with interrupts enabled.
    Resume,
}

/// The handler wrapped for vector `v` (its low byte), which must have been set (without
/// one the interrupt is unexpected: `get_wrapped_isr` tells).
pub fn default_isr(isrs: &WrappedIsrs, v: u64) -> (r: u64)
    requires
        isrs.wf(),
        isrs@[(v % 256) as int] != 0,
    ensures
        r == isrs@[(v % 256) as int],
{
    let b = (v % 256) as u8;
    match isrs.get_wrapped_isr(b) {
        Some(a) => a,
        None => 0,
    }
}

/// After the wrapped handler: schedule when the core ran no task (PID 0), else resume.
pub fn after_isr(running: PID) -> (r: AfterIsr)
    ensures
        r == (if running == 0 { AfterIsr::Schedule } else { AfterIsr::Resume }),
{
    if running == 0 {
        AfterIsr::Schedule
    } else {
        AfterIsr::Resume
    }
}

} // verus!
