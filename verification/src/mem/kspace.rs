//! The kernel's own mappings: the framebuffer, memory and the kernel image, its stack,
//! and pages of the heap mapped on demand.
use vstd::prelude::*;
use crate::boot::{
    StivaleMMEntry, STIVALE2_MMAP_USABLE, STIVALE2_MMAP_BOOTLOADER_RECLAIMABLE,
    STIVALE2_MMAP_KERNEL_AND_MODULES,
};
use crate::mem::entries::{entry_addr, ADDR_MASK};
use crate::mem::paging::{
    Mapping, Paging, alloc_times, can_alloc_times, key_of, lemma_missing_tables_same_table, map_pages,
    map_pte, pmm_sane, pmm_full, map_run, map_room,
};
use crate::mem::pmm::RegionView;
use crate::mem::pmm::Pmm;
use crate::mem::{HIGHER_HALF, HH, PAGE_SIZE, spec_npages};

verus! {

/// The MSR of the extended feature enable register.
pub const EFER_ADDR: u32 = 0xC0000080;
/// The no-execute enable bit of EFER.
pub const EFER_BIT_NX: u32 = 11;

/// EFER with no-execute enabled.
pub fn efer_with_nx(efer: u64) -> (r: u64)
    ensures
        r == efer | 0x800,
{
    efer | 0x800
}

/// Physical address of the VGA text framebuffer.
pub const FRAMEBUFFER: u64 = 0xB8000;

/// The mapping a memory map entry asks for: usable and bootloader-reclaimable memory
/// identity-mapped, the kernel and modules in the higher half, nothing else.
pub open spec fn entry_map(e: StivaleMMEntry) -> Option<Mapping> {
    let np = spec_npages(e.length as int);
    if e.entry_type == STIVALE2_MMAP_USABLE || e.entry_type == STIVALE2_MMAP_BOOTLOADER_RECLAIMABLE {
        Some(Mapping { virt: e.base, phys: e.base, npages: np as usize, global: false, ro: false, nx: false, pcd: false })
    } else if e.entry_type == STIVALE2_MMAP_KERNEL_AND_MODULES {
        Some(Mapping { virt: (HIGHER_HALF + e.base) as u64, phys: e.base, npages: np as usize, global: false, ro: false, nx: false, pcd: false })
    } else {
        None
    }
}

/// The mappings the memory map asks for, in order.
pub open spec fn entries_maps(es: Seq<StivaleMMEntry>) -> Seq<Mapping>
    decreases es.len(),
{
    if es.len() == 0 {
        Seq::empty()
    } else {
        match entry_map(es.last()) {
            Some(m) => entries_maps(es.drop_last()).push(m),
            None => entries_maps(es.drop_last()),
        }
    }
}

/// The framebuffer mapping: one page, identity.
pub open spec fn framebuffer_map() -> Mapping {
    Mapping { virt: FRAMEBUFFER, phys: FRAMEBUFFER, npages: 1, global: false, ro: false, nx: false, pcd: false }
}

/// Entry `e` can be mapped: its size in pages fits and its pages end below the top.
pub open spec fn entry_fits(e: StivaleMMEntry) -> bool {
    &&& e.length + PAGE_SIZE - 1 <= usize::MAX
    &&& e.base + spec_npages(e.length as int) * PAGE_SIZE <= u64::MAX
    &&& e.entry_type == STIVALE2_MMAP_KERNEL_AND_MODULES ==> HIGHER_HALF + e.base + spec_npages(e.length as int) * PAGE_SIZE <= u64::MAX
}

/// Whether entry `e` can be mapped (see `entry_fits`).
pub fn entry_fits_exec(e: &StivaleMMEntry) -> (r: bool)
    ensures
        r == entry_fits(*e),
{
    if e.length > (usize::MAX as u64) || e.length as usize > usize::MAX - (PAGE_SIZE - 1) {
        return false;
    }
    let np: u64 = (e.length + 4095) / 4096;
    proof {
        assert(np * 4096 <= e.length + 4095) by (nonlinear_arith)
            requires np == (e.length + 4095) / 4096;
        assert(np == spec_npages(e.length as int));
    }
    let span: u64 = np * 4096;
    if e.base > u64::MAX - span {
        return false;
    }
    if e.entry_type == STIVALE2_MMAP_KERNEL_AND_MODULES && e.base + span > u64::MAX - HIGHER_HALF {
        return false;
    }
    true
}

/// Whether every entry of `entries` can be mapped.
pub fn entries_fit(entries: &[StivaleMMEntry]) -> (r: bool)
    ensures
        r == forall|i: int| 0 <= i < entries@.len() ==> entry_fits(#[trigger] entries@[i]),
{
    let n = entries.len();
    let mut i: usize = 0;
    while i < n
        invariant
            n == entries@.len(),
            i <= n,
            forall|k: int| 0 <= k < i ==> entry_fits(#[trigger] entries@[k]),
        decreases n - i,
    {
        if !entry_fits_exec(&entries[i]) {
            return false;
        }
        i = i + 1;
    }
    true
}

/// The mappings the kernel makes at boot: the framebuffer, then what the memory map
/// asks for.
pub fn kernel_maps(entries: &[StivaleMMEntry]) -> (r: Vec<Mapping>)
    requires
        forall|i: int| 0 <= i < entries@.len() ==> entry_fits(#[trigger] entries@[i]),
    ensures
        r@ == seq![framebuffer_map()] + entries_maps(entries@),
        forall|i: int| 0 <= i < r@.len() ==> {
            &&& !(#[trigger] r@[i]).ro
            &&& !r@[i].nx
            &&& !r@[i].global
            &&& !r@[i].pcd
        },
{
    let mut r: Vec<Mapping> = Vec::new();
    let mut fb = Paging::newmap(FRAMEBUFFER, FRAMEBUFFER);
    fb.npages = crate::mem::npages(crate::term::FB_SIZE);
    r.push(fb);
    let n = entries.len();
    let mut i: usize = 0;
    proof {
        assert(entries@.take(0) =~= Seq::<StivaleMMEntry>::empty());
        assert(r@ =~= seq![framebuffer_map()] + entries_maps(entries@.take(0)));
    }
    while i < n
        invariant
            n == entries@.len(),
            i <= n,
            forall|k: int| 0 <= k < entries@.len() ==> entry_fits(#[trigger] entries@[k]),
            r@ == seq![framebuffer_map()] + entries_maps(entries@.take(i as int)),
        decreases n - i,
    {
        let e = entries[i];
        proof {
            assert(entries@.take(i + 1).drop_last() =~= entries@.take(i as int));
            assert(entries@.take(i + 1).last() == e);
            assert(entry_fits(e));
        }
        let base = e.base;
        let length = e.length as usize;
        let entry_type = e.entry_type;
        if entry_type == STIVALE2_MMAP_USABLE || entry_type == STIVALE2_MMAP_BOOTLOADER_RECLAIMABLE {
            let mut m = Paging::newmap(base, base);
            m.npages = crate::mem::npages(length);
            r.push(m);
        } else if entry_type == STIVALE2_MMAP_KERNEL_AND_MODULES {
            let virt = HIGHER_HALF + base;
            let mut m = Paging::newmap(virt, base);
            m.npages = crate::mem::npages(length);
            r.push(m);
        }
        i = i + 1;
        proof {
            assert(r@ =~= seq![framebuffer_map()] + entries_maps(entries@.take(i as int)));
        }
    }
    proof {
        assert(entries@.take(n as int) =~= entries@);
        law_boot_maps_default(entries@);
        assert(r@ == boot_maps(entries@));
    }
    r
}

/// The mappings after each request of `ms` is mapped, in order.
pub open spec fn map_all(view: Map<(int, int, int, int), u64>, ms: Seq<Mapping>) -> Map<(int, int, int, int), u64>
    decreases ms.len(),
{
    if ms.len() == 0 {
        view
    } else {
        map_pages(map_all(view, ms.drop_last()), ms.last(), ms.last().npages as nat)
    }
}

/// Request `m` can be mapped: its pages end below the top of the address space.
pub open spec fn map_fits(m: Mapping) -> bool {
    m.virt + m.npages * PAGE_SIZE <= u64::MAX && m.phys + m.npages * PAGE_SIZE <= u64::MAX
}

/// The memory manager's state and the tables that exist after the requests `ms` are
/// mapped in order, starting from the state `rs` and the tables at `paths`.
pub open spec fn maps_run(rs: Seq<RegionView>, paths: Set<Seq<int>>, ms: Seq<Mapping>) -> (Seq<RegionView>, Set<Seq<int>>)
    decreases ms.len(),
{
    if ms.len() == 0 {
        (rs, paths)
    } else {
        let prev = maps_run(rs, paths, ms.drop_last());
        map_run(prev.0, prev.1, ms.last(), ms.last().npages as nat)
    }
}

/// Every page of every request of `ms`, in order, finds the memory for the tables it
/// misses.
pub open spec fn maps_room(rs: Seq<RegionView>, paths: Set<Seq<int>>, ms: Seq<Mapping>) -> bool
    decreases ms.len(),
{
    if ms.len() == 0 {
        true
    } else {
        let prev = maps_run(rs, paths, ms.drop_last());
        &&& maps_room(rs, paths, ms.drop_last())
        &&& map_room(prev.0, prev.1, ms.last(), ms.last().npages as nat)
    }
}

/// Room for all of `ms` is room for its first `k` requests.
proof fn lemma_maps_room_prefix(rs: Seq<RegionView>, paths: Set<Seq<int>>, ms: Seq<Mapping>, k: int)
    requires
        0 <= k <= ms.len(),
        maps_room(rs, paths, ms),
    ensures
        maps_room(rs, paths, ms.take(k)),
    decreases ms.len(),
{
    if k < ms.len() {
        assert(ms.drop_last().take(k) =~= ms.take(k));
        lemma_maps_room_prefix(rs, paths, ms.drop_last(), k);
    } else {
        assert(ms.take(k) =~= ms);
    }
}

/// Maps each request of `ms`, in order; stops at the first that runs out of memory.
pub fn map_all_exec(pt: &mut Paging, pmm: &mut Pmm, ms: &Vec<Mapping>) -> (r: Result<(), ()>)
    requires
        old(pt).wf(),
        old(pmm).wf(),
        pmm_sane(old(pmm)@),
        old(pt).frames_allocated(old(pmm)@),
        forall|i: int| 0 <= i < ms@.len() ==> map_fits(#[trigger] ms@[i]),
    ensures
        final(pt).wf(),
        final(pmm).wf(),
        pmm_sane(final(pmm)@),
        final(pt).frames_allocated(final(pmm)@),
        r is Ok ==> final(pt)@ == map_all(old(pt)@, ms@),
        r is Ok <==> maps_room(old(pmm)@, old(pt).path_set(), ms@),
        r is Ok ==> final(pmm)@ == maps_run(old(pmm)@, old(pt).path_set(), ms@).0,
        r is Err ==> crate::mem::paging::pmm_full(final(pmm)@),
{
    let n = ms.len();
    let mut i: usize = 0;
    let ghost pm0 = pmm@;
    let ghost ps0 = pt.path_set();
    proof {
        assert(ms@.take(0) =~= Seq::<Mapping>::empty());
    }
    while i < n
        invariant
            n == ms@.len(),
            i <= n,
            pt.wf(),
            pmm.wf(),
            pmm_sane(pmm@),
            pt.frames_allocated(pmm@),
            forall|k: int| 0 <= k < ms@.len() ==> map_fits(#[trigger] ms@[k]),
            pt@ == map_all(old(pt)@, ms@.take(i as int)),
            pm0 == old(pmm)@,
            ps0 == old(pt).path_set(),
            maps_room(pm0, ps0, ms@.take(i as int)),
            pmm@ == maps_run(pm0, ps0, ms@.take(i as int)).0,
            pt.path_set() == maps_run(pm0, ps0, ms@.take(i as int)).1,
        decreases n - i,
    {
        let m = ms[i];
        proof {
            assert(map_fits(m));
            assert(ms@.take(i + 1).drop_last() =~= ms@.take(i as int));
            assert(ms@.take(i + 1).last() == m);
        }
        let res = pt.map(pmm, m);
        if res.is_err() {
            proof {
                if maps_room(pm0, ps0, ms@) {
                    lemma_maps_room_prefix(pm0, ps0, ms@, i + 1);
                }
            }
            return Err(());
        }
        i = i + 1;
    }
    proof {
        assert(ms@.take(n as int) =~= ms@);
    }
    Ok(())
}

/// What the kernel maps at boot: the framebuffer, then what the memory map asks for.
pub open spec fn boot_maps(entries: Seq<StivaleMMEntry>) -> Seq<Mapping> {
    seq![framebuffer_map()] + entries_maps(entries)
}

/// Each mapping the memory map asks for comes from one of its entries, and each entry
/// that asks for a mapping gets it.
proof fn lemma_entries_maps_from(es: Seq<StivaleMMEntry>)
    ensures
        forall|i: int| 0 <= i < entries_maps(es).len() ==> exists|j: int| 0 <= j < es.len()
            && #[trigger] entry_map(es[j]) == Some(#[trigger] entries_maps(es)[i]),
        forall|j: int| 0 <= j < es.len() && (#[trigger] entry_map(es[j])) is Some ==> exists|i: int|
            0 <= i < entries_maps(es).len() && Some(#[trigger] entries_maps(es)[i]) == entry_map(es[j]),
    decreases es.len(),
{
    if es.len() > 0 {
        let p = es.drop_last();
        lemma_entries_maps_from(p);
        let prev = entries_maps(p);
        assert forall|i: int| 0 <= i < entries_maps(es).len() implies exists|j: int| 0 <= j < es.len()
            && #[trigger] entry_map(es[j]) == Some(#[trigger] entries_maps(es)[i]) by {
            if i < prev.len() {
                assert(entries_maps(es)[i] == prev[i]);
                let j = choose|j: int| 0 <= j < p.len() && #[trigger] entry_map(p[j]) == Some(#[trigger] prev[i]);
                assert(es[j] == p[j]);
            } else {
                assert(entry_map(es[es.len() - 1]) == Some(entries_maps(es)[i]));
            }
        }
        assert forall|j: int| 0 <= j < es.len() && (#[trigger] entry_map(es[j])) is Some implies exists|i: int|
            0 <= i < entries_maps(es).len() && Some(#[trigger] entries_maps(es)[i]) == entry_map(es[j]) by {
            if j < p.len() {
                assert(es[j] == p[j]);
                assert(entry_map(p[j]) is Some);
                let i = choose|i: int| 0 <= i < prev.len() && Some(#[trigger] prev[i]) == entry_map(p[j]);
                assert(entries_maps(es)[i] == prev[i]);
            } else {
                assert(entries_maps(es)[prev.len() as int] == entry_map(es[j])->Some_0);
            }
        }
    }
}

/// What one memory-map entry asks for: any mapping it asks for has the default
/// attributes; usable and bootloader-reclaimable memory onto itself, the kernel and
/// modules at the same address in the higher half.
proof fn lemma_entry_map_default(e: StivaleMMEntry)
    ensures
        entry_map(e) is Some ==> {
            &&& !entry_map(e)->Some_0.ro
            &&& !entry_map(e)->Some_0.nx
            &&& !entry_map(e)->Some_0.global
            &&& !entry_map(e)->Some_0.pcd
        },
        e.entry_type == STIVALE2_MMAP_KERNEL_AND_MODULES ==> {
            &&& entry_map(e) is Some
            &&& entry_map(e)->Some_0.virt == (HIGHER_HALF + e.base) as u64
            &&& entry_map(e)->Some_0.phys == e.base
            &&& entry_map(e)->Some_0.npages == spec_npages(e.length as int) as usize
        },
        e.entry_type == STIVALE2_MMAP_USABLE || e.entry_type == STIVALE2_MMAP_BOOTLOADER_RECLAIMABLE ==> {
            &&& entry_map(e) is Some
            &&& entry_map(e)->Some_0.virt == e.base
            &&& entry_map(e)->Some_0.phys == e.base
        },
{
}

proof fn lemma_boot_maps_attributes(entries: Seq<StivaleMMEntry>)
    ensures
        forall|i: int| 0 <= i < boot_maps(entries).len() ==> {
            &&& !(#[trigger] boot_maps(entries)[i]).ro
            &&& !boot_maps(entries)[i].nx
            &&& !boot_maps(entries)[i].global
            &&& !boot_maps(entries)[i].pcd
        },
{
    lemma_entries_maps_from(entries);
    let em = entries_maps(entries);
    assert forall|i: int| 0 <= i < boot_maps(entries).len() implies {
        &&& !(#[trigger] boot_maps(entries)[i]).ro
        &&& !boot_maps(entries)[i].nx
        &&& !boot_maps(entries)[i].global
        &&& !boot_maps(entries)[i].pcd
    } by {
        if i > 0 {
            assert(boot_maps(entries)[i] == em[i - 1]);
            let j = choose|j: int| 0 <= j < entries.len() && #[trigger] entry_map(entries[j]) == Some(#[trigger] em[i - 1]);
            lemma_entry_map_default(entries[j]);
        }
    }
}

proof fn lemma_boot_maps_entry(entries: Seq<StivaleMMEntry>, j: int)
    requires
        0 <= j < entries.len(),
        entry_map(entries[j]) is Some,
    ensures
        exists|i: int| 0 <= i < boot_maps(entries).len() && Some(#[trigger] boot_maps(entries)[i]) == entry_map(entries[j]),
{
    lemma_entries_maps_from(entries);
    let em = entries_maps(entries);
    let i = choose|i: int| 0 <= i < em.len() && Some(#[trigger] em[i]) == entry_map(entries[j]);
    assert(boot_maps(entries)[i + 1] == em[i]);
}

/// Every mapping the kernel makes at boot has the default attributes: writable,
/// executable, not global, cached. Each usable or bootloader-reclaimable entry is
/// mapped onto itself, and the kernel-and-modules entry is mapped at the same address
/// in the higher half, writable and executable; so the kernel image can run (and write
/// its data) from there.
pub proof fn law_boot_maps_default(entries: Seq<StivaleMMEntry>)
    ensures
        forall|i: int| 0 <= i < boot_maps(entries).len() ==> {
            &&& !(#[trigger] boot_maps(entries)[i]).ro
            &&& !boot_maps(entries)[i].nx
            &&& !boot_maps(entries)[i].global
            &&& !boot_maps(entries)[i].pcd
        },
        forall|j: int| 0 <= j < entries.len() && (#[trigger] entries[j]).entry_type == STIVALE2_MMAP_KERNEL_AND_MODULES
            ==> exists|i: int| 0 <= i < boot_maps(entries).len() && {
                let m = #[trigger] boot_maps(entries)[i];
                &&& m.virt == (HIGHER_HALF + entries[j].base) as u64
                &&& m.phys == entries[j].base
                &&& m.npages == spec_npages(entries[j].length as int) as usize
                &&& !m.ro && !m.nx
            },
        forall|j: int| 0 <= j < entries.len() && ((#[trigger] entries[j]).entry_type == STIVALE2_MMAP_USABLE
            || entries[j].entry_type == STIVALE2_MMAP_BOOTLOADER_RECLAIMABLE)
            ==> exists|i: int| 0 <= i < boot_maps(entries).len() && {
                let m = #[trigger] boot_maps(entries)[i];
                &&& m.virt == entries[j].base
                &&& m.phys == entries[j].base
                &&& !m.ro && !m.nx
            },
{
    lemma_boot_maps_attributes(entries);
    assert forall|j: int| 0 <= j < entries.len() && (#[trigger] entries[j]).entry_type == STIVALE2_MMAP_KERNEL_AND_MODULES
        implies exists|i: int| 0 <= i < boot_maps(entries).len() && {
            let m = #[trigger] boot_maps(entries)[i];
            &&& m.virt == (HIGHER_HALF + entries[j].base) as u64
            &&& m.phys == entries[j].base
            &&& m.npages == spec_npages(entries[j].length as int) as usize
            &&& !m.ro && !m.nx
        } by {
        lemma_entry_map_default(entries[j]);
        lemma_boot_maps_entry(entries, j);
        let i = choose|i: int| 0 <= i < boot_maps(entries).len() && Some(#[trigger] boot_maps(entries)[i]) == entry_map(entries[j]);
        assert(!boot_maps(entries)[i].ro);
    }
    assert forall|j: int| 0 <= j < entries.len() && ((#[trigger] entries[j]).entry_type == STIVALE2_MMAP_USABLE
        || entries[j].entry_type == STIVALE2_MMAP_BOOTLOADER_RECLAIMABLE)
        implies exists|i: int| 0 <= i < boot_maps(entries).len() && {
            let m = #[trigger] boot_maps(entries)[i];
            &&& m.virt == entries[j].base
            &&& m.phys == entries[j].base
            &&& !m.ro && !m.nx
        } by {
        lemma_entry_map_default(entries[j]);
        lemma_boot_maps_entry(entries, j);
        let i = choose|i: int| 0 <= i < boot_maps(entries).len() && Some(#[trigger] boot_maps(entries)[i]) == entry_map(entries[j]);
        assert(!boot_maps(entries)[i].ro);
    }
}

/// Whether there is memory for the page tables of what the kernel maps at boot
/// (`init_kernel_paging`), tried out on copies of the tables and the memory manager.
pub fn kernel_paging_fits(pt: &Paging, pmm: &Pmm, entries: &[StivaleMMEntry]) -> (r: bool)
    requires
        pt.wf(),
        pmm.wf(),
        pmm_sane(pmm@),
        pt.frames_allocated(pmm@),
        forall|i: int| 0 <= i < entries@.len() ==> entry_fits(#[trigger] entries@[i]),
    ensures
        r == maps_room(pmm@, pt.path_set(), boot_maps(entries@)),
{
    let mut trial_pt = pt.duplicate();
    let mut trial_pmm = pmm.duplicate();
    let maps = kernel_maps(entries);
    proof {
        lemma_entries_maps_fit(entries@);
        assert forall|i: int| 0 <= i < maps@.len() implies map_fits(#[trigger] maps@[i]) by {
            if i > 0 {
                assert(maps@[i] == entries_maps(entries@)[i - 1]);
            }
        }
        assert(maps@ == boot_maps(entries@));
    }
    map_all_exec(&mut trial_pt, &mut trial_pmm, &maps).is_ok()
}

/// Maps what the kernel needs at boot: the framebuffer and what the memory map asks for;
/// there must be memory for their page tables (`kernel_paging_fits`).
pub fn init_kernel_paging(pt: &mut Paging, pmm: &mut Pmm, entries: &[StivaleMMEntry])
    requires
        old(pt).wf(),
        old(pmm).wf(),
        pmm_sane(old(pmm)@),
        old(pt).frames_allocated(old(pmm)@),
        forall|i: int| 0 <= i < entries@.len() ==> entry_fits(#[trigger] entries@[i]),
        maps_room(old(pmm)@, old(pt).path_set(), boot_maps(entries@)),
    ensures
        final(pt).wf(),
        final(pmm).wf(),
        pmm_sane(final(pmm)@),
        final(pt).frames_allocated(final(pmm)@),
        final(pt)@ == map_all(old(pt)@, boot_maps(entries@)),
        final(pmm)@ == maps_run(old(pmm)@, old(pt).path_set(), boot_maps(entries@)).0,
{
    let maps = kernel_maps(entries);
    proof {
        lemma_entries_maps_fit(entries@);
        assert forall|i: int| 0 <= i < maps@.len() implies map_fits(#[trigger] maps@[i]) by {
            if i > 0 {
                assert(maps@[i] == entries_maps(entries@)[i - 1]);
            }
        }
        assert(maps@ == boot_maps(entries@));
    }
    let _ = map_all_exec(pt, pmm, &maps);
}

proof fn lemma_entries_maps_fit(es: Seq<StivaleMMEntry>)
    requires
        forall|i: int| 0 <= i < es.len() ==> entry_fits(#[trigger] es[i]),
    ensures
        forall|i: int| 0 <= i < entries_maps(es).len() ==> map_fits(#[trigger] entries_maps(es)[i]),
    decreases es.len(),
{
    if es.len() > 0 {
        let p = es.drop_last();
        assert forall|i: int| 0 <= i < p.len() implies entry_fits(#[trigger] p[i]) by {
            assert(p[i] == es[i]);
        }
        lemma_entries_maps_fit(p);
        assert(entry_fits(es[es.len() - 1]));
        let prev = entries_maps(p);
        assert forall|i: int| 0 <= i < entries_maps(es).len() implies map_fits(#[trigger] entries_maps(es)[i]) by {
            if i < prev.len() {
                assert(entries_maps(es)[i] == prev[i]);
            }
        }
    }
}

/// Fresh page tables, with no mapping, whose root table is a page taken from `pmm`;
/// fails, taking nothing, exactly when no page is free.
pub fn new_tables(pmm: &mut Pmm) -> (r: Result<Paging, ()>)
    requires
        old(pmm).wf(),
        pmm_sane(old(pmm)@),
    ensures
        final(pmm).wf(),
        pmm_sane(final(pmm)@),
        final(pmm)@ == crate::mem::pmm::alloc_state(old(pmm)@, 1),
        r is Ok <==> crate::mem::pmm::alloc_addr(old(pmm)@, 1) is Some,
        r matches Ok(pt) ==> {
            &&& pt.wf()
            &&& pt@ == Map::<(int, int, int, int), u64>::empty()
            &&& pt.root() == crate::mem::pmm::alloc_addr(old(pmm)@, 1)->Some_0
            &&& pt.frames_allocated(final(pmm)@)
        },
{
    let root = match pmm.calloc(1) {
        Ok(p) => p,
        Err(_) => {
            return Err(());
        },
    };
    proof {
        crate::mem::paging::lemma_sane_after_alloc(old(pmm)@, 1);
        crate::mem::pmm::law_alloc_hands_out_free_pages(old(pmm)@, 1);
        assert(crate::mem::pmm::allocated(pmm@, crate::mem::pmm::alloc_addr(old(pmm)@, 1)->Some_0 + 0 * 4096));
        crate::mem::paging::lemma_allocated_frame(pmm@, root as int);
    }
    let pt = Paging::new(root);
    Ok(pt)
}

/// The physical address that `ptr` is mapped to, 0 if none.
pub fn phys_of(pt: &Paging, ptr: usize) -> (r: usize)
    requires
        pt.wf(),
    ensures
        r == (if pt@.contains_key(key_of(ptr as u64)) { entry_addr(pt@[key_of(ptr as u64)]) as usize } else { 0usize }),
{
    match pt.get_ptr(ptr as u64) {
        Some(p) => p as usize,
        None => 0,
    }
}

/// Size of the kernel stack.
pub const STACK_SIZE: usize = 16384;

/// Where the kernel stack is moved: its last page ends at the end of the second GiB of
/// the higher half.
pub const NEW_STACK_BASE: u64 = 0xFFFF_8000_7FFF_C000;

/// The four pages of the new stack lie in one page table: their PML4, PDP and PD indices
/// are those of `NEW_STACK_BASE`.
proof fn lemma_stack_pages_share_table(v: u64)
    requires
        NEW_STACK_BASE <= v < NEW_STACK_BASE + 4 * PAGE_SIZE,
    ensures
        key_of(v).0 == key_of(NEW_STACK_BASE).0,
        key_of(v).1 == key_of(NEW_STACK_BASE).1,
        key_of(v).2 == key_of(NEW_STACK_BASE).2,
{
    assert(((v >> 39u64) & 0x1FFu64) == ((0xFFFF_8000_7FFF_C000u64 >> 39u64) & 0x1FFu64)
        && ((v >> 30u64) & 0x1FFu64) == ((0xFFFF_8000_7FFF_C000u64 >> 30u64) & 0x1FFu64)
        && ((v >> 21u64) & 0x1FFu64) == ((0xFFFF_8000_7FFF_C000u64 >> 21u64) & 0x1FFu64)) by (bit_vector)
        requires
            0xFFFF_8000_7FFF_C000u64 <= v,
            v < 0xFFFF_8000_8000_0000u64,
    ;
}

/// Whether `map_stack` can move the stack whose pages start at `stack_addr`: that page
/// is mapped, and the page tables missing for `NEW_STACK_BASE` can be allocated.
pub fn stack_fits(pt: &Paging, pmm: &Pmm, stack_addr: u64) -> (r: bool)
    requires
        pt.wf(),
        pmm.wf(),
    ensures
        r == (pt@.contains_key(key_of(stack_addr)) && can_alloc_times(pmm@, pt.missing_tables(NEW_STACK_BASE))),
{
    if pt.get_ptr(stack_addr).is_none() {
        return false;
    }
    let need = pt.tables_missing(NEW_STACK_BASE);
    pmm.can_alloc_pages_one_by_one(need as usize)
}

/// Maps the kernel stack (its pages start at `stack_addr`, which must be mapped) at
/// `NEW_STACK_BASE`, not executable; gives back the new base. The four pages share one
/// page table, so the tables missing for `NEW_STACK_BASE` are all that is allocated; it
/// fails, changing no mapping, exactly when those tables cannot be allocated.
pub fn map_stack(pt: &mut Paging, pmm: &mut Pmm, stack_addr: u64) -> (r: u64)
    requires
        old(pt).wf(),
        old(pmm).wf(),
        pmm_sane(old(pmm)@),
        old(pt).frames_allocated(old(pmm)@),
        old(pt)@.contains_key(key_of(stack_addr)),
        can_alloc_times(old(pmm)@, old(pt).missing_tables(NEW_STACK_BASE)),
    ensures
        final(pt).wf(),
        final(pmm).wf(),
        pmm_sane(final(pmm)@),
        final(pt).frames_allocated(final(pmm)@),
        r == NEW_STACK_BASE,
        final(pmm)@ == alloc_times(old(pmm)@, old(pt).missing_tables(NEW_STACK_BASE)),
        final(pt)@ == map_all(old(pt)@, Seq::new(4, |j: int| Mapping {
            virt: (NEW_STACK_BASE + j * PAGE_SIZE) as u64,
            phys: (entry_addr(old(pt)@[key_of(stack_addr)]) + j * PAGE_SIZE) as u64,
            npages: 1, global: false, ro: false, nx: true, pcd: false,
        })),
{
    let new_stack_base = HH + 0x8000_0000u64 - STACK_SIZE as u64;
    let mut virt = new_stack_base;
    let mut phys = match pt.get_ptr(stack_addr) {
        Some(p) => p,
        None => {
            return 0;
        },
    };
    let ghost phys0 = phys;
    let ghost e0 = old(pt)@[key_of(stack_addr)];
    let ghost miss0 = old(pt).missing_tables(NEW_STACK_BASE);
    let ghost ms = Seq::new(4, |j: int| Mapping {
        virt: (NEW_STACK_BASE + j * PAGE_SIZE) as u64,
        phys: (phys0 + j * PAGE_SIZE) as u64,
        npages: 1, global: false, ro: false, nx: true, pcd: false,
    });
    proof {
        assert(phys0 == e0 & 0x000F_FFFF_FFFF_F000u64);
        assert(phys0 <= ADDR_MASK) by (bit_vector)
            requires phys0 == e0 & 0x000F_FFFF_FFFF_F000u64;
        assert(ms.take(0) =~= Seq::<Mapping>::empty());
    }
    let npages = crate::mem::npages(STACK_SIZE);
    let mut j: usize = 0;
    while j < npages
        invariant
            npages == 4,
            j <= 4,
            pt.wf(),
            pmm.wf(),
            pmm_sane(pmm@),
            pt.frames_allocated(pmm@),
            phys0 <= ADDR_MASK,
            old(pt)@.contains_key(key_of(stack_addr)),
            ms.len() == 4,
            forall|k: int| 0 <= k < 4 ==> #[trigger] ms[k] == (Mapping {
                virt: (NEW_STACK_BASE + k * PAGE_SIZE) as u64,
                phys: (phys0 + k * PAGE_SIZE) as u64,
                npages: 1, global: false, ro: false, nx: true, pcd: false,
            }),
            virt == NEW_STACK_BASE + j * PAGE_SIZE,
            phys == phys0 + j * PAGE_SIZE,
            pt@ == map_all(old(pt)@, ms.take(j as int)),
            miss0 == old(pt).missing_tables(NEW_STACK_BASE),
            can_alloc_times(old(pmm)@, miss0),
            j == 0 ==> pmm@ == old(pmm)@ && pt.missing_tables(NEW_STACK_BASE) == miss0,
            j > 0 ==> {
                &&& pmm@ == alloc_times(old(pmm)@, miss0)
                &&& can_alloc_times(old(pmm)@, miss0)
                &&& pt.missing_tables(NEW_STACK_BASE) == 0
            },
        decreases 4 - j,
    {
        let mut m = Paging::newmap(virt, phys);
        m.nx = true;
        let ghost before = *pt;
        let ghost pmb = pmm@;
        proof {
            assert(ms.take(j + 1).drop_last() =~= ms.take(j as int));
            assert(ms.take(j + 1).last() == m);
            lemma_stack_pages_share_table(virt);
            lemma_missing_tables_same_table(before, virt, NEW_STACK_BASE);
            assert(map_pages(pt@, m, 1) == map_pages(pt@, m, 0).insert(
                key_of((m.virt + 0 * PAGE_SIZE) as u64), map_pte(m, (m.phys + 0 * PAGE_SIZE) as u64)));
            assert((m.virt + 0 * PAGE_SIZE) as u64 == m.virt);
            assert((m.phys + 0 * PAGE_SIZE) as u64 == m.phys);
        }
        if pt.map_one(pmm, m).is_err() {
            return 0;
        }
        proof {
            lemma_missing_tables_same_table(*pt, virt, NEW_STACK_BASE);
            if j > 0 {
                assert(alloc_times(pmb, 0) == pmb);
            }
        }
        virt = virt + PAGE_SIZE as u64;
        phys = phys + PAGE_SIZE as u64;
        j = j + 1;
    }
    proof {
        assert(ms.take(4) =~= ms);
    }
    new_stack_base
}

} // verus!
