//! The ELF loader: which pages a program's loadable segments take, which bytes of the
//! file go where, how its relocations are solved, and where the program starts.
//!
//! The loader decides; the bytes themselves are moved by the caller, which performs the
//! copies and the writes that the loader hands back.
use vstd::prelude::*;
use crate::collections::{PageMap, page_map_view};
use crate::mem::paging::{
    pmm_sane, pmm_full, alloc_times, can_alloc_times, lemma_full_iff, lemma_sane_after_alloc,
    lemma_allocated_frame, Paging, Mapping, lemma_alloc_times_add, lemma_can_shift, lemma_can_mono,
    tables_grow, keeps_allocated, lemma_alloc_times_keeps, tables_for, lemma_tables_for_insert,
    lemma_tables_for_finite, lemma_tables_for_mono, lemma_with_path_count, lemma_can_join,
    missing_in, with_path_of, path_to, key_of, map_pages,
};
use crate::mem::kspace::map_all;
use crate::mem::entries::{present, writable, no_execute};
use crate::tasks::{Tasks, PID, pid_to_base, spec_pid_to_base};
use crate::tasks::task::Task;
use crate::mem::pmm::{
    Pmm, RegionView, alloc_addr, alloc_state, allocated, free_state, law_alloc_hands_out_free_pages,
    law_alloc_fails_only_when_full, lemma_alloc_end,
    lemma_region_of, region_of,
};
use crate::mem::{page, pageoff, PAGE_SIZE};
use crate::tasks::elf::{
    Segment, Section, Rela, PT_LOAD, SHT_RELA, R_X86_64_RELATIVE, R_X86_64_GLOB_DAT, elf_parses,
    elf_entry, elf_segments, elf_sections, elf_relas, elf_symbol_value, read_view, read_entry,
    read_segments, read_sections, read_relas, read_symbol_value,
};

verus! {

/// Why a program could not be loaded.
#[derive(Clone, Copy, Debug, PartialEq, Eq, Structural)]
pub enum LoaderError {
    /// The file has no program headers.
    NoPHDRs,
    /// Physical memory ran out.
    OOM,
    /// The file has no section headers.
    NoSections,
    /// A relocation of a type the loader does not solve.
    EnigmaRelocation,
    /// An address or a range of the file lies outside what the program occupies.
    OutOfRange,
    /// A relocation's target is not 8-byte aligned.
    Unaligned,
    /// The `elf` crate could not parse what was asked of it.
    Malformed,
    /// A relocation asks for a symbol and the file has no dynamic symbol table.
    NoSymbols,
}

impl LoaderError {
    /// What the error says.
    pub fn message(&self) -> (r: &'static str)
        ensures
            *self == LoaderError::NoPHDRs ==> r@ == "No program headers"@,
            *self == LoaderError::OOM ==> r@ == "Out of memory"@,
            *self == LoaderError::NoSections ==> r@ == "No sections"@,
            *self == LoaderError::EnigmaRelocation ==> r@ == "Enigma relocation"@,
            *self == LoaderError::OutOfRange ==> r@ == "Out of range"@,
            *self == LoaderError::Unaligned ==> r@ == "Unaligned address"@,
            *self == LoaderError::Malformed ==> r@ == "Malformed ELF file"@,
            *self == LoaderError::NoSymbols ==> r@ == "No symbols"@,
    {
        match self {
            LoaderError::NoPHDRs => "No program headers",
            LoaderError::OOM => "Out of memory",
            LoaderError::NoSections => "No sections",
            LoaderError::EnigmaRelocation => "Enigma relocation",
            LoaderError::OutOfRange => "Out of range",
            LoaderError::Unaligned => "Unaligned address",
            LoaderError::Malformed => "Malformed ELF file",
            LoaderError::NoSymbols => "No symbols",
        }
    }
}

/// A copy of `n` bytes of the file, from file offset `src` to physical address `dst`.
#[derive(Clone, Copy, Debug, PartialEq, Eq, Structural)]
pub struct CopyOp {
    pub dst: u64,
    pub src: u64,
    pub n: u64,
}

/// The address of the page that holds `a`.
pub open spec fn page_of(a: int) -> int {
    a - a % 4096
}

/// Number of pages a loadable segment is given: from the page of its first byte to the
/// page of the address just past its end, both included.
pub open spec fn seg_npages(s: Segment) -> int {
    1 + (page_of(s.p_vaddr + s.p_memsz) - page_of(s.p_vaddr as int)) / 4096
}

/// The pages segment `s` is given, in order (none unless it is loadable).
pub open spec fn seg_visits(s: Segment) -> Seq<int> {
    if s.p_type == PT_LOAD {
        Seq::new(seg_npages(s) as nat, |i: int| page_of(s.p_vaddr as int) + i * 4096)
    } else {
        Seq::empty()
    }
}

/// The pages the segments are given, segment after segment.
pub open spec fn visits(segs: Seq<Segment>) -> Seq<int>
    decreases segs.len(),
{
    if segs.len() == 0 {
        Seq::empty()
    } else {
        visits(segs.drop_last()) + seg_visits(segs.last())
    }
}

/// The elements of `s` in the order of their first occurrence.
pub open spec fn first_visits(s: Seq<int>) -> Seq<int>
    decreases s.len(),
{
    if s.len() == 0 {
        Seq::empty()
    } else {
        let d = first_visits(s.drop_last());
        if s.drop_last().contains(s.last()) {
            d
        } else {
            d.push(s.last())
        }
    }
}

/// The copies, as (virtual address, file offset, length), that bring `rem` bytes from
/// file offset `off` to virtual address `vaddr`, one per page, over at most `k` pages.
pub open spec fn copy_run(vaddr: int, off: int, rem: int, k: nat) -> Seq<(int, int, int)>
    decreases k,
{
    if k == 0 || rem <= 0 {
        Seq::empty()
    } else {
        let free = 4096 - vaddr % 4096;
        let n = if rem < free { rem } else { free };
        seq![(vaddr, off, n)] + copy_run(vaddr + free, off + n, rem - n, (k - 1) as nat)
    }
}

/// The copies that bring the file bytes of segment `s` into its pages.
pub open spec fn seg_copies(s: Segment) -> Seq<(int, int, int)> {
    if s.p_type == PT_LOAD {
        copy_run(s.p_vaddr as int, s.p_offset as int, s.p_filesz as int, seg_npages(s) as nat)
    } else {
        Seq::empty()
    }
}

/// The copies of all segments, segment after segment.
pub open spec fn load_copies(segs: Seq<Segment>) -> Seq<(int, int, int)>
    decreases segs.len(),
{
    if segs.len() == 0 {
        Seq::empty()
    } else {
        load_copies(segs.drop_last()) + seg_copies(segs.last())
    }
}

/// A loadable segment ends a page below the top of the address space, and its file
/// bytes lie in the file.
pub open spec fn seg_fits(s: Segment, file_len: int) -> bool {
    s.p_type == PT_LOAD ==> {
        &&& s.p_vaddr + s.p_memsz + 4096 <= u64::MAX
        &&& s.p_offset + s.p_filesz <= file_len
    }
}

/// Every segment fits.
pub open spec fn segs_fit(segs: Seq<Segment>, file_len: int) -> bool {
    forall|j: int| 0 <= j < segs.len() ==> seg_fits(#[trigger] segs[j], file_len)
}

/// The physical copy that virtual copy `c` becomes once its page is placed by `pages`.
pub open spec fn phys_copy(pages: Map<u64, u64>, c: (int, int, int)) -> CopyOp {
    CopyOp { dst: (pages[page_of(c.0) as u64] + c.0 % 4096) as u64, src: c.1 as u64, n: c.2 as u64 }
}

/// The page that the `k`-th new page of the program is given: the `k`-th one-page
/// allocation in a row from `rs`.
pub open spec fn kth_page(rs: Seq<RegionView>, k: int) -> u64 {
    alloc_addr(alloc_times(rs, k as nat), 1)->Some_0 as u64
}

/// The pages and copies that loading the segments gives, the pages taken one by one
/// from the manager's state `before`: each page the segments touch, in the order they
/// first touch it, is given the next page allocated; each copy is placed by the pages.
pub open spec fn layout(
    segs: Seq<Segment>,
    before: Seq<RegionView>,
    pages: Map<u64, u64>,
    copies: Seq<CopyOp>,
) -> bool {
    let fv = first_visits(visits(segs));
    &&& forall|p: u64| pages.contains_key(p) <==> visits(segs).contains(p as int)
    &&& forall|k: int| 0 <= k < fv.len() ==> pages[#[trigger] fv[k] as u64] == kth_page(before, k)
    &&& forall|p: u64| pages.contains_key(p) ==> #[trigger] pages[p] % 4096 == 0 && pages[p] < 0x10_0000_0000_0000
    &&& copies.len() == load_copies(segs).len()
    &&& forall|c: int| 0 <= c < copies.len() ==> copies[c] == phys_copy(pages, #[trigger] load_copies(segs)[c])
}

/// Number of pages the segments take.
pub open spec fn page_count(segs: Seq<Segment>) -> nat {
    first_visits(visits(segs)).len()
}

/// What planning the segments gives: their layout, with the manager going from `before`
/// to `after` by one allocation per page.
pub open spec fn planned(
    segs: Seq<Segment>,
    before: Seq<RegionView>,
    after: Seq<RegionView>,
    pages: Map<u64, u64>,
    copies: Seq<CopyOp>,
) -> bool {
    &&& layout(segs, before, pages, copies)
    &&& after == alloc_times(before, page_count(segs))
}

proof fn lemma_alloc_times_last(rs: Seq<RegionView>, n: nat)
    ensures
        alloc_times(rs, n + 1) == alloc_state(alloc_times(rs, n), 1),
    decreases n,
{
    if n > 0 {
        lemma_alloc_times_last(alloc_state(rs, 1), (n - 1) as nat);
        assert(alloc_times(rs, n) == alloc_times(alloc_state(rs, 1), (n - 1) as nat));
        assert(alloc_times(rs, n + 1) == alloc_times(alloc_state(rs, 1), n));
    } else {
        assert(alloc_times(rs, 0) == rs);
        assert(alloc_times(alloc_state(rs, 1), 0) == alloc_state(rs, 1));
    }
}

proof fn lemma_first_visits_mono(b: Seq<int>, n: int)
    requires
        0 <= n <= b.len(),
    ensures
        first_visits(b.take(n)).len() <= first_visits(b).len(),
    decreases b.len(),
{
    if n < b.len() {
        assert(b.drop_last().take(n) =~= b.take(n));
        lemma_first_visits_mono(b.drop_last(), n);
    } else {
        assert(b.take(n) =~= b);
    }
}

proof fn lemma_visits_prefix(segs: Seq<Segment>, j: int)
    requires
        0 <= j <= segs.len(),
    ensures
        visits(segs).take(visits(segs.take(j)).len() as int) == visits(segs.take(j)),
        visits(segs.take(j)).len() <= visits(segs).len(),
    decreases segs.len(),
{
    if j < segs.len() {
        assert(segs.drop_last().take(j) =~= segs.take(j));
        lemma_visits_prefix(segs.drop_last(), j);
        assert(visits(segs).take(visits(segs.take(j)).len() as int) =~= visits(segs.take(j)));
    } else {
        assert(segs.take(j) =~= segs);
    }
}

proof fn lemma_page_of(v: int, i: int)
    requires
        0 <= v,
        0 <= i,
    ensures
        (page_of(v) + i * 4096) % 4096 == 0,
        page_of(v) % 4096 == 0,
        0 <= page_of(v) <= v,
{
    assert((v - v % 4096 + i * 4096) % 4096 == 0) by (nonlinear_arith)
        requires 0 <= v, 0 <= i;
    assert((v - v % 4096) % 4096 == 0) by (nonlinear_arith)
        requires 0 <= v;
}


/// The pages of the program so far: those of `vs`, the `k`-th new one placed at the
/// `k`-th allocation from `before`, and the manager now at `now`.
spec fn pages_inv(pages: Map<u64, u64>, vs: Seq<int>, before: Seq<RegionView>, now: Seq<RegionView>) -> bool {
    let fv = first_visits(vs);
    &&& forall|p: u64| pages.contains_key(p) <==> vs.contains(p as int)
    &&& forall|k: int| 0 <= k < fv.len() ==> pages[#[trigger] fv[k] as u64] == kth_page(before, k)
    &&& now == alloc_times(before, fv.len())
    &&& can_alloc_times(before, fv.len())
    &&& forall|i: int| 0 <= i < vs.len() ==> 0 <= #[trigger] vs[i] <= u64::MAX
    &&& forall|p: u64| pages.contains_key(p) ==> #[trigger] pages[p] % 4096 == 0 && pages[p] < 0x10_0000_0000_0000
    &&& taken_exactly(pages, before, now)
}

/// The pages in use in `now` are those in use in `before` and the pages placed by
/// `pages`, which were free in `before` and are all different.
spec fn taken_exactly(pages: Map<u64, u64>, before: Seq<RegionView>, now: Seq<RegionView>) -> bool {
    &&& forall|x: int| #[trigger] allocated(now, x) <==> (allocated(before, x) || placed(pages, x))
    &&& forall|p: u64| pages.contains_key(p) ==> !allocated(before, #[trigger] pages[p] as int)
    &&& forall|p: u64, q: u64| pages.contains_key(p) && pages.contains_key(q) && p != q ==> #[trigger] pages[p] != #[trigger] pages[q]
}

/// Some page is placed at `x` by `pages`.
spec fn placed(pages: Map<u64, u64>, x: int) -> bool {
    exists|p: u64| pages.contains_key(p) && #[trigger] pages[p] as int == x
}

proof fn lemma_taken_after_alloc(pages: Map<u64, u64>, pg: u64, before: Seq<RegionView>, now: Seq<RegionView>)
    requires
        taken_exactly(pages, before, now),
        !pages.contains_key(pg),
        pmm_sane(now),
        alloc_addr(now, 1) is Some,
        0 <= alloc_addr(now, 1)->Some_0 <= u64::MAX,
    ensures
        taken_exactly(pages.insert(pg, alloc_addr(now, 1)->Some_0 as u64), before, alloc_state(now, 1)),
{
    let a = alloc_addr(now, 1)->Some_0;
    let pm = pages.insert(pg, a as u64);
    let st = alloc_state(now, 1);
    crate::mem::pmm::law_alloc_hands_out_free_pages(now, 1);
    assert(!allocated(now, alloc_addr(now, 1)->Some_0 + 0 * PAGE_SIZE));
    assert(pm[pg] as int == a);
    assert forall|x: int| #[trigger] allocated(st, x) <==> (allocated(before, x) || placed(pm, x)) by {
        crate::mem::pmm::law_alloc_marks_exactly_its_pages(now, 1, x);
        if x == a {
            assert(crate::mem::pmm::page_at(a, 0) == x);
        }
        if exists|k: int| 0 <= k < 1 && x == #[trigger] crate::mem::pmm::page_at(a, k) {
            let k = choose|k: int| 0 <= k < 1 && x == #[trigger] crate::mem::pmm::page_at(a, k);
            assert(k == 0);
        }
        if placed(pm, x) {
            let p = choose|p: u64| pm.contains_key(p) && #[trigger] pm[p] as int == x;
            if p != pg {
                assert(pages.contains_key(p) && pages[p] as int == x);
            }
        }
        if placed(pages, x) {
            let p = choose|p: u64| pages.contains_key(p) && #[trigger] pages[p] as int == x;
            assert(pm.contains_key(p) && pm[p] as int == x);
        }
    }
    assert forall|p: u64| pm.contains_key(p) implies !allocated(before, #[trigger] pm[p] as int) by {
        if p == pg {
            if allocated(before, a) {
                assert(allocated(now, a));
            }
        }
    }
    assert forall|p: u64, q: u64| pm.contains_key(p) && pm.contains_key(q) && p != q implies #[trigger] pm[p] != #[trigger] pm[q] by {
        if p == pg {
            assert(placed(pages, pages[q] as int));
            assert(allocated(now, pages[q] as int));
        } else if q == pg {
            assert(placed(pages, pages[p] as int));
            assert(allocated(now, pages[p] as int));
        }
    }
}

/// The copies made so far are those of `done`, placed by `pages`.
spec fn copies_inv(pages: Map<u64, u64>, done: Seq<(int, int, int)>, copies: Seq<CopyOp>) -> bool {
    &&& copies.len() == done.len()
    &&& forall|c: int| 0 <= c < copies.len() ==> copies[c] == phys_copy(pages, #[trigger] done[c])
    &&& forall|c: int| 0 <= c < done.len() ==> pages.contains_key(page_of((#[trigger] done[c]).0) as u64)
}

proof fn lemma_first_visits_in(s: Seq<int>)
    ensures
        forall|k: int| 0 <= k < first_visits(s).len() ==> s.contains(#[trigger] first_visits(s)[k]),
    decreases s.len(),
{
    if s.len() > 0 {
        lemma_first_visits_in(s.drop_last());
        let d = first_visits(s.drop_last());
        assert forall|k: int| 0 <= k < first_visits(s).len() implies s.contains(#[trigger] first_visits(s)[k]) by {
            if k < d.len() {
                assert(s.drop_last().contains(d[k]));
                let w = choose|w: int| 0 <= w < s.drop_last().len() && s.drop_last()[w] == d[k];
                assert(s[w] == d[k]);
            } else {
                assert(s[s.len() - 1] == s.last());
            }
        }
    }
}

proof fn lemma_sane_after_free(rs: Seq<RegionView>, ptr: int, n: int)
    requires
        pmm_sane(rs),
    ensures
        pmm_sane(free_state(rs, ptr, n)),
{
    lemma_region_of(rs, ptr, 0);
    let st = free_state(rs, ptr, n);
    assert forall|r: int| 0 <= r < st.len() implies {
        &&& st[r].first == rs[r].first
        &&& st[r].pages == rs[r].pages
        &&& st[r].used.len() == rs[r].used.len()
    } by {}
    assert forall|r: int| 0 <= r < st.len() implies {
        &&& (#[trigger] st[r]).used.len() == st[r].pages
        &&& st[r].first + st[r].pages * 4096 <= u64::MAX
        &&& st[r].first >= 0
    } by {
        assert(rs[r].used.len() == rs[r].pages);
    }
    assert forall|i: int, j: int|
        0 <= i < st.len() && 0 <= j < st.len() && i != j implies {
            ||| st[i].first + st[i].pages * 4096 <= st[j].first
            ||| st[j].first + st[j].pages * 4096 <= st[i].first
        } by {
        assert(st[i].first == rs[i].first && st[j].first == rs[j].first);
    }
    assert forall|r: int| 0 <= r < st.len() implies {
        &&& (#[trigger] st[r]).first % 4096 == 0
        &&& st[r].first + st[r].pages * 4096 <= 0x10_0000_0000_0000
    } by {
        assert(st[r].first == rs[r].first);
    }
}

/// Gives back every page of `pages`, one by one: afterwards the pages in use are those
/// that were in use and are not pages of `pages`.
fn free_pages(pmm: &mut Pmm, pages: &PageMap)
    requires
        old(pmm).wf(),
        pmm_sane(old(pmm)@),
        forall|p: u64| page_map_view(*pages).contains_key(p) ==> allocated(old(pmm)@, #[trigger] page_map_view(*pages)[p] as int),
        forall|p: u64, q: u64| page_map_view(*pages).contains_key(p) && page_map_view(*pages).contains_key(q) && p != q
            ==> #[trigger] page_map_view(*pages)[p] != #[trigger] page_map_view(*pages)[q],
    ensures
        final(pmm).wf(),
        pmm_sane(final(pmm)@),
        forall|x: int| #[trigger] allocated(final(pmm)@, x)
            <==> (allocated(old(pmm)@, x) && !placed(page_map_view(*pages), x)),
{
    let ghost pv = page_map_view(*pages);
    let es = pages.entries();
    let n = es.len();
    let mut k: usize = 0;
    proof {
        assert forall|x: int| #[trigger] allocated(pmm@, x) <==> ((allocated(old(pmm)@, x) && !placed(pv, x))
            || exists|j: int| 0 <= j < n && es@[j].1 as int == x) by {
            if placed(pv, x) {
                let p = choose|p: u64| pv.contains_key(p) && #[trigger] pv[p] as int == x;
                let j = choose|j: int| 0 <= j < es@.len() && #[trigger] es@[j].0 == p;
                assert(es@[j].1 as int == x);
            }
            if exists|j: int| 0 <= j < n && es@[j].1 as int == x {
                let j = choose|j: int| 0 <= j < n && es@[j].1 as int == x;
                assert(pv.contains_key(es@[j].0));
                assert(pv[es@[j].0] as int == x);
            }
        }
    }
    while k < n
        invariant
            n == es@.len(),
            k <= n,
            pmm.wf(),
            pmm_sane(pmm@),
            pv == page_map_view(*pages),
            forall|i: int| 0 <= i < es@.len() ==> pv.contains_key(#[trigger] es@[i].0) && pv[es@[i].0] == es@[i].1,
            forall|i: int, j: int| 0 <= i < j < es@.len() ==> #[trigger] es@[i].0 != #[trigger] es@[j].0,
            forall|p: u64, q: u64| pv.contains_key(p) && pv.contains_key(q) && p != q ==> #[trigger] pv[p] != #[trigger] pv[q],
            forall|x: int| #[trigger] allocated(pmm@, x) <==> ((allocated(old(pmm)@, x) && !placed(pv, x))
                || exists|j: int| k <= j < n && es@[j].1 as int == x),
        decreases n - k,
    {
        let (_, phys) = es[k];
        let ghost cur = pmm@;
        proof {
            lemma_sane_after_free(cur, phys as int, 1);
        }
        pmm.free(phys, 1);
        proof {
            assert forall|x: int| #[trigger] allocated(pmm@, x) <==> ((allocated(old(pmm)@, x) && !placed(pv, x))
                || exists|j: int| k + 1 <= j < n && es@[j].1 as int == x) by {
                crate::mem::pmm::law_free_releases_exactly(cur, phys as int, x);
                assert(pv.contains_key(es@[k as int].0));
                if x == phys as int {
                    assert(pv[es@[k as int].0] as int == x);
                    assert(placed(pv, x));
                    if exists|j: int| k + 1 <= j < n && es@[j].1 as int == x {
                        let j = choose|j: int| k + 1 <= j < n && es@[j].1 as int == x;
                        assert(pv.contains_key(es@[j].0));
                        assert(es@[j].0 != es@[k as int].0);
                        assert(pv[es@[j].0] != pv[es@[k as int].0]);
                    }
                } else {
                    if exists|j: int| k <= j < n && es@[j].1 as int == x {
                        let j = choose|j: int| k <= j < n && es@[j].1 as int == x;
                        assert(j != k);
                    }
                }
            }
        }
        k = k + 1;
    }
}

/// Gives back every page of `pages`, one by one: afterwards the pages in use are those
/// that were in use and are not pages of `pages`. None of them holds a table of `pt`, so
/// every table's page stays in use.
fn release_program(pmm: &mut Pmm, pages: &PageMap, pt: &Paging)
    requires
        old(pmm).wf(),
        pmm_sane(old(pmm)@),
        pt.frames_allocated(old(pmm)@),
        forall|p: u64| page_map_view(*pages).contains_key(p) ==> allocated(old(pmm)@, #[trigger] page_map_view(*pages)[p] as int),
        forall|p: u64, q: u64| page_map_view(*pages).contains_key(p) && page_map_view(*pages).contains_key(q) && p != q
            ==> #[trigger] page_map_view(*pages)[p] != #[trigger] page_map_view(*pages)[q],
        forall|p: u64, j: int| page_map_view(*pages).contains_key(p) && 0 <= j < pt.frames().len()
            ==> #[trigger] pt.frames()[j] != #[trigger] page_map_view(*pages)[p],
    ensures
        final(pmm).wf(),
        pmm_sane(final(pmm)@),
        pt.frames_allocated(final(pmm)@),
        forall|x: int| #[trigger] allocated(final(pmm)@, x)
            <==> (allocated(old(pmm)@, x) && !placed(page_map_view(*pages), x)),
{
    let ghost pv = page_map_view(*pages);
    proof {
        pt.lemma_frames_in_use(old(pmm)@);
    }
    free_pages(pmm, pages);
    proof {
        assert forall|j: int| 0 <= j < pt.frames().len() implies allocated(pmm@, #[trigger] pt.frames()[j] as int) by {
            if placed(pv, pt.frames()[j] as int) {
                let p = choose|p: u64| pv.contains_key(p) && #[trigger] pv[p] as int == pt.frames()[j] as int;
                assert(pt.frames()[j] != pv[p]);
            }
        }
        pt.lemma_frames_allocated_when_in_use(pmm@);
    }
}

/// Gives back every page of `pages`, one by one; they were all taken since `before`, so
/// afterwards the pages in use are those of `before`.
fn give_back(pmm: &mut Pmm, pages: &PageMap, Ghost(before): Ghost<Seq<RegionView>>)
    requires
        old(pmm).wf(),
        pmm_sane(old(pmm)@),
        taken_exactly(page_map_view(*pages), before, old(pmm)@),
    ensures
        final(pmm).wf(),
        pmm_sane(final(pmm)@),
        forall|x: int| allocated(final(pmm)@, x) == allocated(before, x),
{
    let ghost pv = page_map_view(*pages);
    proof {
        assert forall|p: u64| pv.contains_key(p) implies allocated(pmm@, #[trigger] pv[p] as int) by {
            assert(placed(pv, pv[p] as int));
        }
    }
    free_pages(pmm, pages);
    proof {
        assert forall|x: int| allocated(pmm@, x) == allocated(before, x) by {
            if allocated(before, x) && placed(pv, x) {
                let p = choose|p: u64| pv.contains_key(p) && #[trigger] pv[p] as int == x;
                assert(!allocated(before, pv[p] as int));
            }
        }
    }
}

proof fn lemma_aligned_span(a: int, b: int)
    requires
        0 <= a <= b,
        a % 4096 == 0,
        b % 4096 == 0,
    ensures
        a + ((b - a) / 4096) * 4096 == b,
        (b - a) / 4096 >= 0,
{
    assert((b - a) % 4096 == 0) by (nonlinear_arith)
        requires a % 4096 == 0, b % 4096 == 0, a <= b;
    assert(((b - a) / 4096) * 4096 == b - a) by (nonlinear_arith)
        requires (b - a) % 4096 == 0;
}

/// Gives the loadable segments of a file of `file_len` bytes their pages, one page
/// allocated from `pmm` for each page the segments touch (in the order they first touch
/// it), and lists the copies that bring the file bytes of each segment into its pages.
/// A segment that ends within a page of the top of the address space, or whose bytes
/// lie past the end of the file, is refused before anything is allocated; when memory
/// runs out, the pages taken so far are given back.
pub fn plan_segments(pmm: &mut Pmm, segs: &[Segment], file_len: usize) -> (r: Result<(PageMap, Vec<CopyOp>), LoaderError>)
    requires
        old(pmm).wf(),
        pmm_sane(old(pmm)@),
    ensures
        final(pmm).wf(),
        pmm_sane(final(pmm)@),
        !segs_fit(segs@, file_len as int) ==> r is Err && r->Err_0 == LoaderError::OutOfRange && final(pmm)@ == old(pmm)@,
        segs_fit(segs@, file_len as int) ==> (r is Ok <==> can_alloc_times(old(pmm)@, page_count(segs@))),
        segs_fit(segs@, file_len as int) && r is Err ==> r->Err_0 == LoaderError::OOM,
        r is Err ==> forall|x: int| allocated(final(pmm)@, x) == allocated(old(pmm)@, x),
        r matches Ok(res) ==> planned(segs@, old(pmm)@, final(pmm)@, page_map_view(res.0), res.1@),
{
    let nsegs = segs.len();
    let flen = file_len as u64;
    let mut j: usize = 0;
    while j < nsegs
        invariant
            nsegs == segs@.len(),
            j <= nsegs,
            flen == file_len,
            pmm.wf(),
            pmm_sane(pmm@),
            pmm@ == old(pmm)@,
            forall|k: int| 0 <= k < j ==> seg_fits(#[trigger] segs@[k], file_len as int),
        decreases nsegs - j,
    {
        let s = segs[j];
        if s.p_type == PT_LOAD {
            if s.p_vaddr > u64::MAX - 4096 || s.p_memsz > u64::MAX - 4096 - s.p_vaddr || s.p_offset > flen
                || s.p_filesz > flen - s.p_offset {
                proof {
                    assert(!seg_fits(segs@[j as int], file_len as int));
                }
                return Err(LoaderError::OutOfRange);
            }
        }
        j = j + 1;
    }
    let ghost before = pmm@;
    let mut pages = PageMap::new();
    let mut copies: Vec<CopyOp> = Vec::new();
    let ghost mut vs: Seq<int> = Seq::empty();
    let ghost mut done: Seq<(int, int, int)> = Seq::empty();
    proof {
        assert(segs@.take(0) =~= Seq::<Segment>::empty());
        assert(first_visits(vs) =~= Seq::<int>::empty());
        assert(alloc_times(before, 0) == before);
        assert(can_alloc_times(before, 0));
    }
    let mut j: usize = 0;
    while j < nsegs
        invariant
            nsegs == segs@.len(),
            j <= nsegs,
            flen == file_len,
            segs_fit(segs@, file_len as int),
            pmm.wf(),
            pmm_sane(pmm@),
            before == old(pmm)@,
            vs == visits(segs@.take(j as int)),
            done == load_copies(segs@.take(j as int)),
            pages_inv(page_map_view(pages), vs, before, pmm@),
            copies_inv(page_map_view(pages), done, copies@),
        decreases nsegs - j,
    {
        let s = segs[j];
        let ghost vs0 = vs;
        let ghost done0 = done;
        proof {
            assert(segs@.take(j + 1).drop_last() =~= segs@.take(j as int));
            assert(segs@.take(j + 1).last() == s);
            assert(seg_fits(segs@[j as int], file_len as int));
        }
        if s.p_type == PT_LOAD {
            let v0 = s.p_vaddr;
            let mut vaddr = v0;
            let mut off = s.p_offset;
            let mut rem = s.p_filesz;
            let pg_start = page(v0);
            let pg_end = page(v0 + s.p_memsz);
            proof {
                lemma_page_of(v0 as int, 0);
                lemma_page_of((v0 + s.p_memsz) as int, 0);
                assert(page_of(v0 as int) <= page_of(v0 + s.p_memsz)) by (nonlinear_arith)
                    requires v0 >= 0, s.p_memsz >= 0;
                lemma_aligned_span(pg_start as int, pg_end as int);
            }
            let np: u64 = 1 + (pg_end - pg_start) / 4096;
            let ghost sv = seg_visits(s);
            let ghost sc = seg_copies(s);
            let ghost mut seg_done: Seq<(int, int, int)> = Seq::empty();
            proof {
                assert(vs =~= vs0 + sv.take(0));
                assert(done =~= done0 + seg_done);
                assert(seg_done + sc =~= sc);
            }
            let mut i: u64 = 0;
            while i < np
                invariant
                    flen == file_len,
                    j < nsegs,
                    nsegs == segs@.len(),
                    s == segs@[j as int],
                    segs_fit(segs@, file_len as int),
                    vs0 == visits(segs@.take(j as int)),
                    before == old(pmm)@,
                    s.p_type == PT_LOAD,
                    seg_fits(s, file_len as int),
                    v0 == s.p_vaddr,
                    pg_start == page_of(v0 as int),
                    pg_end == page_of(v0 + s.p_memsz),
                    pg_start + (np - 1) * 4096 == pg_end,
                    np == seg_npages(s),
                    sv == seg_visits(s),
                    sc == seg_copies(s),
                    i <= np,
                    vaddr == (if i == 0 { v0 as int } else { pg_start + i * 4096 }),
                    vs == vs0 + sv.take(i as int),
                    seg_done + copy_run(vaddr as int, off as int, rem as int, (np - i) as nat) == sc,
                    done == done0 + seg_done,
                    off + rem == s.p_offset + s.p_filesz,
                    pmm.wf(),
                    pmm_sane(pmm@),
                    pages_inv(page_map_view(pages), vs, before, pmm@),
                    copies_inv(page_map_view(pages), done, copies@),
                    forall|k: int| 0 <= k < vs0.len() ==> 0 <= #[trigger] vs0[k] <= u64::MAX,
                decreases np - i,
            {
                let pg = page(vaddr);
                let po = pageoff(vaddr);
                let free = 4096 - po;
                proof {
                    lemma_page_of(v0 as int, i as int);
                    assert(pg as int == sv[i as int]);
                    assert(pg + 4096 <= pg_end + 4096);
                }
                let ghost vs_before = vs;
                let ghost pages_before = page_map_view(pages);
                let ghost fv = first_visits(vs);
                if !pages.contains_key(pg) {
                    let got = pmm.calloc(1);
                    match got {
                        Ok(a) => {
                            proof {
                                let now = alloc_times(before, fv.len());
                                lemma_full_iff(now);
                                law_alloc_hands_out_free_pages(now, 1);
                                lemma_alloc_times_last(before, fv.len());
                                lemma_sane_after_alloc(now, 1);
                                assert(allocated(alloc_state(now, 1), alloc_addr(now, 1)->Some_0 + 0 * PAGE_SIZE));
                                assert(alloc_addr(now, 1)->Some_0 + 0 * PAGE_SIZE == a);
                                lemma_allocated_frame(pmm@, a as int);
                                lemma_first_visits_in(vs);
                                assert((vs.push(pg as int)).drop_last() =~= vs);
                                assert(!vs.contains(pg as int));
                                assert(first_visits(vs.push(pg as int)) == fv.push(pg as int));
                                assert forall|jj: nat| jj < fv.len() + 1 implies !pmm_full(#[trigger] alloc_times(before, jj)) by {
                                    if jj < fv.len() {
                                        assert(!pmm_full(alloc_times(before, jj)));
                                    }
                                }
                            }
                            pages.insert(pg, a);
                            proof {
                                vs = vs.push(pg as int);
                                let pm = page_map_view(pages);
                                let fv2 = first_visits(vs);
                                assert forall|k: int| 0 <= k < fv2.len() implies pm[#[trigger] fv2[k] as u64] == kth_page(before, k) by {
                                    if k < fv.len() {
                                        assert(fv2[k] == fv[k]);
                                        assert(vs_before.contains(fv[k]));
                                        assert(fv[k] != pg as int);
                                        let w = choose|w: int| 0 <= w < vs_before.len() && vs_before[w] == fv[k];
                                        assert(0 <= vs_before[w] <= u64::MAX);
                                        assert(fv[k] as u64 != pg);
                                    }
                                }
                                assert forall|p: u64| pm.contains_key(p) <==> vs.contains(p as int) by {
                                    if vs_before.contains(p as int) {
                                        let w = choose|w: int| 0 <= w < vs_before.len() && vs_before[w] == p as int;
                                        assert(vs[w] == p as int);
                                    }
                                    if vs.contains(p as int) && p != pg {
                                        let w = choose|w: int| 0 <= w < vs.len() && vs[w] == p as int;
                                        assert(w < vs_before.len());
                                        assert(vs_before[w] == p as int);
                                    }
                                    assert(vs[vs.len() - 1] == pg as int);
                                }
                                assert forall|c: int| 0 <= c < copies@.len() implies copies@[c] == phys_copy(pm, #[trigger] done[c]) by {
                                    assert(pages_before.contains_key(page_of(done[c].0) as u64));
                                }
                                lemma_taken_after_alloc(pages_before, pg, before, alloc_times(before, fv.len()));
                            }
                        },
                        Err(_) => {
                            proof {
                                let now = alloc_times(before, fv.len());
                                lemma_full_iff(now);
                                lemma_visits_prefix(segs@, j + 1);
                                let full = visits(segs@);
                                let upto = visits(segs@.take(j + 1));
                                assert(segs@.take(j + 1).drop_last() =~= segs@.take(j as int));
                                assert(segs@.take(j + 1).last() == s);
                                assert(upto == vs0 + sv);
                                assert(vs.push(pg as int) =~= upto.take(vs.len() + 1int));
                                assert(full.take(vs.len() + 1int) =~= upto.take(vs.len() + 1int));
                                lemma_first_visits_mono(full, vs.len() + 1int);
                                lemma_first_visits_in(vs);
                                assert((vs.push(pg as int)).drop_last() =~= vs);
                                assert(!vs.contains(pg as int));
                                assert(first_visits(vs.push(pg as int)) == fv.push(pg as int));
                                let total = first_visits(full).len();
                                assert(fv.len() < total);
                                assert(pmm_full(now));
                                if can_alloc_times(before, total) {
                                    assert(!pmm_full(alloc_times(before, fv.len())));
                                }
                                assert(!can_alloc_times(before, first_visits(visits(segs@)).len()));
                            }
                            give_back(pmm, &pages, Ghost(before));
                            return Err(LoaderError::OOM);
                        },
                    }
                } else {
                    proof {
                        assert((vs.push(pg as int)).drop_last() =~= vs);
                        assert(vs.contains(pg as int));
                        assert(first_visits(vs.push(pg as int)) == fv);
                        vs = vs.push(pg as int);
                        assert forall|p: u64| page_map_view(pages).contains_key(p) <==> vs.contains(p as int) by {
                            if vs_before.contains(p as int) {
                                let w = choose|w: int| 0 <= w < vs_before.len() && vs_before[w] == p as int;
                                assert(vs[w] == p as int);
                            }
                            if vs.contains(p as int) && p != pg {
                                let w = choose|w: int| 0 <= w < vs.len() && vs[w] == p as int;
                                assert(w < vs_before.len());
                                assert(vs_before[w] == p as int);
                            }
                        }
                    }
                }
                proof {
                    assert(vs =~= vs0 + sv.take(i + 1));
                }
                let ghost pmv = page_map_view(pages);
                if rem > 0 {
                    let dst = match pages.get(pg) {
                        Some(d) => d,
                        None => 0,
                    };
                    let n = if rem < free { rem } else { free };
                    let op = CopyOp { dst: dst + po, src: off, n: n };
                    proof {
                        let x = (vaddr as int, off as int, n as int);
                        assert(copy_run(vaddr as int, off as int, rem as int, (np - i) as nat)
                            == seq![x] + copy_run(vaddr + free, off + n, rem - n, (np - i - 1) as nat));
                        assert(seg_done.push(x) + copy_run(vaddr + free, off + n, rem - n, (np - i - 1) as nat)
                            =~= seg_done + (seq![x] + copy_run(vaddr + free, off + n, rem - n, (np - i - 1) as nat)));
                        assert(page_of(vaddr as int) == pg as int);
                        assert(op == phys_copy(pmv, x));
                        seg_done = seg_done.push(x);
                        done = done.push(x);
                        assert(done =~= done0 + seg_done);
                    }
                    copies.push(op);
                    rem = rem - n;
                    off = off + n;
                } else {
                    proof {
                        assert(copy_run(vaddr + free, off as int, 0, (np - i - 1) as nat) =~= Seq::<(int, int, int)>::empty());
                    }
                }
                vaddr = vaddr + free;
                i = i + 1;
            }
            proof {
                assert(copy_run(vaddr as int, off as int, rem as int, 0) =~= Seq::<(int, int, int)>::empty());
                assert(seg_done =~= sc);
                assert(sv.take(np as int) =~= sv);
            }
        } else {
            proof {
                assert(seg_visits(s) =~= Seq::<int>::empty());
                assert(vs =~= vs0 + seg_visits(s));
                assert(done =~= done0 + seg_copies(s));
            }
        }
        j = j + 1;
    }
    proof {
        assert(segs@.take(nsegs as int) =~= segs@);
    }
    Ok((pages, copies))
}


/// What the loader knows of a program once its segments are placed: the page each of its
/// pages is given (by its address in the program), the copies that fill them from the
/// file, its entry point, and the base it is loaded at, once chosen.
pub struct ELFInfo {
    pub pages: PageMap,
    pub copies: Vec<CopyOp>,
    pub entry: u64,
    pub base: Option<u64>,
}

/// Reads the program headers of the ELF file `data` and places its loadable segments
/// (see `plan_segments`); the entry point is read from the file header.
pub fn parse(pmm: &mut Pmm, data: &[u8]) -> (r: Result<ELFInfo, LoaderError>)
    requires
        old(pmm).wf(),
        pmm_sane(old(pmm)@),
    ensures
        final(pmm).wf(),
        pmm_sane(final(pmm)@),
        !elf_parses(data@) ==> r is Err && r->Err_0 == LoaderError::Malformed && final(pmm)@ == old(pmm)@,
        elf_parses(data@) && elf_segments(data@) is None ==> r is Err && r->Err_0 == LoaderError::NoPHDRs
            && final(pmm)@ == old(pmm)@,
        elf_parses(data@) && elf_segments(data@) is Some ==> {
            let segs = elf_segments(data@)->Some_0;
            &&& !segs_fit(segs, data@.len() as int) ==> r is Err && r->Err_0 == LoaderError::OutOfRange
                && final(pmm)@ == old(pmm)@
            &&& segs_fit(segs, data@.len() as int) ==> (r is Ok <==> can_alloc_times(old(pmm)@, page_count(segs)))
            &&& segs_fit(segs, data@.len() as int) && r is Err ==> r->Err_0 == LoaderError::OOM
        },
        r is Err ==> forall|x: int| allocated(final(pmm)@, x) == allocated(old(pmm)@, x),
        r matches Ok(info) ==> {
            &&& elf_parses(data@)
            &&& elf_segments(data@) is Some
            &&& planned(elf_segments(data@)->Some_0, old(pmm)@, final(pmm)@, page_map_view(info.pages), info.copies@)
            &&& info.entry == elf_entry(data@)
            &&& info.base is None
        },
{
    let segs = match read_segments(data) {
        Ok(Some(v)) => v,
        Ok(None) => {
            return Err(LoaderError::NoPHDRs);
        },
        Err(_) => {
            return Err(LoaderError::Malformed);
        },
    };
    let entry = match read_entry(data) {
        Ok(e) => e,
        Err(_) => {
            return Err(LoaderError::Malformed);
        },
    };
    match plan_segments(pmm, segs.as_slice(), data.len()) {
        Ok((pages, copies)) => Ok(ELFInfo { pages, copies, entry, base: None }),
        Err(e) => Err(e),
    }
}

/// The value relocation `r` stores, given what looking up its symbol gave (consulted
/// only for `R_X86_64_GLOB_DAT`): the base plus the addend, or the symbol's value.
pub open spec fn rela_value(base: u64, r: Rela, sym: Result<Option<u64>, ()>) -> Result<u64, LoaderError> {
    if r.r_type == R_X86_64_RELATIVE {
        Ok(base.wrapping_add(r.r_addend as u64))
    } else if r.r_type == R_X86_64_GLOB_DAT {
        match sym {
            Ok(Some(v)) => Ok(v),
            Ok(None) => Err(LoaderError::NoSymbols),
            Err(_) => Err(LoaderError::Malformed),
        }
    } else {
        Err(LoaderError::EnigmaRelocation)
    }
}

/// The physical address that a relocation at program address `r_offset` writes to: its
/// page placed by `pages`, which must place it, and 8-byte aligned.
pub open spec fn rela_target(pages: Map<u64, u64>, r_offset: u64) -> Result<u64, LoaderError> {
    let pg = (r_offset - r_offset % 4096) as u64;
    if !pages.contains_key(pg) {
        Err(LoaderError::OutOfRange)
    } else if (pages[pg] + r_offset % 4096) % 8 != 0 {
        Err(LoaderError::Unaligned)
    } else {
        Ok((pages[pg] + r_offset % 4096) as u64)
    }
}

/// Each page placed by `pages` is a page-aligned frame address.
pub open spec fn frames_placed(pages: Map<u64, u64>) -> bool {
    forall|p: u64| pages.contains_key(p) ==> #[trigger] pages[p] % 4096 == 0 && pages[p] < 0x10_0000_0000_0000
}

/// The symbol lookup that relocation `r` of `data` makes, if any.
pub open spec fn rela_symbol(data: Seq<u8>, r: Rela) -> Result<Option<u64>, ()> {
    if r.r_type == R_X86_64_GLOB_DAT {
        elf_symbol_value(data, r.r_sym)
    } else {
        Ok(None)
    }
}

/// The (address, value) writes of relocations `rs` of `data`, in order, or the first
/// error.
pub open spec fn rela_writes(data: Seq<u8>, pages: Map<u64, u64>, base: u64, rs: Seq<Rela>) -> Result<Seq<(u64, u64)>, LoaderError>
    decreases rs.len(),
{
    if rs.len() == 0 {
        Ok(Seq::empty())
    } else {
        match rela_writes(data, pages, base, rs.drop_last()) {
            Ok(w) => match rela_value(base, rs.last(), rela_symbol(data, rs.last())) {
                Ok(v) => match rela_target(pages, rs.last().r_offset) {
                    Ok(t) => Ok(w.push((t, v))),
                    Err(e) => Err(e),
                },
                Err(e) => Err(e),
            },
            Err(e) => Err(e),
        }
    }
}

/// The writes of the relocation sections among `secs`, section after section, or the
/// first error.
pub open spec fn section_writes(data: Seq<u8>, pages: Map<u64, u64>, base: u64, secs: Seq<Section>) -> Result<Seq<(u64, u64)>, LoaderError>
    decreases secs.len(),
{
    if secs.len() == 0 {
        Ok(Seq::empty())
    } else {
        match section_writes(data, pages, base, secs.drop_last()) {
            Ok(w) => if secs.last().sh_type == SHT_RELA {
                match elf_relas(data, secs.last()) {
                    Some(rs) => match rela_writes(data, pages, base, rs) {
                        Ok(w2) => Ok(w + w2),
                        Err(e) => Err(e),
                    },
                    None => Err(LoaderError::Malformed),
                }
            } else {
                Ok(w)
            },
            Err(e) => Err(e),
        }
    }
}

/// The writes that solve the relocations of `data` for a program loaded at `base` with
/// its pages placed by `pages`.
pub open spec fn reloc_writes(data: Seq<u8>, pages: Map<u64, u64>, base: u64) -> Result<Seq<(u64, u64)>, LoaderError> {
    if !elf_parses(data) {
        Err(LoaderError::Malformed)
    } else {
        match elf_sections(data) {
            Some(secs) => section_writes(data, pages, base, secs),
            None => Err(LoaderError::NoSections),
        }
    }
}

/// The value relocation `r` stores for a program loaded at `base`, given what looking up
/// its symbol gave.
pub fn relocation_value(base: u64, r: &Rela, sym: Result<Option<u64>, ()>) -> (res: Result<u64, LoaderError>)
    ensures
        res == rela_value(base, *r, sym),
{
    if r.r_type == R_X86_64_RELATIVE {
        Ok(base.wrapping_add(r.r_addend as u64))
    } else if r.r_type == R_X86_64_GLOB_DAT {
        match sym {
            Ok(Some(v)) => Ok(v),
            Ok(None) => Err(LoaderError::NoSymbols),
            Err(_) => Err(LoaderError::Malformed),
        }
    } else {
        Err(LoaderError::EnigmaRelocation)
    }
}

/// The physical address a relocation at program address `r_offset` writes to.
pub fn relocation_target(pages: &PageMap, r_offset: u64) -> (res: Result<u64, LoaderError>)
    requires
        frames_placed(page_map_view(*pages)),
    ensures
        res == rela_target(page_map_view(*pages), r_offset),
{
    let pg = page(r_offset);
    let phys = match pages.get(pg) {
        Some(p) => p,
        None => {
            return Err(LoaderError::OutOfRange);
        },
    };
    let phys = phys + pageoff(r_offset);
    if phys % 8 != 0 {
        return Err(LoaderError::Unaligned);
    }
    Ok(phys)
}

proof fn lemma_rela_writes_err(data: Seq<u8>, pages: Map<u64, u64>, base: u64, rs: Seq<Rela>, i: int)
    requires
        0 <= i <= rs.len(),
        rela_writes(data, pages, base, rs.take(i)) is Err,
    ensures
        rela_writes(data, pages, base, rs) == rela_writes(data, pages, base, rs.take(i)),
    decreases rs.len(),
{
    if i < rs.len() {
        assert(rs.drop_last().take(i) =~= rs.take(i));
        lemma_rela_writes_err(data, pages, base, rs.drop_last(), i);
    } else {
        assert(rs.take(i) =~= rs);
    }
}

proof fn lemma_section_writes_err(data: Seq<u8>, pages: Map<u64, u64>, base: u64, secs: Seq<Section>, i: int)
    requires
        0 <= i <= secs.len(),
        section_writes(data, pages, base, secs.take(i)) is Err,
    ensures
        section_writes(data, pages, base, secs) == section_writes(data, pages, base, secs.take(i)),
    decreases secs.len(),
{
    if i < secs.len() {
        assert(secs.drop_last().take(i) =~= secs.take(i));
        lemma_section_writes_err(data, pages, base, secs.drop_last(), i);
    } else {
        assert(secs.take(i) =~= secs);
    }
}

/// The writes of the relocations `rs` made before the first one that fails: those of
/// the longest prefix of `rs` whose relocations all succeed.
pub open spec fn rela_done(data: Seq<u8>, pages: Map<u64, u64>, base: u64, rs: Seq<Rela>) -> Seq<(u64, u64)>
    decreases rs.len(),
{
    if rs.len() == 0 {
        Seq::empty()
    } else {
        match rela_writes(data, pages, base, rs) {
            Ok(w) => w,
            Err(_) => rela_done(data, pages, base, rs.drop_last()),
        }
    }
}

/// The writes of the relocation sections among `secs` made before the first failure:
/// those of the sections before the failing one, then those its relocations made.
pub open spec fn section_done(data: Seq<u8>, pages: Map<u64, u64>, base: u64, secs: Seq<Section>) -> Seq<(u64, u64)>
    decreases secs.len(),
{
    if secs.len() == 0 {
        Seq::empty()
    } else {
        match section_writes(data, pages, base, secs.drop_last()) {
            Ok(w) => if secs.last().sh_type == SHT_RELA {
                match elf_relas(data, secs.last()) {
                    Some(rs) => w + rela_done(data, pages, base, rs),
                    None => w,
                }
            } else {
                w
            },
            Err(_) => section_done(data, pages, base, secs.drop_last()),
        }
    }
}

/// The relocation writes that solving the relocations of `data` makes before it stops:
/// all of them when it succeeds, those before the failing relocation when it fails.
pub open spec fn reloc_done(data: Seq<u8>, pages: Map<u64, u64>, base: u64) -> Seq<(u64, u64)> {
    if !elf_parses(data) {
        Seq::empty()
    } else {
        match elf_sections(data) {
            Some(secs) => section_done(data, pages, base, secs),
            None => Seq::empty(),
        }
    }
}

proof fn lemma_rela_done_ok(data: Seq<u8>, pages: Map<u64, u64>, base: u64, rs: Seq<Rela>)
    requires
        rela_writes(data, pages, base, rs) is Ok,
    ensures
        rela_done(data, pages, base, rs) == rela_writes(data, pages, base, rs)->Ok_0,
{
}

proof fn lemma_rela_done_stop(data: Seq<u8>, pages: Map<u64, u64>, base: u64, rs: Seq<Rela>, m: int)
    requires
        0 <= m < rs.len(),
        rela_writes(data, pages, base, rs.take(m)) is Ok,
        rela_writes(data, pages, base, rs.take(m + 1)) is Err,
    ensures
        rela_done(data, pages, base, rs) == rela_writes(data, pages, base, rs.take(m))->Ok_0,
    decreases rs.len(),
{
    lemma_rela_writes_err(data, pages, base, rs, m + 1);
    assert(rela_writes(data, pages, base, rs) is Err);
    assert(rela_done(data, pages, base, rs) == rela_done(data, pages, base, rs.drop_last()));
    if m + 1 < rs.len() {
        assert(rs.drop_last().take(m) =~= rs.take(m));
        assert(rs.drop_last().take(m + 1) =~= rs.take(m + 1));
        lemma_rela_done_stop(data, pages, base, rs.drop_last(), m);
    } else {
        assert(rs.drop_last() =~= rs.take(m));
        lemma_rela_done_ok(data, pages, base, rs.take(m));
        if m == 0 {
            assert(rela_done(data, pages, base, rs.take(m)) == Seq::<(u64, u64)>::empty());
        }
    }
}

proof fn lemma_section_done_ok(data: Seq<u8>, pages: Map<u64, u64>, base: u64, secs: Seq<Section>)
    requires
        section_writes(data, pages, base, secs) is Ok,
    ensures
        section_done(data, pages, base, secs) == section_writes(data, pages, base, secs)->Ok_0,
{
    if secs.len() > 0 {
        if secs.last().sh_type == SHT_RELA {
            let rs = elf_relas(data, secs.last())->Some_0;
            lemma_rela_done_ok(data, pages, base, rs);
        }
    }
}

/// Section `k` of `secs` fails after the sections before it succeeded, having made the
/// writes `part`: solving stops there, with those writes after the earlier ones.
proof fn lemma_section_done_stop(data: Seq<u8>, pages: Map<u64, u64>, base: u64, secs: Seq<Section>, k: int, part: Seq<(u64, u64)>)
    requires
        0 <= k < secs.len(),
        section_writes(data, pages, base, secs.take(k)) is Ok,
        section_writes(data, pages, base, secs.take(k + 1)) is Err,
        part == (if secs[k].sh_type == SHT_RELA {
            match elf_relas(data, secs[k]) {
                Some(rs) => rela_done(data, pages, base, rs),
                None => Seq::empty(),
            }
        } else {
            Seq::empty()
        }),
    ensures
        section_done(data, pages, base, secs) == section_writes(data, pages, base, secs.take(k))->Ok_0 + part,
    decreases secs.len(),
{
    lemma_section_writes_err(data, pages, base, secs, k + 1);
    if k + 1 < secs.len() {
        assert(secs.drop_last().take(k) =~= secs.take(k));
        assert(secs.drop_last().take(k + 1) =~= secs.take(k + 1));
        lemma_section_writes_err(data, pages, base, secs.drop_last(), k + 1);
        assert(section_writes(data, pages, base, secs.drop_last()) is Err);
        assert(section_done(data, pages, base, secs) == section_done(data, pages, base, secs.drop_last()));
        lemma_section_done_stop(data, pages, base, secs.drop_last(), k, part);
    } else {
        assert(secs.last() == secs[k]);
        assert(secs.drop_last() =~= secs.take(k));
        let w = section_writes(data, pages, base, secs.take(k))->Ok_0;
        if !(secs[k].sh_type == SHT_RELA && elf_relas(data, secs[k]) is Some) {
            assert(w + Seq::<(u64, u64)>::empty() =~= w);
        }
    }
}

/// The writes of relocations `rs`, in order; stops at the first error.
fn solve_rela(data: &[u8], info: &ELFInfo, base: u64, rs: &Vec<Rela>, out: &mut Vec<(u64, u64)>) -> (res: Result<(), LoaderError>)
    requires
        elf_parses(data@),
        frames_placed(page_map_view(info.pages)),
    ensures
        res is Ok ==> rela_writes(data@, page_map_view(info.pages), base, rs@) is Ok
            && final(out)@ == old(out)@ + rela_writes(data@, page_map_view(info.pages), base, rs@)->Ok_0,
        res is Err ==> rela_writes(data@, page_map_view(info.pages), base, rs@) is Err
            && res->Err_0 == rela_writes(data@, page_map_view(info.pages), base, rs@)->Err_0,
        res is Err ==> final(out)@ == old(out)@ + rela_done(data@, page_map_view(info.pages), base, rs@),
{
    let ghost pv = page_map_view(info.pages);
    let ghost out0 = out@;
    let n = rs.len();
    let mut m: usize = 0;
    proof {
        assert(rs@.take(0) =~= Seq::<Rela>::empty());
        assert(out@ =~= out0 + Seq::<(u64, u64)>::empty());
    }
    while m < n
        invariant
            n == rs@.len(),
            m <= n,
            elf_parses(data@),
            frames_placed(pv),
            pv == page_map_view(info.pages),
            rela_writes(data@, pv, base, rs@.take(m as int)) is Ok,
            out@ == out0 + rela_writes(data@, pv, base, rs@.take(m as int))->Ok_0,
            out0 == old(out)@,
        decreases n - m,
    {
        let r = rs[m];
        proof {
            assert(rs@.take(m + 1).drop_last() =~= rs@.take(m as int));
            assert(rs@.take(m + 1).last() == r);
        }
        let sym = if r.r_type == R_X86_64_GLOB_DAT {
            read_symbol_value(data, r.r_sym)
        } else {
            Ok(None)
        };
        let v = match relocation_value(base, &r, sym) {
            Ok(v) => v,
            Err(e) => {
                proof {
                    lemma_rela_writes_err(data@, pv, base, rs@, m + 1);
                    lemma_rela_done_stop(data@, pv, base, rs@, m as int);
                    assert(out@ == out0 + rela_done(data@, pv, base, rs@));
                }
                return Err(e);
            },
        };
        let t = match relocation_target(&info.pages, r.r_offset) {
            Ok(t) => t,
            Err(e) => {
                proof {
                    lemma_rela_writes_err(data@, pv, base, rs@, m + 1);
                    lemma_rela_done_stop(data@, pv, base, rs@, m as int);
                    assert(out@ == out0 + rela_done(data@, pv, base, rs@));
                }
                return Err(e);
            },
        };
        out.push((t, v));
        m = m + 1;
        proof {
            assert(out@ =~= out0 + rela_writes(data@, pv, base, rs@.take(m as int))->Ok_0);
        }
    }
    proof {
        assert(rs@.take(n as int) =~= rs@);
    }
    Ok(())
}

/// Solves the relocations of the ELF file `data` for the program of `info`, loaded at
/// `info.base`: appends to `out`, in order, the (physical address, value) writes they ask
/// for, up to the first relocation that fails, whose error it gives back.
pub fn solve_relocations(info: &ELFInfo, data: &[u8], out: &mut Vec<(u64, u64)>) -> (r: Result<(), LoaderError>)
    requires
        info.base is Some,
        frames_placed(page_map_view(info.pages)),
    ensures
        r is Ok <==> reloc_writes(data@, page_map_view(info.pages), info.base->Some_0) is Ok,
        r is Err ==> r->Err_0 == reloc_writes(data@, page_map_view(info.pages), info.base->Some_0)->Err_0,
        final(out)@ == old(out)@ + reloc_done(data@, page_map_view(info.pages), info.base->Some_0),
        r is Ok ==> reloc_done(data@, page_map_view(info.pages), info.base->Some_0)
            == reloc_writes(data@, page_map_view(info.pages), info.base->Some_0)->Ok_0,
{
    let base = match info.base {
        Some(b) => b,
        None => 0,
    };
    let ghost pv = page_map_view(info.pages);
    let ghost out0 = out@;
    let secs = match read_sections(data) {
        Ok(Some(v)) => v,
        Ok(None) => {
            proof {
                assert(out@ =~= out0 + Seq::<(u64, u64)>::empty());
            }
            return Err(LoaderError::NoSections);
        },
        Err(_) => {
            proof {
                assert(out@ =~= out0 + Seq::<(u64, u64)>::empty());
            }
            return Err(LoaderError::Malformed);
        },
    };
    let n = secs.len();
    let mut k: usize = 0;
    proof {
        assert(secs@.take(0) =~= Seq::<Section>::empty());
        assert(out@ =~= out0 + Seq::<(u64, u64)>::empty());
    }
    while k < n
        invariant
            n == secs@.len(),
            k <= n,
            elf_parses(data@),
            elf_sections(data@) == Some(secs@),
            info.base == Some(base),
            frames_placed(pv),
            pv == page_map_view(info.pages),
            section_writes(data@, pv, base, secs@.take(k as int)) is Ok,
            out@ == out0 + section_writes(data@, pv, base, secs@.take(k as int))->Ok_0,
            out0 == old(out)@,
        decreases n - k,
    {
        let sh = secs[k];
        proof {
            assert(secs@.take(k + 1).drop_last() =~= secs@.take(k as int));
            assert(secs@.take(k + 1).last() == sh);
        }
        if sh.sh_type == SHT_RELA {
            let rs = match read_relas(data, &sh) {
                Ok(v) => v,
                Err(_) => {
                    proof {
                        lemma_section_writes_err(data@, pv, base, secs@, k + 1);
                        lemma_section_done_stop(data@, pv, base, secs@, k as int, Seq::empty());
                        assert(out@ =~= out0 + (section_writes(data@, pv, base, secs@.take(k as int))->Ok_0 + Seq::<(u64, u64)>::empty()));
                    }
                    return Err(LoaderError::Malformed);
                },
            };
            let ghost before = out@;
            match solve_rela(data, info, base, &rs, out) {
                Ok(()) => {
                    proof {
                        assert(out@ =~= out0 + section_writes(data@, pv, base, secs@.take(k + 1))->Ok_0);
                    }
                },
                Err(e) => {
                    proof {
                        lemma_section_writes_err(data@, pv, base, secs@, k + 1);
                        lemma_section_done_stop(data@, pv, base, secs@, k as int, rela_done(data@, pv, base, rs@));
                        assert(out@ =~= out0 + (section_writes(data@, pv, base, secs@.take(k as int))->Ok_0 + rela_done(data@, pv, base, rs@)));
                    }
                    return Err(e);
                },
            }
        }
        k = k + 1;
    }
    proof {
        assert(secs@.take(n as int) =~= secs@);
        lemma_section_done_ok(data@, pv, base, secs@);
    }
    Ok(())
}


/// The PID that the task table hands out next: the last one given back, if any, else
/// the next new one.
pub open spec fn next_alloc_pid(tasks: Tasks) -> PID {
    if tasks.free_pids().len() > 0 {
        tasks.free_pids().last()
    } else {
        tasks.next_pid()
    }
}

/// The task table `after` is `before` with at most a PID handed out: the tasks there
/// were are unchanged (no entry point or stack set), and every task added is fresh.
pub open spec fn only_pid_taken(before: Seq<Task>, after: Seq<Task>) -> bool {
    &&& before.len() <= after.len()
    &&& forall|i: int| 0 <= i < before.len() ==> after[i] == before[i]
    &&& forall|i: int| before.len() <= i < after.len() ==> Task::is_fresh(#[trigger] after[i])
}

/// The mapping of program page `virt`, loaded at `base`, to its page `phys`.
pub open spec fn page_mapping(virt: u64, phys: u64, base: u64) -> Mapping {
    Mapping { virt: (virt + base) as u64, phys, npages: 1, global: false, ro: false, nx: false, pcd: false }
}

/// `ms` maps each page placed by `pages` once, at `base`, in some order.
pub open spec fn maps_pages(ms: Seq<Mapping>, pages: Map<u64, u64>, base: u64) -> bool {
    &&& ms.len() == pages.dom().len()
    &&& forall|i: int| 0 <= i < ms.len() ==> exists|v: u64| pages.contains_key(v) && #[trigger] ms[i] == page_mapping(v, pages[v], base)
    &&& forall|v: u64| pages.contains_key(v) ==> exists|i: int| 0 <= i < ms.len() && #[trigger] ms[i] == page_mapping(v, pages[v], base)
}

/// The page map that placing `segs` from the manager's state `before` gives: each page
/// the segments touch, to the page allocated for it.
pub open spec fn layout_map(segs: Seq<Segment>, before: Seq<RegionView>) -> Map<u64, u64> {
    let fv = first_visits(visits(segs));
    Map::new(
        |p: u64| visits(segs).contains(p as int),
        |p: u64| kth_page(before, choose|k: int| 0 <= k < fv.len() && fv[k] == p as int),
    )
}

/// Every program page a load would map fits below the top of the address space when
/// the program is loaded at `base`.
pub open spec fn visits_fit(segs: Seq<Segment>, base: u64) -> bool {
    forall|i: int| 0 <= i < visits(segs).len() ==> #[trigger] visits(segs)[i] + base + 4096 <= u64::MAX
}

/// Every program page, loaded at `base`, ends below the top of the address space.
pub open spec fn pages_fit(pages: Map<u64, u64>, base: u64) -> bool {
    forall|v: u64| pages.contains_key(v) ==> v + base + 4096 <= u64::MAX
}

/// The addresses the program's pages take when it is loaded at `base`.
pub open spec fn program_virts(pages: Map<u64, u64>, base: u64) -> Set<u64> {
    Set::new(|a: u64| exists|v: u64| #[trigger] pages.contains_key(v) && a == (v + base) as u64)
}

/// How many page tables mapping the program's pages at `base` adds to the tables at
/// `paths`: those on the way to its pages that do not exist yet.
pub open spec fn tables_to_add(paths: Set<Seq<int>>, pages: Map<u64, u64>, base: u64) -> nat {
    tables_for(program_virts(pages, base)).difference(paths).len()
}

proof fn lemma_layout_map(segs: Seq<Segment>, before: Seq<RegionView>, pages: Map<u64, u64>, copies: Seq<CopyOp>)
    requires
        layout(segs, before, pages, copies),
    ensures
        pages == layout_map(segs, before),
        pages.dom().len() <= page_count(segs),
{
    let vs = visits(segs);
    let fv = first_visits(vs);
    let lm = layout_map(segs, before);
    lemma_first_visits_covers(vs);
    assert forall|p: u64| #[trigger] pages.contains_key(p) implies lm.contains_key(p) && pages[p] == lm[p] by {
        assert(vs.contains(p as int));
        assert(fv.contains(p as int));
        let k = choose|k: int| 0 <= k < fv.len() && fv[k] == p as int;
        assert(pages[fv[k] as u64] == kth_page(before, k));
    }
    assert(pages =~= lm);
    let u = fv.map_values(|x: int| x as u64);
    assert forall|p: u64| pages.dom().contains(p) implies #[trigger] u.to_set().contains(p) by {
        assert(fv.contains(p as int));
        let k = choose|k: int| 0 <= k < fv.len() && fv[k] == p as int;
        assert(u[k] == p);
    }
    vstd::seq_lib::seq_to_set_is_finite(u);
    vstd::set_lib::lemma_len_subset(pages.dom(), u.to_set());
    u.lemma_cardinality_of_set();
}

/// A program loaded: its PID, its layout, the writes that solve its relocations (to be
/// made after the copies of its layout), and the mappings made for its pages, in order.
pub struct Loaded {
    pub pid: PID,
    pub info: ELFInfo,
    pub writes: Vec<(u64, u64)>,
    pub mappings: Vec<Mapping>,
}

/// What a load that failed in its relocations leaves behind in memory: the program's
/// pages (still in use), with its file bytes copied into them, and the relocation writes
/// made before the one that failed.
pub struct Leftover {
    pub info: ELFInfo,
    pub writes: Vec<(u64, u64)>,
}

/// The program's pages hold none of the tables: not the first ones (`first`), and not
/// those added since `pm0`, in whose state the program's pages were in use already.
proof fn lemma_program_pages_apart(pv: Map<u64, u64>, pt: &Paging, first: Seq<u64>, pm0: Seq<RegionView>, now: Seq<RegionView>)
    requires
        forall|p: u64| pv.contains_key(p) ==> allocated(pm0, #[trigger] pv[p] as int),
        forall|p: u64, j: int| pv.contains_key(p) && 0 <= j < first.len() ==> #[trigger] first[j] != #[trigger] pv[p],
        tables_grow(first, pt.frames(), pm0),
        keeps_allocated(pm0, now),
    ensures
        forall|p: u64, j: int| pv.contains_key(p) && 0 <= j < pt.frames().len() ==> #[trigger] pt.frames()[j] != #[trigger] pv[p],
        forall|p: u64| pv.contains_key(p) ==> allocated(now, #[trigger] pv[p] as int),
{
    assert forall|p: u64, j: int| pv.contains_key(p) && 0 <= j < pt.frames().len() implies #[trigger] pt.frames()[j] != #[trigger] pv[p] by {
        if j < first.len() {
            assert(pt.frames()[j] == first[j]);
        } else {
            assert(!allocated(pm0, pt.frames()[j] as int));
            assert(allocated(pm0, pv[p] as int));
        }
    }
    assert forall|p: u64| pv.contains_key(p) implies allocated(now, #[trigger] pv[p] as int) by {
        assert(allocated(pm0, pv[p] as int));
    }
}

/// After the program's pages are given back from `mid`, which keeps what was in use in
/// `before`, none of them is in use, and every other page in use in `before` still is.
proof fn lemma_released(pv: Map<u64, u64>, before: Seq<RegionView>, mid: Seq<RegionView>, after: Seq<RegionView>)
    requires
        keeps_allocated(before, mid),
        forall|x: int| #[trigger] allocated(after, x) <==> (allocated(mid, x) && !placed(pv, x)),
    ensures
        forall|p: u64| pv.contains_key(p) ==> !allocated(after, #[trigger] pv[p] as int),
        forall|x: int| allocated(before, x) && !placed(pv, x) ==> #[trigger] allocated(after, x),
{
    assert forall|p: u64| pv.contains_key(p) implies !allocated(after, #[trigger] pv[p] as int) by {
        assert(placed(pv, pv[p] as int));
    }
}

/// Maps each page of the program of `info` at `base`, in the order the page map lists
/// them; gives back the mappings made. It succeeds exactly when every page fits below
/// the top of the address space and the manager has room for the tables on the way to
/// them that do not exist yet. When a program page would end within a page of the top
/// of the address space, or the page tables cannot get memory, the program's pages are
/// given back.
fn map_program(pt: &mut Paging, pmm: &mut Pmm, info: &ELFInfo, base: u64) -> (r: Result<Vec<Mapping>, LoaderError>)
    requires
        old(pt).wf(),
        old(pmm).wf(),
        pmm_sane(old(pmm)@),
        old(pt).frames_allocated(old(pmm)@),
        frames_placed(page_map_view(info.pages)),
        base <= 0xFFFF_FFFF_0000_0000,
        forall|p: u64| page_map_view(info.pages).contains_key(p) ==> allocated(old(pmm)@, #[trigger] page_map_view(info.pages)[p] as int),
        forall|p: u64, q: u64| page_map_view(info.pages).contains_key(p) && page_map_view(info.pages).contains_key(q) && p != q
            ==> #[trigger] page_map_view(info.pages)[p] != #[trigger] page_map_view(info.pages)[q],
        forall|p: u64, j: int| page_map_view(info.pages).contains_key(p) && 0 <= j < old(pt).frames().len()
            ==> #[trigger] old(pt).frames()[j] != #[trigger] page_map_view(info.pages)[p],
    ensures
        final(pt).wf(),
        final(pmm).wf(),
        pmm_sane(final(pmm)@),
        final(pt).frames_allocated(final(pmm)@),
        r matches Ok(ms) ==> maps_pages(ms@, page_map_view(info.pages), base),
        r matches Ok(ms) ==> final(pt)@ == map_all(old(pt)@, ms@),
        r is Err ==> r->Err_0 == LoaderError::OutOfRange || r->Err_0 == LoaderError::OOM,
        r is Ok <==> pages_fit(page_map_view(info.pages), base)
            && can_alloc_times(old(pmm)@, tables_to_add(old(pt).path_set(), page_map_view(info.pages), base)),
        r is Err && (forall|v: u64| page_map_view(info.pages).contains_key(v) ==> v + base + 4096 <= u64::MAX)
            ==> r->Err_0 == LoaderError::OOM,
        r is Err ==> forall|p: u64| page_map_view(info.pages).contains_key(p)
            ==> !allocated(final(pmm)@, #[trigger] page_map_view(info.pages)[p] as int),
        r is Err ==> forall|x: int| allocated(old(pmm)@, x) && !placed(page_map_view(info.pages), x)
            ==> #[trigger] allocated(final(pmm)@, x),
{
    let ghost pv = page_map_view(info.pages);
    let ghost pm0 = pmm@;
    let ghost mut t: nat = 0;
    let es = info.pages.entries();
    let n = es.len();
    let mut maps: Vec<Mapping> = Vec::new();
    let mut k: usize = 0;
    let ghost paths0 = pt.path_set();
    let ghost vseq = es@.map_values(|e: (u64, u64)| (e.0 + base) as u64);
    let ghost all = vseq.to_set();
    let ghost total = tables_to_add(paths0, pv, base);
    let ghost mut vs: Set<u64> = Set::empty();
    proof {
        assert(maps@ =~= Seq::<Mapping>::empty());
        assert(map_all(old(pt)@, maps@) == old(pt)@);
        assert forall|a: u64| #[trigger] all.contains(a) <==> program_virts(pv, base).contains(a) by {
            if all.contains(a) {
                let i = choose|i: int| 0 <= i < vseq.len() && vseq[i] == a;
                assert(pv.contains_key(es@[i].0));
            }
            if program_virts(pv, base).contains(a) {
                let v = choose|v: u64| #[trigger] pv.contains_key(v) && a == (v + base) as u64;
                let i = choose|i: int| 0 <= i < es@.len() && #[trigger] es@[i].0 == v;
                assert(vseq[i] == a);
            }
        }
        assert(all =~= program_virts(pv, base));
        vstd::seq_lib::seq_to_set_is_finite(vseq);
        lemma_tables_for_finite(all);
        assert(tables_for(vs) =~= Set::empty());
        assert(paths0.union(tables_for(vs)) =~= paths0);
        assert(paths0.difference(paths0) =~= Set::empty());
    }
    while k < n
        invariant
            n == es@.len(),
            k <= n,
            base <= 0xFFFF_FFFF_0000_0000,
            pv == page_map_view(info.pages),
            frames_placed(pv),
            n == pv.dom().len(),
            forall|i: int| 0 <= i < es@.len() ==> pv.contains_key(#[trigger] es@[i].0) && pv[es@[i].0] == es@[i].1,
            maps@.len() == k,
            forall|i: int| 0 <= i < k ==> #[trigger] maps@[i] == page_mapping(es@[i].0, es@[i].1, base),
            pt.wf(),
            pmm.wf(),
            pmm_sane(pmm@),
            pt.frames_allocated(pmm@),
            pt@ == map_all(old(pt)@, maps@),
            pm0 == old(pmm)@,
            pmm@ == alloc_times(pm0, t),
            paths0 == old(pt).path_set(),
            all == program_virts(pv, base),
            vseq == es@.map_values(|e: (u64, u64)| (e.0 + base) as u64),
            all == vseq.to_set(),
            tables_for(all).finite(),
            total == tables_for(all).difference(paths0).len(),
            vs.subset_of(all),
            pt.path_set() == paths0.union(tables_for(vs)),
            pt.path_set().difference(paths0).finite(),
            t == pt.path_set().difference(paths0).len(),
            can_alloc_times(pm0, t),
            forall|i: int| 0 <= i < k ==> vs.contains(#[trigger] (es@[i].0 + base) as u64),
            forall|i: int| 0 <= i < k ==> #[trigger] es@[i].0 + base + 4096 <= u64::MAX,
            forall|p: u64| pv.contains_key(p) ==> allocated(pm0, #[trigger] pv[p] as int),
            forall|p: u64, q: u64| pv.contains_key(p) && pv.contains_key(q) && p != q ==> #[trigger] pv[p] != #[trigger] pv[q],
            forall|p: u64, j: int| pv.contains_key(p) && 0 <= j < old(pt).frames().len() ==> #[trigger] old(pt).frames()[j] != #[trigger] pv[p],
            tables_grow(old(pt).frames(), pt.frames(), pm0),
            keeps_allocated(pm0, pmm@),
        decreases n - k,
    {
        let (virt, phys) = es[k];
        proof {
            assert(pv.contains_key(es@[k as int].0));
            assert(phys % 4096 == 0 && phys < 0x10_0000_0000_0000);
            lemma_program_pages_apart(pv, pt, old(pt).frames(), pm0, pmm@);
        }
        if virt > u64::MAX - 4096 - base {
            let ghost pmr = pmm@;
            release_program(pmm, &info.pages, pt);
            proof {
                lemma_released(pv, pm0, pmr, pmm@);
            }
            return Err(LoaderError::OutOfRange);
        }
        let m = Paging::newmap(virt + base, phys);
        let ghost maps0 = maps@;
        let ghost pmb = pmm@;
        let ghost ptb = *pt;
        let mapped = pt.map(pmm, m);
        let ghost vb = (virt + base) as u64;
        let ghost pb = ptb.path_set();
        let ghost miss = missing_in(pb, vb);
        proof {
            crate::mem::paging::lemma_tables_grow_trans(old(pt).frames(), ptb.frames(), pt.frames(), pm0, pmb);
            crate::mem::paging::lemma_keeps_trans(pm0, pmb, pmm@);
            assert(crate::mem::paging::page_virt(m, 0) == vb);
            ptb.lemma_parents_exist(vb);
            lemma_with_path_count(paths0, pb, vb);
            assert(all.contains(vb)) by {
                assert(vseq[k as int] == vb);
            }
            lemma_tables_for_insert(vs, vb);
            assert(with_path_of(pb, vb) =~= paths0.union(tables_for(vs.insert(vb))));
            lemma_tables_for_mono(vs.insert(vb), all);
            assert(with_path_of(pb, vb).difference(paths0).subset_of(tables_for(all).difference(paths0)));
            vstd::set_lib::lemma_len_subset(with_path_of(pb, vb).difference(paths0), tables_for(all).difference(paths0));
            if can_alloc_times(pm0, total) {
                lemma_can_mono(pm0, total, t + miss);
                lemma_can_shift(pm0, t, miss);
            }
        }
        if mapped.is_err() {
            proof {
                lemma_program_pages_apart(pv, pt, old(pt).frames(), pm0, pmm@);
            }
            let ghost pmr = pmm@;
            release_program(pmm, &info.pages, pt);
            proof {
                lemma_released(pv, pm0, pmr, pmm@);
            }
            return Err(LoaderError::OOM);
        }
        maps.push(m);
        proof {
            assert(maps@.drop_last() =~= maps0);
            assert(maps@.last() == m);
            lemma_alloc_times_add(pm0, t, miss);
            lemma_can_join(pm0, t, miss);
            t = t + miss;
            vs = vs.insert(vb);
        }
        k = k + 1;
    }
    proof {
        assert(vs =~= all) by {
            assert forall|a: u64| all.contains(a) implies vs.contains(a) by {
                let i = choose|i: int| 0 <= i < vseq.len() && vseq[i] == a;
                assert(vs.contains((es@[i].0 + base) as u64));
            }
        }
        assert(pt.path_set().difference(paths0) =~= tables_for(all).difference(paths0));
        assert forall|v: u64| pv.contains_key(v) implies v + base + 4096 <= u64::MAX by {
            let i = choose|i: int| 0 <= i < es@.len() && #[trigger] es@[i].0 == v;
            assert(es@[i].0 + base + 4096 <= u64::MAX);
        }
        assert forall|i: int| 0 <= i < maps@.len() implies exists|v: u64| pv.contains_key(v) && #[trigger] maps@[i] == page_mapping(v, pv[v], base) by {
            assert(pv.contains_key(es@[i].0));
        }
        assert forall|v: u64| pv.contains_key(v) implies exists|i: int| 0 <= i < maps@.len() && #[trigger] maps@[i] == page_mapping(v, pv[v], base) by {
            let i = choose|i: int| 0 <= i < es@.len() && #[trigger] es@[i].0 == v;
            assert(maps@[i] == page_mapping(v, pv[v], base));
        }
    }
    Ok(maps)
}

/// Loads the ELF program `data` as a new task: places its segments, hands out a PID,
/// solves its relocations for the PID's base, maps its pages at that base, and sets the
/// task to start at the entry point with its stack at the top of its 2 GiB.
/// Program pages that would end within a page of the top of the address space, and an
/// entry point past it, are refused as out of range; when the page tables cannot get
/// memory, the program's pages are given back. Once the program is placed and its
/// relocations solved, the load succeeds exactly when its pages fit and the memory left
/// holds the page tables its mappings add.
pub fn load(tasks: &mut Tasks, pt: &mut Paging, pmm: &mut Pmm, data: &[u8], left: &mut Option<Leftover>) -> (r: Result<Loaded, LoaderError>)
    requires
        old(tasks).wf(),
        old(tasks).next_pid() < 0xFFFF,
        old(pt).wf(),
        old(pmm).wf(),
        pmm_sane(old(pmm)@),
        old(pt).frames_allocated(old(pmm)@),
    ensures
        final(tasks).wf(),
        final(pt).wf(),
        final(pmm).wf(),
        pmm_sane(final(pmm)@),
        final(pt).frames_allocated(final(pmm)@),
        !elf_parses(data@) ==> r is Err && r->Err_0 == LoaderError::Malformed,
        elf_parses(data@) && elf_segments(data@) is None ==> r is Err && r->Err_0 == LoaderError::NoPHDRs,
        elf_parses(data@) && elf_segments(data@) is Some ==> {
            let segs = elf_segments(data@)->Some_0;
            &&& !segs_fit(segs, data@.len() as int) ==> r is Err && r->Err_0 == LoaderError::OutOfRange
            &&& segs_fit(segs, data@.len() as int) && !can_alloc_times(old(pmm)@, page_count(segs)) ==> r is Err
                && r->Err_0 == LoaderError::OOM
        },
        r is Err && (!elf_parses(data@) || elf_segments(data@) is None || !segs_fit(elf_segments(data@)->Some_0, data@.len() as int)
            || !can_alloc_times(old(pmm)@, page_count(elf_segments(data@)->Some_0))) ==> {
            &&& *final(tasks) == *old(tasks)
            &&& final(pt)@ == old(pt)@
            &&& forall|x: int| allocated(final(pmm)@, x) == allocated(old(pmm)@, x)
        },
        ({
            let segs = elf_segments(data@)->Some_0;
            &&& elf_parses(data@)
            &&& elf_segments(data@) is Some
            &&& segs_fit(segs, data@.len() as int)
            &&& can_alloc_times(old(pmm)@, page_count(segs))
        }) ==> {
            let segs = elf_segments(data@)->Some_0;
            let base = spec_pid_to_base(next_alloc_pid(*old(tasks)) as int) as u64;
            let pages = layout_map(segs, old(pmm)@);
            &&& reloc_writes(data@, pages, base) is Err ==> {
                &&& r is Err
                &&& r->Err_0 == reloc_writes(data@, pages, base)->Err_0
                &&& final(pt)@ == old(pt)@
                &&& final(pmm)@ == alloc_times(old(pmm)@, page_count(segs))
                &&& (*final(left)) is Some
                &&& page_map_view((*final(left))->Some_0.info.pages) == pages
                &&& layout(segs, old(pmm)@, pages, (*final(left))->Some_0.info.copies@)
                &&& (*final(left))->Some_0.writes@ == reloc_done(data@, pages, base)
                &&& only_pid_taken(old(tasks)@, final(tasks)@)
            }
            &&& reloc_writes(data@, pages, base) is Ok && elf_entry(data@) + base > u64::MAX ==> {
                &&& r is Err
                &&& r->Err_0 == LoaderError::OutOfRange
                &&& final(pt)@ == old(pt)@
                &&& final(pmm)@ == alloc_times(old(pmm)@, page_count(segs))
                &&& only_pid_taken(old(tasks)@, final(tasks)@)
            }
            &&& reloc_writes(data@, pages, base) is Ok && elf_entry(data@) + base <= u64::MAX ==> (r is Ok <==> {
                &&& pages_fit(pages, base)
                &&& can_alloc_times(alloc_times(old(pmm)@, page_count(segs)), tables_to_add(old(pt).path_set(), pages, base))
            })
            &&& reloc_writes(data@, pages, base) is Ok && elf_entry(data@) + base <= u64::MAX && r is Err ==> {
                &&& visits_fit(segs, base) ==> r->Err_0 == LoaderError::OOM
                &&& forall|p: u64| pages.contains_key(p) ==> !allocated(final(pmm)@, #[trigger] pages[p] as int)
                &&& forall|x: int| allocated(old(pmm)@, x) ==> #[trigger] allocated(final(pmm)@, x)
                &&& only_pid_taken(old(tasks)@, final(tasks)@)
            }
        },
        (*final(left)) is Some ==> r is Err,
        r matches Ok(res) ==> {
            let segs = elf_segments(data@)->Some_0;
            let pages = page_map_view(res.info.pages);
            let base = spec_pid_to_base(res.pid as int) as u64;
            &&& elf_parses(data@)
            &&& elf_segments(data@) is Some
            &&& layout(segs, old(pmm)@, pages, res.info.copies@)
            &&& res.pid == next_alloc_pid(*old(tasks))
            &&& res.info.base == Some(base)
            &&& res.info.entry == elf_entry(data@)
            &&& reloc_writes(data@, pages, base) is Ok
            &&& res.writes@ == reloc_writes(data@, pages, base)->Ok_0
            &&& maps_pages(res.mappings@, pages, base)
            &&& final(pt)@ == map_all(old(pt)@, res.mappings@)
            &&& forall|i: int| 0 <= i < res.mappings@.len() ==> {
                &&& !(#[trigger] res.mappings@[i]).ro
                &&& !res.mappings@[i].nx
                &&& !res.mappings@[i].global
                &&& !res.mappings@[i].pcd
            }
            &&& forall|v: u64| #[trigger] pages.contains_key(v) ==> {
                &&& final(pt)@.contains_key(key_of((v + base) as u64))
                &&& present(final(pt)@[key_of((v + base) as u64)])
                &&& writable(final(pt)@[key_of((v + base) as u64)])
                &&& !no_execute(final(pt)@[key_of((v + base) as u64)])
            }
            &&& final(pt).frames_allocated(final(pmm)@)
            &&& res.pid < final(tasks)@.len()
            &&& final(tasks)@[res.pid as int].rip == base + elf_entry(data@)
            &&& final(tasks)@[res.pid as int].rsp == base + 0x8000_0000
        },
{
    *left = None;
    let mut info = match parse(pmm, data) {
        Ok(i) => i,
        Err(e) => {
            proof {
                pt.lemma_frames_allocated_grow(old(pmm)@, pmm@);
            }
            return Err(e);
        },
    };
    let ghost segs = elf_segments(data@)->Some_0;
    let ghost before = old(pmm)@;
    proof {
        lemma_alloc_times_keeps(before, page_count(segs));
        pt.lemma_frames_allocated_grow(before, pmm@);
        lemma_layout_map(segs, before, page_map_view(info.pages), info.copies@);
    }
    let pid = tasks.alloc_pid();
    let base = pid_to_base(pid);
    proof {
        assert(base <= 0xFFFF_FFFF_0000_0000);
    }
    info.base = Some(base);
    let ghost pv = page_map_view(info.pages);
    let mut writes: Vec<(u64, u64)> = Vec::new();
    match solve_relocations(&info, data, &mut writes) {
        Ok(()) => {},
        Err(e) => {
            proof {
                assert(writes@ =~= reloc_done(data@, pv, base));
            }
            *left = Some(Leftover { info, writes });
            return Err(e);
        },
    }
    proof {
        assert(writes@ =~= reloc_writes(data@, pv, base)->Ok_0);
    }
    proof {
        let pv = page_map_view(info.pages);
        let fv = first_visits(visits(segs));
        law_layout_pages_fresh_and_distinct(segs, before, pv, info.copies@);
        pt.lemma_frames_in_use(before);
        lemma_first_visits_covers(visits(segs));
        assert forall|p: u64| pv.contains_key(p) implies allocated(pmm@, #[trigger] pv[p] as int) by {
            assert(fv.contains(p as int));
            let k = choose|k: int| 0 <= k < fv.len() && fv[k] == p as int;
            assert(pv[fv[k] as u64] == kth_page(before, k));
            lemma_kth_page(before, k as nat, fv.len(), fv.len());
        }
        assert forall|p: u64, j: int| pv.contains_key(p) && 0 <= j < pt.frames().len() implies #[trigger] pt.frames()[j] != #[trigger] pv[p] by {
            assert(allocated(before, pt.frames()[j] as int));
            assert(!allocated(before, pv[p] as int));
        }
    }
    let entry = info.entry;
    if entry > u64::MAX - base {
        return Err(LoaderError::OutOfRange);
    }
    let ghost pmq = pmm@;
    let maps = match map_program(pt, pmm, &info, base) {
        Ok(m) => m,
        Err(e) => {
            proof {
                assert forall|x: int| allocated(old(pmm)@, x) implies #[trigger] allocated(pmm@, x) by {
                    assert(allocated(pmq, x));
                    if placed(pv, x) {
                        let p = choose|p: u64| pv.contains_key(p) && #[trigger] pv[p] as int == x;
                        assert(!allocated(before, pv[p] as int));
                    }
                }
            }
            return Err(e);
        },
    };
    proof {
        law_program_mappings_default(maps@, pv, base);
        law_map_all_entries_default(old(pt)@, maps@);
        assert forall|v: u64| #[trigger] pv.contains_key(v) implies {
            &&& pt@.contains_key(key_of((v + base) as u64))
            &&& present(pt@[key_of((v + base) as u64)])
            &&& writable(pt@[key_of((v + base) as u64)])
            &&& !no_execute(pt@[key_of((v + base) as u64)])
        } by {
            let i = choose|i: int| 0 <= i < maps@.len() && #[trigger] maps@[i] == page_mapping(v, pv[v], base);
            assert(maps@[i].virt == (v + base) as u64);
        }
    }
    tasks.set_entry(pid, base + entry, base + 0x8000_0000);
    Ok(Loaded { pid, info, writes, mappings: maps })
}

/// The mappings made for a program's pages have the default attributes: one page each,
/// writable, executable, not global, cached; so the task can run its code and write its
/// data where it is loaded.
pub proof fn law_program_mappings_default(ms: Seq<Mapping>, pages: Map<u64, u64>, base: u64)
    requires
        maps_pages(ms, pages, base),
    ensures
        forall|i: int| 0 <= i < ms.len() ==> {
            &&& (#[trigger] ms[i]).npages == 1
            &&& !ms[i].ro
            &&& !ms[i].nx
            &&& !ms[i].global
            &&& !ms[i].pcd
        },
{
    assert forall|i: int| 0 <= i < ms.len() implies {
        &&& (#[trigger] ms[i]).npages == 1
        &&& !ms[i].ro
        &&& !ms[i].nx
        &&& !ms[i].global
        &&& !ms[i].pcd
    } by {
        let v = choose|v: u64| pages.contains_key(v) && #[trigger] ms[i] == page_mapping(v, pages[v], base);
    }
}

/// After one-page mappings that are all writable and executable are made, the entry of
/// each mapped page is present, writable and executable.
pub proof fn law_map_all_entries_default(view: Map<(int, int, int, int), u64>, ms: Seq<Mapping>)
    requires
        forall|i: int| 0 <= i < ms.len() ==> (#[trigger] ms[i]).npages == 1 && !ms[i].ro && !ms[i].nx,
    ensures
        forall|i: int| 0 <= i < ms.len() ==> {
            &&& map_all(view, ms).contains_key(key_of((#[trigger] ms[i]).virt))
            &&& present(map_all(view, ms)[key_of(ms[i].virt)])
            &&& writable(map_all(view, ms)[key_of(ms[i].virt)])
            &&& !no_execute(map_all(view, ms)[key_of(ms[i].virt)])
        },
    decreases ms.len(),
{
    if ms.len() > 0 {
        let p = ms.drop_last();
        assert forall|i: int| 0 <= i < p.len() implies (#[trigger] p[i]).npages == 1 && !p[i].ro && !p[i].nx by {
            assert(p[i] == ms[i]);
        }
        law_map_all_entries_default(view, p);
        let last = ms.last();
        let prev = map_all(view, p);
        assert(map_all(view, ms) == map_pages(prev, last, 1));
        assert forall|i: int| 0 <= i < ms.len() implies {
            &&& map_all(view, ms).contains_key(key_of((#[trigger] ms[i]).virt))
            &&& present(map_all(view, ms)[key_of(ms[i].virt)])
            &&& writable(map_all(view, ms)[key_of(ms[i].virt)])
            &&& !no_execute(map_all(view, ms)[key_of(ms[i].virt)])
        } by {
            crate::mem::paging::law_lookup_after_map(prev, last, ms[i].virt);
            if i < ms.len() - 1 {
                assert(ms[i] == p[i]);
            }
        }
    }
}


proof fn lemma_first_visits_covers(s: Seq<int>)
    ensures
        forall|x: int| s.contains(x) ==> first_visits(s).contains(x),
        first_visits(s).no_duplicates(),
    decreases s.len(),
{
    if s.len() > 0 {
        let p = s.drop_last();
        lemma_first_visits_covers(p);
        lemma_first_visits_in(p);
        let d = first_visits(p);
        assert forall|x: int| s.contains(x) implies first_visits(s).contains(x) by {
            let w = choose|w: int| 0 <= w < s.len() && s[w] == x;
            if w < s.len() - 1 {
                assert(p[w] == x);
                assert(p.contains(x));
                let k = choose|k: int| 0 <= k < d.len() && d[k] == x;
                assert(first_visits(s)[k] == x);
            } else if p.contains(x) {
                let k = choose|k: int| 0 <= k < d.len() && d[k] == x;
                assert(first_visits(s)[k] == x);
            } else {
                assert(first_visits(s)[d.len() as int] == x);
            }
        }
        if !p.contains(s.last()) {
            assert forall|i: int, j: int| 0 <= i < j < first_visits(s).len() implies first_visits(s)[i] != first_visits(s)[j] by {
                if j == d.len() {
                    assert(p.contains(d[i]));
                }
            }
        }
    }
}

/// The `k`-th page handed out is free in the state it is taken from and stays in use
/// through the later allocations.
proof fn lemma_kth_page(before: Seq<RegionView>, k: nat, k2: nat, n: nat)
    requires
        pmm_sane(before),
        can_alloc_times(before, n),
        k < n,
        k < k2,
    ensures
        alloc_addr(alloc_times(before, k), 1) is Some,
        0 <= alloc_addr(alloc_times(before, k), 1)->Some_0 <= u64::MAX,
        kth_page(before, k as int) as int == alloc_addr(alloc_times(before, k), 1)->Some_0,
        !allocated(alloc_times(before, k), kth_page(before, k as int) as int),
        allocated(alloc_times(before, k2), kth_page(before, k as int) as int),
{
    let st = alloc_times(before, k);
    lemma_alloc_times_keeps(before, k);
    assert(!pmm_full(alloc_times(before, k)));
    lemma_full_iff(st);
    lemma_alloc_end(st, 1);
    law_alloc_hands_out_free_pages(st, 1);
    let a = alloc_addr(st, 1)->Some_0;
    assert(!allocated(st, a + 0 * PAGE_SIZE));
    assert(allocated(alloc_state(st, 1), a + 0 * PAGE_SIZE));
    lemma_alloc_times_last(before, k);
    lemma_sane_after_alloc(st, 1);
    lemma_alloc_times_keeps(alloc_state(st, 1), (k2 - k - 1) as nat);
    lemma_alloc_times_add(before, k + 1, (k2 - k - 1) as nat);
}

/// The pages a program is given were all free before it was placed, and no two of its
/// pages share a physical page.
pub proof fn law_layout_pages_fresh_and_distinct(
    segs: Seq<Segment>,
    before: Seq<RegionView>,
    pages: Map<u64, u64>,
    copies: Seq<CopyOp>,
)
    requires
        layout(segs, before, pages, copies),
        pmm_sane(before),
        can_alloc_times(before, page_count(segs)),
    ensures
        forall|p: u64| pages.contains_key(p) ==> !allocated(before, #[trigger] pages[p] as int),
        forall|p: u64, q: u64| pages.contains_key(p) && pages.contains_key(q) && p != q ==> #[trigger] pages[p] != #[trigger] pages[q],
{
    let vs = visits(segs);
    let fv = first_visits(vs);
    let n = fv.len();
    lemma_first_visits_covers(vs);
    assert forall|p: u64| pages.contains_key(p) implies exists|k: int| 0 <= k < n && #[trigger] fv[k] == p as int by {
        assert(vs.contains(p as int));
        assert(fv.contains(p as int));
    }
    assert forall|p: u64| pages.contains_key(p) implies !allocated(before, #[trigger] pages[p] as int) by {
        let k = choose|k: int| 0 <= k < n && #[trigger] fv[k] == p as int;
        assert(pages[fv[k] as u64] == kth_page(before, k));
        lemma_kth_page(before, k as nat, (k + 1) as nat, n);
        lemma_alloc_times_keeps(before, k as nat);
        assert(alloc_times(before, 0) == before);
    }
    assert forall|p: u64, q: u64| pages.contains_key(p) && pages.contains_key(q) && p != q implies #[trigger] pages[p] != #[trigger] pages[q] by {
        let k1 = choose|k: int| 0 <= k < n && #[trigger] fv[k] == p as int;
        let k2 = choose|k: int| 0 <= k < n && #[trigger] fv[k] == q as int;
        assert(pages[fv[k1] as u64] == kth_page(before, k1));
        assert(pages[fv[k2] as u64] == kth_page(before, k2));
        assert(k1 != k2);
        if k1 < k2 {
            lemma_kth_page(before, k1 as nat, k2 as nat, n);
            lemma_kth_page(before, k2 as nat, (k2 + 1) as nat, n);
        } else {
            lemma_kth_page(before, k2 as nat, k1 as nat, n);
            lemma_kth_page(before, k1 as nat, (k1 + 1) as nat, n);
        }
    }
}


proof fn lemma_copy_run_covers(vaddr: int, off: int, rem: int, k: nat, i: int)
    requires
        vaddr >= 0,
        0 <= i < rem,
        rem <= k * 4096 - vaddr % 4096,
    ensures
        exists|c: int| 0 <= c < copy_run(vaddr, off, rem, k).len() && {
            let x = #[trigger] copy_run(vaddr, off, rem, k)[c];
            &&& x.0 <= vaddr + i < x.0 + x.2
            &&& x.1 + (vaddr + i - x.0) == off + i
        },
    decreases k,
{
    let free = 4096 - vaddr % 4096;
    let n = if rem < free { rem } else { free };
    assert(k > 0) by (nonlinear_arith)
        requires rem > 0, rem <= k * 4096 - vaddr % 4096, vaddr % 4096 >= 0;
    let run = copy_run(vaddr, off, rem, k);
    let rest = copy_run(vaddr + free, off + n, rem - n, (k - 1) as nat);
    assert(run == seq![(vaddr, off, n)] + rest);
    if i < n {
        assert(run[0] == (vaddr, off, n));
    } else {
        assert((vaddr + free) % 4096 == 0) by (nonlinear_arith)
            requires free == 4096 - vaddr % 4096, vaddr >= 0;
        assert(rem - n <= (k - 1) * 4096 - (vaddr + free) % 4096) by (nonlinear_arith)
            requires rem <= k * 4096 - vaddr % 4096, n == free, free == 4096 - vaddr % 4096, (vaddr + free) % 4096 == 0;
        lemma_copy_run_covers(vaddr + free, off + n, rem - n, (k - 1) as nat, i - n);
        let c = choose|c: int| 0 <= c < rest.len() && {
            let x = #[trigger] rest[c];
            &&& x.0 <= vaddr + free + (i - n) < x.0 + x.2
            &&& x.1 + (vaddr + free + (i - n) - x.0) == off + n + (i - n)
        };
        assert(run[c + 1] == rest[c]);
    }
}

proof fn lemma_copy_run_in_pages(vaddr: int, off: int, rem: int, k: nat)
    requires
        vaddr >= 0,
    ensures
        forall|c: int| 0 <= c < copy_run(vaddr, off, rem, k).len() ==> {
            let x = #[trigger] copy_run(vaddr, off, rem, k)[c];
            &&& x.0 >= vaddr
            &&& 0 < x.2
            &&& x.0 % 4096 + x.2 <= 4096
        },
    decreases k,
{
    if k > 0 && rem > 0 {
        let free = 4096 - vaddr % 4096;
        let n = if rem < free { rem } else { free };
        lemma_copy_run_in_pages(vaddr + free, off + n, rem - n, (k - 1) as nat);
        let run = copy_run(vaddr, off, rem, k);
        let rest = copy_run(vaddr + free, off + n, rem - n, (k - 1) as nat);
        assert(run == seq![(vaddr, off, n)] + rest);
        assert forall|c: int| 0 <= c < run.len() implies {
            let x = #[trigger] run[c];
            &&& x.0 >= vaddr
            &&& 0 < x.2
            &&& x.0 % 4096 + x.2 <= 4096
        } by {
            if c > 0 {
                assert(run[c] == rest[c - 1]);
            }
        }
    }
}

/// Each byte of a loadable segment's file image is brought by exactly the copy that
/// covers its address, from its offset in the file; each copy stays within one page
/// (so its physical target lies in the page placed for its address).
pub proof fn law_segment_bytes_copied(s: Segment, i: int)
    requires
        s.p_type == PT_LOAD,
        s.p_filesz <= s.p_memsz,
        s.p_vaddr + s.p_memsz + 4096 <= u64::MAX,
        0 <= i < s.p_filesz,
    ensures
        exists|c: int| 0 <= c < seg_copies(s).len() && {
            let x = #[trigger] seg_copies(s)[c];
            &&& x.0 <= s.p_vaddr + i < x.0 + x.2
            &&& x.1 + (s.p_vaddr + i - x.0) == s.p_offset + i
        },
        forall|c: int| 0 <= c < seg_copies(s).len() ==> {
            let x = #[trigger] seg_copies(s)[c];
            &&& page_of(x.0) == page_of(x.0 + x.2 - 1)
            &&& x.0 % 4096 + x.2 <= 4096
        },
{
    let v = s.p_vaddr as int;
    let e = s.p_vaddr + s.p_memsz;
    let np = seg_npages(s);
    lemma_page_of(v, 0);
    lemma_page_of(e, 0);
    assert(page_of(v) <= page_of(e)) by (nonlinear_arith)
        requires v >= 0, e >= v;
    lemma_aligned_span(page_of(v), page_of(e));
    assert(np * 4096 - v % 4096 > s.p_memsz) by (nonlinear_arith)
        requires np == 1 + (page_of(e) - page_of(v)) / 4096, page_of(v) + ((page_of(e) - page_of(v)) / 4096) * 4096 == page_of(e),
            page_of(v) == v - v % 4096, page_of(e) == e - e % 4096, e == v + s.p_memsz, 0 <= e % 4096 < 4096;
    lemma_copy_run_covers(v, s.p_offset as int, s.p_filesz as int, np as nat, i);
    let run = copy_run(v, s.p_offset as int, s.p_filesz as int, np as nat);
    assert(seg_copies(s) == run);
    let c = choose|c: int| 0 <= c < run.len() && {
        let x = #[trigger] run[c];
        &&& x.0 <= v + i < x.0 + x.2
        &&& x.1 + (v + i - x.0) == s.p_offset + i
    };
    assert(seg_copies(s)[c] == run[c]);
    lemma_copy_run_in_pages(v, s.p_offset as int, s.p_filesz as int, np as nat);
    assert forall|c: int| 0 <= c < seg_copies(s).len() implies {
        let x = #[trigger] seg_copies(s)[c];
        &&& page_of(x.0) == page_of(x.0 + x.2 - 1)
        &&& x.0 % 4096 + x.2 <= 4096
    } by {
        let x = seg_copies(s)[c];
        assert(page_of(x.0) == page_of(x.0 + x.2 - 1)) by (nonlinear_arith)
            requires x.0 >= 0, 0 < x.2, x.0 % 4096 + x.2 <= 4096;
    }
}

} // verus!
