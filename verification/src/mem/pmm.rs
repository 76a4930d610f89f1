//! The physical memory manager: one bitmap of pages per usable region of memory.
use vstd::prelude::*;
use crate::mem::bitmap::Bitmap;
use crate::mem::{PAGE_SIZE, spec_npages};
use crate::boot::{StivaleMMEntry, STIVALE2_MMAP_USABLE, MM_MAXENTRIES};

verus! {

/// Size of the header at the start of every region (its first page and its number of pages).
pub const SZFRAME: usize = 16;

/// The abstract state of one region: where its pages start, how many there are,
/// and which of them are in use.
pub struct RegionView {
    pub base: int,
    pub first: int,
    pub pages: nat,
    pub used: Seq<bool>,
}

/// Pages `[s, s + want)` lie inside `used` and are all free.
pub open spec fn window_free(used: Seq<bool>, s: int, want: int) -> bool {
    &&& 0 <= s
    &&& s + want <= used.len()
    &&& forall|k: int| s <= k < s + want ==> !#[trigger] used[k]
}

/// `s` is the index that a search for `want` pages gives back: for `want >= 1`
/// the lowest start of `want` consecutive free pages; for `want == 0` the index
/// just after the first page in use.
pub open spec fn region_fit(used: Seq<bool>, want: int, s: int) -> bool {
    if want == 0 {
        &&& 0 < s <= used.len()
        &&& used[s - 1]
        &&& forall|k: int| 0 <= k < s - 1 ==> !#[trigger] used[k]
    } else {
        &&& window_free(used, s, want)
        &&& forall|s2: int| 0 <= s2 < s ==> !#[trigger] window_free(used, s2, want)
    }
}

/// A search for `want` pages in `used` succeeds.
pub open spec fn has_fit(used: Seq<bool>, want: int) -> bool {
    exists|s: int| region_fit(used, want, s)
}

/// `used` with pages `[s, s + want)` marked in use.
pub open spec fn set_range(used: Seq<bool>, s: int, want: int) -> Seq<bool> {
    Seq::new(used.len(), |k: int| if s <= k < s + want { true } else { used[k] })
}

/// `used` with pages `[s, s + n)` marked free.
pub open spec fn clear_range(used: Seq<bool>, s: int, n: int) -> Seq<bool> {
    Seq::new(used.len(), |k: int| if s <= k < s + n { false } else { used[k] })
}

/// Number of pages taken by a region's header and bitmap, for a region of `npages` pages.
pub open spec fn meta_pages(npages: int) -> int {
    spec_npages(SZFRAME + (npages + 7) / 8)
}

/// The region that `init_region` formats from `length` bytes at `base`.
pub open spec fn formatted_region(base: int, length: int) -> RegionView {
    let np = length / (PAGE_SIZE as int);
    let needed = meta_pages(np);
    RegionView {
        base,
        first: base + needed * PAGE_SIZE,
        pages: (np - needed) as nat,
        used: Seq::new((np - needed) as nat, |i: int| false),
    }
}

proof fn lemma_meta_pages_fit(np: int)
    requires
        np >= 2,
    ensures
        1 <= meta_pages(np) < np,
{
    assert(SZFRAME + (np + 7) / 8 + PAGE_SIZE - 1 < PAGE_SIZE * np) by (nonlinear_arith)
        requires np >= 2;
    assert(meta_pages(np) * 4096 <= SZFRAME + (np + 7) / 8 + PAGE_SIZE - 1) by (nonlinear_arith);
    assert(meta_pages(np) < np) by (nonlinear_arith)
        requires meta_pages(np) * 4096 < 4096 * np;
}

/// One region of usable memory: its header (first page, number of pages) and its bitmap.
pub struct Region {
    base: u64,
    first: u64,
    pages: usize,
    bitmap: Bitmap,
}

impl Region {
    pub closed spec fn wf(&self) -> bool {
        &&& self.bitmap.wf()
        &&& self.bitmap@.len() == self.pages
        &&& self.first + self.pages * PAGE_SIZE <= u64::MAX
    }

    pub closed spec fn view(&self) -> RegionView {
        RegionView {
            base: self.base as int,
            first: self.first as int,
            pages: self.pages as nat,
            used: self.bitmap@,
        }
    }

    /// A region with the same header and bitmap.
    pub fn duplicate(&self) -> (r: Region)
        requires
            self.wf(),
        ensures
            r.wf(),
            r@ == self@,
    {
        Region { base: self.base, first: self.first, pages: self.pages, bitmap: self.bitmap.duplicate() }
    }

    /// What a well-formed region promises of its view: one bit per page, and its pages
    /// end within the address space.
    pub proof fn lemma_wf(&self)
        requires
            self.wf(),
        ensures
            self@.used.len() == self@.pages,
            self@.first + self@.pages * PAGE_SIZE <= u64::MAX,
    {
    }

    /// Formats the region of `length` bytes at `base`: the first pages hold the header
    /// and the bitmap, the others are handed out, all free at first.
    pub fn init_region(base: u64, length: u64) -> (r: Region)
        requires
            length >= 2 * PAGE_SIZE,
            base + length <= u64::MAX,
            length / 4096 + 8 <= usize::MAX,
        ensures
            r.wf(),
            r@ == formatted_region(base as int, length as int),
    {
        let npages: usize = (length / (PAGE_SIZE as u64)) as usize;
        proof {
            lemma_meta_pages_fit(npages as int);
            assert(npages * PAGE_SIZE <= length) by (nonlinear_arith)
                requires npages == length / 4096;
        }
        let bmap_size = (npages + 8 - 1) / 8;
        let needed = SZFRAME + bmap_size;
        let needed = crate::mem::npages(needed);
        let first = base + (needed * PAGE_SIZE) as u64;
        let pages = npages - needed;
        proof {
            assert(first + pages * PAGE_SIZE == base + npages * PAGE_SIZE) by (nonlinear_arith)
                requires first == base + needed * 4096, pages == npages - needed, needed <= npages;
        }
        let bitmap = Bitmap::new(pages);
        Region { base, first, pages, bitmap }
    }

    /// Marks pages `[i, i + n)` free.
    pub fn free_range(&mut self, i: usize, n: usize)
        requires
            old(self).wf(),
            i + n <= old(self)@.pages,
        ensures
            final(self).wf(),
            final(self)@ == mark_free(old(self)@, i as int, n as int),
    {
        let ghost used = self.bitmap@;
        let mut k: usize = 0;
        while k < n
            invariant
                self.wf(),
                k <= n,
                i + n <= self.pages,
                self@.base == old(self)@.base,
                self@.first == old(self)@.first,
                self@.pages == old(self)@.pages,
                used == old(self)@.used,
                self@.used == clear_range(used, i as int, k as int),
            decreases n - k,
        {
            let _ = self.bitmap.set(i + k, false);
            proof {
                assert(self@.used =~= clear_range(used, i as int, k + 1));
            }
            k = k + 1;
        }
        proof {
            assert(self@ =~= mark_free(old(self)@, i as int, n as int));
        }
    }

    /// Searches for `want` consecutive free pages, the lowest first, and marks them in use.
    pub fn alloc_in_region(&mut self, want: usize) -> (r: Result<usize, ()>)
        requires
            old(self).wf(),
        ensures
            final(self).wf(),
            final(self)@.base == old(self)@.base,
            final(self)@.first == old(self)@.first,
            final(self)@.pages == old(self)@.pages,
            match r {
                Ok(s) => {
                    &&& region_fit(old(self)@.used, want as int, s as int)
                    &&& final(self)@.used == set_range(old(self)@.used, s as int, want as int)
                },
                Err(_) => {
                    &&& !has_fit(old(self)@.used, want as int)
                    &&& final(self)@ == old(self)@
                },
            },
    {
        let pages = self.pages;
        let ghost used = self.bitmap@;
        let mut have: usize = 0;
        let mut cur: usize = 0;
        let mut ret: usize = 0;
        while cur < pages
            invariant
                self.wf(),
                self@ == old(self)@,
                used == self.bitmap@,
                pages == used.len(),
                ret <= cur <= pages,
                have == cur - ret,
                forall|k: int| ret <= k < cur ==> !#[trigger] used[k],
                ret > 0 ==> used[ret - 1],
                want == 0 ==> ret == 0,
                want > 0 ==> have < want,
                want > 0 ==> forall|s: int| 0 <= s && s + want <= cur ==> !#[trigger] window_free(used, s, want as int),
            decreases pages - cur,
        {
            let bit = self.bitmap.get(cur);
            let b = match bit {
                Ok(b) => b,
                Err(_) => true,
            };
            if !b {
                have = have + 1;
            } else {
                ret = cur + 1;
                have = 0;
            }
            if have == want {
                proof {
                    if want == 0 {
                        assert(region_fit(used, 0, ret as int));
                    } else {
                        assert forall|k: int| ret <= k < ret + want implies !#[trigger] used[k] by {}
                        assert forall|s2: int| 0 <= s2 < ret implies !#[trigger] window_free(used, s2, want as int) by {
                            assert(s2 + want <= cur);
                        }
                    }
                }
                let mut i: usize = 0;
                while i < want
                    invariant
                        self.wf(),
                        0 <= i <= want,
                        ret + want <= pages,
                        pages == old(self)@.pages,
                        self@.base == old(self)@.base,
                        self@.first == old(self)@.first,
                        self@.pages == old(self)@.pages,
                        self@.used == set_range(used, ret as int, i as int),
                    decreases want - i,
                {
                    let _ = self.bitmap.set(ret + i, true);
                    proof {
                        assert(self@.used =~= set_range(used, ret as int, i + 1));
                    }
                    i = i + 1;
                }
                return Ok(ret);
            }
            proof {
                if want > 0 {
                    assert forall|s: int| 0 <= s && s + want <= cur + 1 implies !#[trigger] window_free(used, s, want as int) by {
                        if s + want == cur + 1 {
                            if b {
                                assert(!window_free(used, s, want as int)) by {
                                    assert(used[cur as int]);
                                }
                            } else {
                                assert(s < ret);
                                assert(used[ret - 1]);
                            }
                        }
                    }
                }
            }
            cur = cur + 1;
        }
        proof {
            assert forall|s: int| !region_fit(used, want as int, s) by {
                if want == 0 {
                    if region_fit(used, 0, s) {
                        assert(used[s - 1]);
                        assert(!used[s - 1]);
                    }
                } else {
                    if region_fit(used, want as int, s) {
                        assert(!window_free(used, s, want as int));
                    }
                }
            }
        }
        Err(())
    }
}

} // verus!

verus! {

/// The index of the first region, from `from` on, in which a search for `want` pages succeeds.
pub open spec fn first_region_fit(rs: Seq<RegionView>, want: int, from: int) -> Option<int>
    decreases rs.len() - from,
{
    if from < 0 || from >= rs.len() {
        None
    } else if has_fit(rs[from].used, want) {
        Some(from)
    } else {
        first_region_fit(rs, want, from + 1)
    }
}

/// Where in `used` a search for `want` pages lands.
pub open spec fn fit_start(used: Seq<bool>, want: int) -> int {
    choose|s: int| region_fit(used, want, s)
}

/// `rv` with pages `[s, s + want)` marked in use.
pub open spec fn mark_used(rv: RegionView, s: int, want: int) -> RegionView {
    RegionView { used: set_range(rv.used, s, want), ..rv }
}

/// `rv` with pages `[s, s + n)` marked free.
pub open spec fn mark_free(rv: RegionView, s: int, n: int) -> RegionView {
    RegionView { used: clear_range(rv.used, s, n), ..rv }
}

/// The address that an allocation of `want` pages gives back, if any.
pub open spec fn alloc_addr(rs: Seq<RegionView>, want: int) -> Option<int> {
    match first_region_fit(rs, want, 0) {
        Some(ri) => Some(rs[ri].first + fit_start(rs[ri].used, want) * PAGE_SIZE),
        None => None,
    }
}

/// The regions after an allocation of `want` pages.
pub open spec fn alloc_state(rs: Seq<RegionView>, want: int) -> Seq<RegionView> {
    match first_region_fit(rs, want, 0) {
        Some(ri) => rs.update(ri, mark_used(rs[ri], fit_start(rs[ri].used, want), want)),
        None => rs,
    }
}

/// Address `a` lies among the pages that region `rv` hands out.
pub open spec fn in_region(rv: RegionView, a: int) -> bool {
    rv.first <= a < rv.first + rv.pages * PAGE_SIZE
}

/// The index of the first region, from `from` on, that holds address `a`.
pub open spec fn region_of(rs: Seq<RegionView>, a: int, from: int) -> Option<int>
    decreases rs.len() - from,
{
    if from < 0 || from >= rs.len() {
        None
    } else if in_region(rs[from], a) {
        Some(from)
    } else {
        region_of(rs, a, from + 1)
    }
}

/// The regions after `npages` pages at `ptr` are given back: in the region that holds
/// `ptr`, the pages from the one holding `ptr` on, as far as the region goes.
pub open spec fn free_state(rs: Seq<RegionView>, ptr: int, npages: int) -> Seq<RegionView> {
    match region_of(rs, ptr, 0) {
        Some(ri) => {
            let i = (ptr - rs[ri].first) / (PAGE_SIZE as int);
            let n = if i + npages <= rs[ri].pages { npages } else { rs[ri].pages - i };
            rs.update(ri, mark_free(rs[ri], i, n))
        },
        None => rs,
    }
}

/// The page ranges of the regions do not overlap.
pub open spec fn regions_disjoint(rs: Seq<RegionView>) -> bool {
    forall|i: int, j: int|
        0 <= i < rs.len() && 0 <= j < rs.len() && i != j ==> {
            ||| rs[i].first + rs[i].pages * PAGE_SIZE <= rs[j].first
            ||| rs[j].first + rs[j].pages * PAGE_SIZE <= rs[i].first
        }
}

/// Page `a` is handed out: it is page `i` of some region and that page is in use.
pub open spec fn allocated(rs: Seq<RegionView>, a: int) -> bool {
    exists|r: int, i: int|
        0 <= r < rs.len() && 0 <= i < rs[r].pages && #[trigger] rs[r].used[i] && a == rs[r].first
            + i * PAGE_SIZE
}

pub proof fn lemma_region_fit_unique(used: Seq<bool>, want: int, s1: int, s2: int)
    requires
        region_fit(used, want, s1),
        region_fit(used, want, s2),
    ensures
        s1 == s2,
{
    if want != 0 {
        if s1 < s2 {
            assert(!window_free(used, s1, want));
        } else if s2 < s1 {
            assert(!window_free(used, s2, want));
        }
    } else {
        if s1 < s2 {
            assert(!used[s1 - 1]);
        } else if s2 < s1 {
            assert(!used[s2 - 1]);
        }
    }
}

proof fn lemma_first_region_fit_skip(rs: Seq<RegionView>, want: int, from: int)
    requires
        0 <= from <= rs.len(),
        forall|r: int| 0 <= r < from ==> !#[trigger] has_fit(rs[r].used, want),
    ensures
        first_region_fit(rs, want, 0) == first_region_fit(rs, want, from),
    decreases from,
{
    if from > 0 {
        lemma_first_region_fit_skip(rs, want, from - 1);
    }
}

proof fn lemma_region_of_skip(rs: Seq<RegionView>, a: int, from: int)
    requires
        0 <= from <= rs.len(),
        forall|r: int| 0 <= r < from ==> !#[trigger] in_region(rs[r], a),
    ensures
        region_of(rs, a, 0) == region_of(rs, a, from),
    decreases from,
{
    if from > 0 {
        lemma_region_of_skip(rs, a, from - 1);
    }
}

/// An entry of the memory map that becomes a region: usable, and at least two pages long.
pub open spec fn is_usable(e: StivaleMMEntry) -> bool {
    e.entry_type == STIVALE2_MMAP_USABLE && e.length >= 2 * PAGE_SIZE
}

/// The regions formatted from the usable entries of `es`, in order.
pub open spec fn usable_regions(es: Seq<StivaleMMEntry>) -> Seq<RegionView>
    decreases es.len(),
{
    if es.len() == 0 {
        Seq::empty()
    } else {
        let prev = usable_regions(es.drop_last());
        let e = es.last();
        if is_usable(e) {
            prev.push(formatted_region(e.base as int, e.length as int))
        } else {
            prev
        }
    }
}

proof fn lemma_usable_regions_len(es: Seq<StivaleMMEntry>)
    ensures
        usable_regions(es).len() <= es.len(),
        (exists|i: int| 0 <= i < es.len() && is_usable(#[trigger] es[i])) ==> usable_regions(es).len() > 0,
    decreases es.len(),
{
    if es.len() > 0 {
        lemma_usable_regions_len(es.drop_last());
        if exists|i: int| 0 <= i < es.len() && is_usable(#[trigger] es[i]) {
            let i = choose|i: int| 0 <= i < es.len() && is_usable(#[trigger] es[i]);
            if i < es.len() - 1 {
                assert(es.drop_last()[i] == es[i]);
            }
        }
    }
}

/// Entry `e` is usable and lies within the address space, as `Pmm::init` needs.
pub open spec fn init_fits(e: StivaleMMEntry) -> bool {
    is_usable(e) ==> e.base + e.length <= u64::MAX && e.length / 4096 + 8 <= usize::MAX
}

/// Whether entry `e` is usable memory of at least two pages.
pub fn usable(e: &StivaleMMEntry) -> (r: bool)
    ensures
        r == is_usable(*e),
{
    e.entry_type == STIVALE2_MMAP_USABLE && e.length >= 2 * PAGE_SIZE as u64
}

/// Whether `Pmm::init` can take `entries`: at most `MM_MAXENTRIES` of them, one usable at
/// least, every usable one within the address space.
pub fn init_accepts(entries: &[StivaleMMEntry]) -> (r: bool)
    ensures
        r == (entries@.len() <= MM_MAXENTRIES
            && (exists|i: int| 0 <= i < entries@.len() && is_usable(#[trigger] entries@[i]))
            && (forall|i: int| 0 <= i < entries@.len() ==> init_fits(#[trigger] entries@[i]))),
{
    let n = entries.len();
    if n > MM_MAXENTRIES {
        return false;
    }
    let mut any = false;
    let mut i: usize = 0;
    while i < n
        invariant
            n == entries@.len(),
            i <= n,
            any == (exists|k: int| 0 <= k < i && is_usable(#[trigger] entries@[k])),
            forall|k: int| 0 <= k < i ==> init_fits(#[trigger] entries@[k]),
        decreases n - i,
    {
        let e = entries[i];
        if usable(&e) {
            if e.base > u64::MAX - e.length || e.length / 4096 > (usize::MAX - 8) as u64 {
                proof {
                    assert(!init_fits(entries@[i as int]));
                }
                return false;
            }
            any = true;
        }
        i = i + 1;
    }
    any
}

/// The physical memory manager.
pub struct Pmm {
    regions: Vec<Region>,
}

impl Pmm {
    pub closed spec fn wf(&self) -> bool {
        forall|i: int| 0 <= i < self.regions@.len() ==> #[trigger] self.regions@[i].wf()
    }

    /// The regions, in the order in which they were found.
    pub closed spec fn view(&self) -> Seq<RegionView> {
        self.regions@.map_values(|r: Region| r@)
    }

    /// Whether the regions are fit to hold page tables (`pmm_sane`): page-aligned, below
    /// 2^52, and not overlapping one another.
    pub fn fit_for_tables(&self) -> (r: bool)
        requires
            self.wf(),
        ensures
            r == crate::mem::paging::pmm_sane(self@),
    {
        proof {
            self.lemma_valid();
        }
        let n = self.regions.len();
        let mut i: usize = 0;
        while i < n
            invariant
                self.wf(),
                regions_valid(self@),
                n == self@.len(),
                i <= n,
                forall|r: int| 0 <= r < i ==> {
                    &&& (#[trigger] self@[r]).first % 4096 == 0
                    &&& self@[r].first + self@[r].pages * PAGE_SIZE <= 0x10_0000_0000_0000
                },
            decreases n - i,
        {
            let first = self.regions[i].first;
            let pages = self.regions[i].pages;
            proof {
                assert(self.regions@[i as int].wf());
                assert(self@[i as int] == self.regions@[i as int]@);
            }
            if first % 4096 != 0 || first + pages as u64 * 4096 > 0x10_0000_0000_0000 {
                return false;
            }
            i = i + 1;
        }
        let mut a: usize = 0;
        while a < n
            invariant
                self.wf(),
                regions_valid(self@),
                n == self@.len(),
                a <= n,
                forall|r: int| 0 <= r < n ==> {
                    &&& (#[trigger] self@[r]).first % 4096 == 0
                    &&& self@[r].first + self@[r].pages * PAGE_SIZE <= 0x10_0000_0000_0000
                },
                forall|x: int, y: int| #![trigger self@[x], self@[y]] 0 <= x < a && 0 <= y < n && x != y ==> (self@[x].first + self@[x].pages * PAGE_SIZE <= self@[y].first || self@[y].first + self@[y].pages * PAGE_SIZE <= self@[x].first),
            decreases n - a,
        {
            let mut b: usize = 0;
            while b < n
                invariant
                    self.wf(),
                    regions_valid(self@),
                    n == self@.len(),
                    a < n,
                    b <= n,
                    forall|x: int, y: int| #![trigger self@[x], self@[y]] 0 <= x < a && 0 <= y < n && x != y ==> (self@[x].first + self@[x].pages * PAGE_SIZE <= self@[y].first || self@[y].first + self@[y].pages * PAGE_SIZE <= self@[x].first),
                    forall|y: int| #![trigger self@[y]] 0 <= y < b && a != y ==> (self@[a as int].first + self@[a as int].pages * PAGE_SIZE <= self@[y].first || self@[y].first + self@[y].pages * PAGE_SIZE <= self@[a as int].first),
                decreases n - b,
            {
                if a != b {
                    let fa = self.regions[a].first;
                    let pa = self.regions[a].pages;
                    let fb = self.regions[b].first;
                    let pb = self.regions[b].pages;
                    proof {
                        assert(self.regions@[a as int].wf());
                        assert(self.regions@[b as int].wf());
                        assert(self@[a as int] == self.regions@[a as int]@);
                        assert(self@[b as int] == self.regions@[b as int]@);
                    }
                    if !(fa + pa as u64 * 4096 <= fb || fb + pb as u64 * 4096 <= fa) {
                        return false;
                    }
                }
                b = b + 1;
            }
            a = a + 1;
        }
        true
    }

    /// A manager with the same regions, in the same state.
    pub fn duplicate(&self) -> (r: Pmm)
        requires
            self.wf(),
        ensures
            r.wf(),
            r@ == self@,
    {
        let mut regions: Vec<Region> = Vec::new();
        let n = self.regions.len();
        let mut i: usize = 0;
        while i < n
            invariant
                self.wf(),
                n == self.regions@.len(),
                i <= n,
                regions@.len() == i,
                forall|k: int| 0 <= k < i ==> (#[trigger] regions@[k]).wf() && regions@[k]@ == self.regions@[k]@,
            decreases n - i,
        {
            proof {
                assert(self.regions@[i as int].wf());
            }
            let r = self.regions[i].duplicate();
            regions.push(r);
            i = i + 1;
        }
        let r = Pmm { regions };
        assert(r@ =~= self@);
        r
    }

    /// Whether `n` allocations of one page in a row would all find a page.
    pub fn can_alloc_pages_one_by_one(&self, n: usize) -> (r: bool)
        requires
            self.wf(),
        ensures
            r == crate::mem::paging::can_alloc_times(self@, n as nat),
    {
        let mut trial = self.duplicate();
        let mut k: usize = 0;
        while k < n
            invariant
                trial.wf(),
                k <= n,
                trial@ == crate::mem::paging::alloc_times(self@, k as nat),
                crate::mem::paging::can_alloc_times(self@, k as nat),
            decreases n - k,
        {
            let ghost before = trial@;
            if trial.alloc_pages(1).is_err() {
                proof {
                    crate::mem::paging::lemma_full_iff(before);
                    assert(crate::mem::paging::pmm_full(crate::mem::paging::alloc_times(self@, k as nat)));
                }
                return false;
            }
            proof {
                crate::mem::paging::lemma_full_iff(before);
                crate::mem::paging::lemma_alloc_times_step(self@, k as nat);
                assert forall|j: nat| j < k + 1 implies !crate::mem::paging::pmm_full(#[trigger] crate::mem::paging::alloc_times(self@, j)) by {
                    if j < k {
                        assert(crate::mem::paging::can_alloc_times(self@, k as nat));
                    }
                }
            }
            k = k + 1;
        }
        true
    }

    /// Number of regions.
    pub fn nregions(&self) -> (r: usize)
        ensures
            r == self@.len(),
    {
        self.regions.len()
    }

    /// Allocates `npages` consecutive pages from the first region that has them,
    /// and gives back the address of the first of them.
    pub fn alloc_pages(&mut self, npages: usize) -> (r: Result<u64, ()>)
        requires
            old(self).wf(),
        ensures
            final(self).wf(),
            match alloc_addr(old(self)@, npages as int) {
                Some(a) => r == Ok::<u64, ()>(a as u64),
                None => r is Err,
            },
            final(self)@ == alloc_state(old(self)@, npages as int),
    {
        let n = self.regions.len();
        let mut idx: usize = 0;
        while idx < n
            invariant
                self.wf(),
                n == self.regions@.len(),
                self@ == old(self)@,
                idx <= n,
                forall|r: int| 0 <= r < idx ==> !#[trigger] has_fit(self@[r].used, npages as int),
            decreases n - idx,
        {
            let ghost rs = self@;
            let ghost before = self.regions@;
            let mut region = self.regions.remove(idx);
            let got = region.alloc_in_region(npages);
            let first = region.first;
            let ghost rv = region@;
            self.regions.insert(idx, region);
            proof {
                assert(self.regions@ =~= before.update(idx as int, self.regions@[idx as int]));
                assert forall|i: int| 0 <= i < self.regions@.len() implies #[trigger] self.regions@[i].wf() by {
                    if i != idx {
                        assert(self.regions@[i] == before[i]);
                    }
                }
                lemma_first_region_fit_skip(rs, npages as int, idx as int);
            }
            match got {
                Ok(s) => {
                    proof {
                        lemma_region_fit_unique(rs[idx as int].used, npages as int, s as int, fit_start(rs[idx as int].used, npages as int));
                        assert(first + s * 4096 <= u64::MAX) by (nonlinear_arith)
                            requires first + rv.pages * 4096 <= u64::MAX, s <= rv.pages;
                        assert(self@ =~= alloc_state(rs, npages as int));
                    }
                    return Ok(first + (s as u64) * 4096);
                },
                Err(_) => {
                    proof {
                        assert(self@ =~= rs);
                    }
                },
            }
            idx = idx + 1;
        }
        proof {
            lemma_first_region_fit_skip(self@, npages as int, n as int);
        }
        Err(())
    }

    /// Allocates `npages` pages as `alloc_pages` does; the pages are meant to be zeroed,
    /// which concerns their contents, not this manager's state.
    pub fn calloc(&mut self, npages: usize) -> (r: Result<u64, ()>)
        requires
            old(self).wf(),
        ensures
            final(self).wf(),
            match alloc_addr(old(self)@, npages as int) {
                Some(a) => r == Ok::<u64, ()>(a as u64),
                None => r is Err,
            },
            final(self)@ == alloc_state(old(self)@, npages as int),
    {
        let ret = self.alloc_pages(npages);
        if ret.is_err() {
            return Err(());
        }
        ret
    }

    /// Gives back `npages` pages starting at `ptr`: in the first region that holds `ptr`,
    /// the pages from the one holding `ptr` on are marked free, as far as the region goes.
    pub fn free(&mut self, ptr: u64, npages: usize)
        requires
            old(self).wf(),
        ensures
            final(self).wf(),
            final(self)@ == free_state(old(self)@, ptr as int, npages as int),
    {
        let n = self.regions.len();
        let mut idx: usize = 0;
        while idx < n
            invariant
                self.wf(),
                n == self.regions@.len(),
                self@ == old(self)@,
                idx <= n,
                forall|r: int| 0 <= r < idx ==> !#[trigger] in_region(self@[r], ptr as int),
            decreases n - idx,
        {
            let first = self.regions[idx].first;
            let pages = self.regions[idx].pages;
            proof {
                assert(self.regions@[idx as int].wf());
            }
            if first <= ptr && ptr - first < (pages as u64) * 4096 {
                let ghost rs = self@;
                let ghost before = self.regions@;
                proof {
                    lemma_region_of_skip(rs, ptr as int, idx as int);
                    assert((ptr - first) / 4096 < pages) by (nonlinear_arith)
                        requires ptr - first < pages * 4096;
                }
                let i: usize = ((ptr - first) / 4096) as usize;
                let cnt: usize = if npages <= pages - i { npages } else { pages - i };
                let mut region = self.regions.remove(idx);
                region.free_range(i, cnt);
                self.regions.insert(idx, region);
                proof {
                    assert(self.regions@ =~= before.update(idx as int, self.regions@[idx as int]));
                    assert forall|j: int| 0 <= j < self.regions@.len() implies #[trigger] self.regions@[j].wf() by {
                        if j != idx {
                            assert(self.regions@[j] == before[j]);
                        }
                    }
                    assert(self@ =~= free_state(rs, ptr as int, npages as int));
                }
                return;
            }
            idx = idx + 1;
        }
        proof {
            lemma_region_of_skip(self@, ptr as int, n as int);
        }
    }

    /// Builds the manager from the memory map: every usable entry of at least two pages
    /// becomes a region, in order; then the pages that hold the list of regions are
    /// allocated.
    pub fn init(entries: &[StivaleMMEntry]) -> (r: Pmm)
        requires
            entries@.len() <= MM_MAXENTRIES,
            exists|i: int| 0 <= i < entries@.len() && is_usable(#[trigger] entries@[i]),
            forall|i: int|
                0 <= i < entries@.len() && is_usable(#[trigger] entries@[i]) ==> {
                    &&& entries@[i].base + entries@[i].length <= u64::MAX
                    &&& entries@[i].length / 4096 + 8 <= usize::MAX
                },
        ensures
            r.wf(),
            r@ == alloc_state(usable_regions(entries@), spec_npages((usable_regions(entries@).len() * 8) as int)),
            r@ == usable_regions(entries@).update(0, mark_used(usable_regions(entries@)[0], 0, 1)),
    {
        let mut pmm = Pmm { regions: Vec::new() };
        let nentries = entries.len();
        let mut i: usize = 0;
        while i < nentries
            invariant
                nentries == entries@.len(),
                i <= nentries,
                pmm.wf(),
                pmm@ == usable_regions(entries@.take(i as int)),
                forall|k: int|
                    0 <= k < entries@.len() && is_usable(#[trigger] entries@[k]) ==> {
                        &&& entries@[k].base + entries@[k].length <= u64::MAX
                        &&& entries@[k].length / 4096 + 8 <= usize::MAX
                    },
            decreases nentries - i,
        {
            let e = entries[i];
            proof {
                assert(entries@.take(i + 1).drop_last() =~= entries@.take(i as int));
                assert(entries@.take(i + 1).last() == e);
            }
            if e.entry_type == STIVALE2_MMAP_USABLE && e.length >= (2 * PAGE_SIZE) as u64 {
                let region = Region::init_region(e.base, e.length);
                pmm.regions.push(region);
                proof {
                    assert(pmm@ =~= usable_regions(entries@.take(i + 1)));
                }
            }
            i = i + 1;
        }
        proof {
            assert(entries@.take(nentries as int) =~= entries@);
            lemma_usable_regions_len(entries@);
        }
        let ghost rs = pmm@;
        let nregions = pmm.regions.len();
        let needed = crate::mem::npages(nregions * 8);
        proof {
            assert(needed == 1);
            let e = choose|k: int| 0 <= k < entries@.len() && is_usable(#[trigger] entries@[k]);
            lemma_usable_regions_nonempty_pages(entries@);
            assert(region_fit(rs[0].used, 1, 0));
            assert(has_fit(rs[0].used, 1));
            lemma_region_fit_unique(rs[0].used, 1, 0, fit_start(rs[0].used, 1));
        }
        let got = pmm.calloc(needed);
        proof {
            assert(pmm@ =~= rs.update(0, mark_used(rs[0], 0, 1)));
        }
        pmm
    }
}

proof fn lemma_usable_regions_nonempty_pages(es: Seq<StivaleMMEntry>)
    ensures
        forall|r: int| 0 <= r < usable_regions(es).len() ==> {
            &&& (#[trigger] usable_regions(es)[r]).pages >= 1
            &&& usable_regions(es)[r].used == Seq::new(usable_regions(es)[r].pages, |i: int| false)
        },
    decreases es.len(),
{
    if es.len() > 0 {
        lemma_usable_regions_nonempty_pages(es.drop_last());
        let e = es.last();
        if is_usable(e) {
            let np = e.length / 4096;
            assert(np >= 2) by (nonlinear_arith)
                requires e.length >= 8192, np == e.length / 4096;
            lemma_meta_pages_fit(np as int);
        }
        let prev = usable_regions(es.drop_last());
        assert forall|r: int| 0 <= r < usable_regions(es).len() implies {
            &&& (#[trigger] usable_regions(es)[r]).pages >= 1
            &&& usable_regions(es)[r].used == Seq::new(usable_regions(es)[r].pages, |i: int| false)
        } by {
            if r < prev.len() {
                assert(usable_regions(es)[r] == prev[r]);
            }
        }
    }
}

} // verus!

verus! {

/// Every region's bitmap covers exactly its pages, and its pages lie below the top of
/// the address space.
pub open spec fn regions_valid(rs: Seq<RegionView>) -> bool {
    forall|r: int|
        0 <= r < rs.len() ==> {
            &&& (#[trigger] rs[r]).used.len() == rs[r].pages
            &&& rs[r].first + rs[r].pages * PAGE_SIZE <= u64::MAX
            &&& rs[r].first >= 0
        }
}

impl Pmm {
    pub proof fn lemma_valid(&self)
        requires
            self.wf(),
        ensures
            regions_valid(self@),
    {
        assert forall|r: int| 0 <= r < self@.len() implies {
            &&& (#[trigger] self@[r]).used.len() == self@[r].pages
            &&& self@[r].first + self@[r].pages * PAGE_SIZE <= u64::MAX
            &&& self@[r].first >= 0
        } by {
            assert(self.regions@[r].wf());
        }
    }
}

pub proof fn lemma_first_region_fit(rs: Seq<RegionView>, want: int, from: int)
    requires
        0 <= from,
    ensures
        match first_region_fit(rs, want, from) {
            Some(k) => {
                &&& from <= k < rs.len()
                &&& has_fit(rs[k].used, want)
                &&& forall|r: int| from <= r < k ==> !#[trigger] has_fit(rs[r].used, want)
            },
            None => forall|r: int| from <= r < rs.len() ==> !#[trigger] has_fit(rs[r].used, want),
        },
    decreases rs.len() - from,
{
    if from < rs.len() && !has_fit(rs[from].used, want) {
        lemma_first_region_fit(rs, want, from + 1);
    }
}

pub proof fn lemma_region_of(rs: Seq<RegionView>, a: int, from: int)
    requires
        0 <= from,
    ensures
        match region_of(rs, a, from) {
            Some(k) => {
                &&& from <= k < rs.len()
                &&& in_region(rs[k], a)
                &&& forall|r: int| from <= r < k ==> !#[trigger] in_region(rs[r], a)
            },
            None => forall|r: int| from <= r < rs.len() ==> !#[trigger] in_region(rs[r], a),
        },
    decreases rs.len() - from,
{
    if from < rs.len() && !in_region(rs[from], a) {
        lemma_region_of(rs, a, from + 1);
    }
}

/// Where an allocation lands: region `ri`, page `s`, with `s` a fit for `want` pages.
proof fn lemma_alloc_where(rs: Seq<RegionView>, want: int) -> (res: (int, int))
    requires
        alloc_addr(rs, want) is Some,
    ensures
        0 <= res.0 < rs.len(),
        first_region_fit(rs, want, 0) == Some(res.0),
        res.1 == fit_start(rs[res.0].used, want),
        region_fit(rs[res.0].used, want, res.1),
        alloc_addr(rs, want) == Some(rs[res.0].first + res.1 * PAGE_SIZE),
        alloc_state(rs, want) == rs.update(res.0, mark_used(rs[res.0], res.1, want)),
{
    lemma_first_region_fit(rs, want, 0);
    let ri = first_region_fit(rs, want, 0)->Some_0;
    let s = fit_start(rs[ri].used, want);
    (ri, s)
}

/// Giving back the pages of an allocation, at the address it gave and in the number asked
/// for, restores the manager to the state it had before the allocation.
pub proof fn law_free_undoes_alloc(rs: Seq<RegionView>, want: int)
    requires
        regions_valid(rs),
        regions_disjoint(rs),
        want >= 0,
        alloc_addr(rs, want) is Some,
    ensures
        free_state(alloc_state(rs, want), alloc_addr(rs, want)->Some_0, want) == rs,
{
    let (ri, s) = lemma_alloc_where(rs, want);
    let a = rs[ri].first + s * PAGE_SIZE;
    let st = alloc_state(rs, want);
    lemma_region_of(st, a, 0);
    if want == 0 {
        assert(set_range(rs[ri].used, s, 0) =~= rs[ri].used);
        assert(st =~= rs);
        match region_of(st, a, 0) {
            Some(k) => {
                let i = (a - st[k].first) / (PAGE_SIZE as int);
                assert(i < st[k].pages) by (nonlinear_arith)
                    requires a - st[k].first < st[k].pages * 4096, i == (a - st[k].first) / 4096, a >= st[k].first;
                assert(clear_range(st[k].used, i, 0) =~= st[k].used);
                assert(free_state(st, a, 0) =~= rs);
            },
            None => {},
        }
    } else {
        assert(s < rs[ri].pages);
        assert(in_region(st[ri], a)) by {
            assert(s * 4096 < rs[ri].pages * 4096) by (nonlinear_arith)
                requires s < rs[ri].pages;
        }
        assert forall|r: int| 0 <= r < ri implies !#[trigger] in_region(st[r], a) by {
            assert(st[r] == rs[r]);
            assert(s * 4096 < rs[ri].pages * 4096) by (nonlinear_arith)
                requires s < rs[ri].pages;
        }
        assert(region_of(st, a, 0) == Some(ri)) by {
            match region_of(st, a, 0) {
                Some(k) => {
                    if k > ri {
                        assert(!in_region(st[ri], a));
                    }
                },
                None => {
                    assert(!in_region(st[ri], a));
                },
            }
        }
        assert((a - st[ri].first) / (PAGE_SIZE as int) == s) by (nonlinear_arith)
            requires a == st[ri].first + s * 4096, s >= 0;
        assert(clear_range(set_range(rs[ri].used, s, want), s, want) =~= rs[ri].used);
        assert(free_state(st, a, want) =~= rs);
    }
}

/// An allocation of `want >= 1` pages hands out only pages that were free, marks them
/// in use, and leaves every page that was in use in use.
pub proof fn law_alloc_hands_out_free_pages(rs: Seq<RegionView>, want: int)
    requires
        regions_valid(rs),
        regions_disjoint(rs),
        want >= 1,
        alloc_addr(rs, want) is Some,
    ensures
        forall|k: int| 0 <= k < want ==> {
            &&& !allocated(rs, #[trigger] (alloc_addr(rs, want)->Some_0 + k * PAGE_SIZE))
            &&& allocated(alloc_state(rs, want), alloc_addr(rs, want)->Some_0 + k * PAGE_SIZE)
        },
        forall|x: int| allocated(rs, x) ==> allocated(alloc_state(rs, want), x),
{
    let (ri, s) = lemma_alloc_where(rs, want);
    let a = rs[ri].first + s * PAGE_SIZE;
    let st = alloc_state(rs, want);
    assert forall|k: int| 0 <= k < want implies {
        &&& !allocated(rs, #[trigger] (a + k * PAGE_SIZE))
        &&& allocated(st, a + k * PAGE_SIZE)
    } by {
        let x = a + k * PAGE_SIZE;
        assert(x == st[ri].first + (s + k) * PAGE_SIZE) by (nonlinear_arith)
            requires x == a + k * 4096, a == st[ri].first + s * 4096;
        assert(st[ri].used[s + k]);
        if allocated(rs, x) {
            let (r, i) = choose|r: int, i: int|
                0 <= r < rs.len() && 0 <= i < rs[r].pages && #[trigger] rs[r].used[i] && x == rs[r].first + i * PAGE_SIZE;
            if r == ri {
                assert(i == s + k) by (nonlinear_arith)
                    requires rs[r].first + i * 4096 == rs[r].first + (s + k) * 4096;
                assert(!rs[ri].used[s + k]);
            } else {
                assert(i * 4096 < rs[r].pages * 4096) by (nonlinear_arith)
                    requires i < rs[r].pages;
                assert((s + k) * 4096 < rs[ri].pages * 4096) by (nonlinear_arith)
                    requires s + k < rs[ri].pages;
                assert(i * 4096 >= 0 && (s + k) * 4096 >= 0) by (nonlinear_arith)
                    requires i >= 0, s + k >= 0;
            }
        }
    }
    assert forall|x: int| allocated(rs, x) implies allocated(st, x) by {
        let (r, i) = choose|r: int, i: int|
            0 <= r < rs.len() && 0 <= i < rs[r].pages && #[trigger] rs[r].used[i] && x == rs[r].first + i * PAGE_SIZE;
        assert(st[r].used[i]);
    }
}

/// An allocation fails only when no region holds what was asked for, and then nothing
/// changes.
pub proof fn law_alloc_fails_only_when_full(rs: Seq<RegionView>, want: int)
    requires
        alloc_addr(rs, want) is None,
    ensures
        forall|r: int| 0 <= r < rs.len() ==> !#[trigger] has_fit(rs[r].used, want),
        alloc_state(rs, want) == rs,
{
    lemma_first_region_fit(rs, want, 0);
}

} // verus!

verus! {

/// The pages of an allocation of `want >= 1` pages end within the address space, and the
/// regions stay valid.
pub proof fn lemma_alloc_end(rs: Seq<RegionView>, want: int)
    requires
        regions_valid(rs),
        want >= 1,
    ensures
        alloc_addr(rs, want) is Some ==> alloc_addr(rs, want)->Some_0 + want * PAGE_SIZE <= u64::MAX,
        alloc_addr(rs, want) is Some ==> alloc_addr(rs, want)->Some_0 >= 0,
        regions_valid(alloc_state(rs, want)),
{
    lemma_first_region_fit(rs, want, 0);
    if alloc_addr(rs, want) is Some {
        let (ri, s) = lemma_alloc_where(rs, want);
        assert(rs[ri].first + s * 4096 + want * 4096 <= rs[ri].first + rs[ri].pages * 4096) by (nonlinear_arith)
            requires s + want <= rs[ri].pages;
        assert(s * 4096 >= 0) by (nonlinear_arith)
            requires s >= 0;
    }
    let st = alloc_state(rs, want);
    assert forall|r: int| 0 <= r < st.len() implies {
        &&& (#[trigger] st[r]).used.len() == st[r].pages
        &&& st[r].first + st[r].pages * PAGE_SIZE <= u64::MAX
        &&& st[r].first >= 0
    } by {
        assert(rs[r].used.len() == rs[r].pages);
    }
}


/// Page `k` of the pages that start at `a`.
pub open spec fn page_at(a: int, k: int) -> int {
    a + k * PAGE_SIZE
}

/// An allocation of `want >= 1` pages marks in use exactly the pages it hands out: a
/// page is in use afterwards if and only if it was before or it is one of them.
pub proof fn law_alloc_marks_exactly_its_pages(rs: Seq<RegionView>, want: int, x: int)
    requires
        regions_valid(rs),
        regions_disjoint(rs),
        want >= 1,
        alloc_addr(rs, want) is Some,
    ensures
        allocated(alloc_state(rs, want), x) <==> (allocated(rs, x)
            || exists|k: int| 0 <= k < want && x == #[trigger] page_at(alloc_addr(rs, want)->Some_0, k)),
{
    law_alloc_hands_out_free_pages(rs, want);
    let (ri, s) = lemma_alloc_where(rs, want);
    let a = alloc_addr(rs, want)->Some_0;
    assert(a == rs[ri].first + s * PAGE_SIZE);
    let st = alloc_state(rs, want);
    if allocated(st, x) && !allocated(rs, x) {
        let (r, j) = choose|r: int, j: int|
            0 <= r < st.len() && 0 <= j < st[r].pages && #[trigger] st[r].used[j] && x == st[r].first + j * PAGE_SIZE;
        assert(rs[r].used.len() == rs[r].pages);
        if r != ri || !(s <= j < s + want) {
            assert(rs[r].used[j]);
            assert(allocated(rs, x));
        } else {
            let k = j - s;
            assert(x == a + k * PAGE_SIZE) by (nonlinear_arith)
                requires x == st[r].first + j * 4096, a == rs[ri].first + s * 4096, st[r].first == rs[ri].first, k == j - s;
            assert(x == page_at(a, k));
        }
    }
    if exists|k: int| 0 <= k < want && x == #[trigger] page_at(a, k) {
        let k = choose|k: int| 0 <= k < want && x == #[trigger] page_at(a, k);
        assert(allocated(st, alloc_addr(rs, want)->Some_0 + k * PAGE_SIZE));
    }
}

/// Giving back one page that is in use makes exactly that page free: a page is in use
/// afterwards if and only if it was before and it is not the one given back.
pub proof fn law_free_releases_exactly(rs: Seq<RegionView>, v: int, x: int)
    requires
        regions_valid(rs),
        regions_disjoint(rs),
        allocated(rs, v),
    ensures
        allocated(free_state(rs, v, 1), x) <==> (allocated(rs, x) && x != v),
{
    let (r0, i0) = choose|r: int, i: int|
        0 <= r < rs.len() && 0 <= i < rs[r].pages && #[trigger] rs[r].used[i] && v == rs[r].first + i * PAGE_SIZE;
    assert(i0 * 4096 < rs[r0].pages * 4096 && i0 * 4096 >= 0) by (nonlinear_arith)
        requires 0 <= i0 < rs[r0].pages;
    assert(in_region(rs[r0], v));
    lemma_region_of(rs, v, 0);
    let ri = region_of(rs, v, 0)->Some_0;
    assert(ri == r0) by {
        if ri != r0 {
            assert(in_region(rs[ri], v));
        }
    }
    assert((v - rs[r0].first) / (PAGE_SIZE as int) == i0) by (nonlinear_arith)
        requires v == rs[r0].first + i0 * 4096, i0 >= 0;
    let st = free_state(rs, v, 1);
    assert(st == rs.update(r0, mark_free(rs[r0], i0, 1)));
    assert(rs[r0].used.len() == rs[r0].pages);
    if allocated(st, x) {
        let (r, j) = choose|r: int, j: int|
            0 <= r < st.len() && 0 <= j < st[r].pages && #[trigger] st[r].used[j] && x == st[r].first + j * PAGE_SIZE;
        assert(rs[r].used.len() == rs[r].pages);
        assert(r != r0 || j != i0);
        assert(rs[r].used[j]);
        assert(allocated(rs, x));
        if x == v {
            assert(j * 4096 < rs[r].pages * 4096 && j * 4096 >= 0) by (nonlinear_arith)
                requires 0 <= j < rs[r].pages;
            assert(in_region(rs[r], v));
            if r != r0 {
                assert(false);
            }
            assert(j == i0) by (nonlinear_arith)
                requires rs[r].first + j * 4096 == rs[r].first + i0 * 4096;
        }
    }
    if allocated(rs, x) && x != v {
        let (r, j) = choose|r: int, j: int|
            0 <= r < rs.len() && 0 <= j < rs[r].pages && #[trigger] rs[r].used[j] && x == rs[r].first + j * PAGE_SIZE;
        assert(r != r0 || j != i0);
        assert(rs[r].used.len() == rs[r].pages);
        assert(st[r].used[j]);
    }
}

/// Address `x` is one of the `n` pages from `v` on.
pub open spec fn page_in(v: int, n: int, x: int) -> bool {
    &&& v <= x < v + n * PAGE_SIZE
    &&& (x - v) % (PAGE_SIZE as int) == 0
}

/// The pages an allocation of `want >= 1` pages hands out lie in one region: they are
/// pages `i` to `i + want - 1` of some region.
pub proof fn law_alloc_in_one_region(rs: Seq<RegionView>, want: int)
    requires
        regions_valid(rs),
        want >= 1,
        alloc_addr(rs, want) is Some,
    ensures
        exists|r: int, i: int|
            0 <= r < rs.len() && 0 <= i && i + want <= rs[r].pages
                && alloc_addr(rs, want)->Some_0 == #[trigger] (rs[r].first + i * PAGE_SIZE),
{
    let (ri, st) = lemma_alloc_where(rs, want);
    assert(rs[ri].used.len() == rs[ri].pages);
    assert(alloc_addr(rs, want)->Some_0 == rs[ri].first + st * PAGE_SIZE);
}

/// Giving back `n >= 1` pages that lie in one region (as the pages of every allocation
/// do, and regions never move) makes exactly those pages free: a page is in use
/// afterwards if and only if it was before and it is not one of them.
pub proof fn law_free_releases_range(rs: Seq<RegionView>, r: int, i: int, n: int, x: int)
    requires
        regions_valid(rs),
        regions_disjoint(rs),
        0 <= r < rs.len(),
        0 <= i,
        n >= 1,
        i + n <= rs[r].pages,
    ensures
        allocated(free_state(rs, rs[r].first + i * PAGE_SIZE, n), x)
            <==> (allocated(rs, x) && !page_in(rs[r].first + i * PAGE_SIZE, n, x)),
{
    let v = rs[r].first + i * PAGE_SIZE;
    assert(i * 4096 < rs[r].pages * 4096 && i * 4096 >= 0) by (nonlinear_arith)
        requires 0 <= i < rs[r].pages;
    assert(in_region(rs[r], v));
    lemma_region_of(rs, v, 0);
    let ri = region_of(rs, v, 0)->Some_0;
    assert(ri == r) by {
        if ri != r {
            assert(in_region(rs[ri], v));
        }
    }
    assert((v - rs[r].first) / (PAGE_SIZE as int) == i) by (nonlinear_arith)
        requires v == rs[r].first + i * 4096, i >= 0;
    let st = free_state(rs, v, n);
    assert(st == rs.update(r, mark_free(rs[r], i, n)));
    assert(rs[r].used.len() == rs[r].pages);
    if allocated(st, x) {
        let (r2, j) = choose|r2: int, j: int|
            0 <= r2 < st.len() && 0 <= j < st[r2].pages && #[trigger] st[r2].used[j] && x == st[r2].first + j * PAGE_SIZE;
        assert(rs[r2].used.len() == rs[r2].pages);
        assert(rs[r2].used[j]);
        assert(allocated(rs, x));
        if page_in(v, n, x) {
            let k = (x - v) / 4096;
            assert(0 <= k < n && x == v + k * 4096) by (nonlinear_arith)
                requires v <= x < v + n * 4096, (x - v) % 4096 == 0, k == (x - v) / 4096;
            assert(x == rs[r].first + (i + k) * 4096);
            assert(j * 4096 < rs[r2].pages * 4096 && j * 4096 >= 0) by (nonlinear_arith)
                requires 0 <= j < rs[r2].pages;
            assert((i + k) * 4096 < rs[r].pages * 4096 && (i + k) * 4096 >= 0) by (nonlinear_arith)
                requires 0 <= i + k < rs[r].pages;
            assert(in_region(rs[r2], x));
            assert(in_region(rs[r], x));
            if r2 != r {
                assert(false);
            }
            assert(j == i + k);
            assert(false);
        }
    }
    if allocated(rs, x) && !page_in(v, n, x) {
        let (r2, j) = choose|r2: int, j: int|
            0 <= r2 < rs.len() && 0 <= j < rs[r2].pages && #[trigger] rs[r2].used[j] && x == rs[r2].first + j * PAGE_SIZE;
        assert(rs[r2].used.len() == rs[r2].pages);
        if r2 == r && i <= j < i + n {
            assert(x == v + (j - i) * 4096);
            assert(v <= x < v + n * 4096 && (x - v) % 4096 == 0) by (nonlinear_arith)
                requires x == v + (j - i) * 4096, i <= j < i + n;
            assert(page_in(v, n, x));
        }
        assert(st[r2].used[j]);
        assert(allocated(st, x));
    }
}

/// Allocating and giving back pages never moves a region: each keeps its first page and
/// its number of pages.
pub proof fn law_regions_stay(rs: Seq<RegionView>, want: int, ptr: int, n: int)
    ensures
        alloc_state(rs, want).len() == rs.len(),
        free_state(rs, ptr, n).len() == rs.len(),
        forall|r: int| 0 <= r < rs.len() ==> {
            &&& (#[trigger] alloc_state(rs, want)[r]).first == rs[r].first
            &&& alloc_state(rs, want)[r].pages == rs[r].pages
            &&& free_state(rs, ptr, n)[r].first == rs[r].first
            &&& free_state(rs, ptr, n)[r].pages == rs[r].pages
        },
{
    lemma_first_region_fit(rs, want, 0);
    lemma_region_of(rs, ptr, 0);
}

/// The regions of `rs2` are those of `rs1`: same number, each with the same first page
/// and number of pages (what every allocation and every free keeps: `law_regions_stay`).
pub open spec fn same_regions(rs1: Seq<RegionView>, rs2: Seq<RegionView>) -> bool {
    &&& rs1.len() == rs2.len()
    &&& forall|r: int| 0 <= r < rs1.len() ==> (#[trigger] rs1[r]).first == rs2[r].first && rs1[r].pages == rs2[r].pages
}

/// Giving back an allocation of `want >= 1` pages, whatever happened since it was made
/// (any state `rs` with the same regions), makes exactly its pages free: a page is in use
/// afterwards if and only if it was in use before and is not one of them.
pub proof fn law_free_gives_back_allocation(rs0: Seq<RegionView>, want: int, rs: Seq<RegionView>, x: int)
    requires
        regions_valid(rs0),
        regions_valid(rs),
        regions_disjoint(rs),
        want >= 1,
        alloc_addr(rs0, want) is Some,
        same_regions(rs0, rs),
    ensures
        allocated(free_state(rs, alloc_addr(rs0, want)->Some_0, want), x)
            <==> (allocated(rs, x) && !page_in(alloc_addr(rs0, want)->Some_0, want, x)),
{
    law_alloc_in_one_region(rs0, want);
    let (r, i) = choose|r: int, i: int|
        0 <= r < rs0.len() && 0 <= i && i + want <= rs0[r].pages
            && alloc_addr(rs0, want)->Some_0 == #[trigger] (rs0[r].first + i * PAGE_SIZE);
    assert(rs[r].first == rs0[r].first && rs[r].pages == rs0[r].pages);
    law_free_releases_range(rs, r, i, want, x);
}

} // verus!
