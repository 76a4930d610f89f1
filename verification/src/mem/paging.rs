//! Four-level page tables: the kernel's virtual-to-physical mappings.
//!
//! The tables live in physical pages obtained from the physical memory manager. Here
//! each table is kept as its 512 raw entries, next to the physical address of the page
//! that holds it; an entry that points to a table holds that address.
use vstd::prelude::*;
use crate::mem::entries::{
    PML4E, PDPE, PTE, EPP, present, entry_addr, frame_addr, dir_entry, lemma_dir_entry,
    pte_value, lemma_pte_value, ADDR_MASK, writable, no_execute, global_page, cache_disabled, lemma_zero_not_present,
};
use crate::mem::pmm::{
    Pmm, RegionView, allocated, alloc_addr, alloc_state, regions_disjoint, regions_valid,
    has_fit, law_alloc_hands_out_free_pages, law_alloc_fails_only_when_full,
    lemma_first_region_fit, fit_start, first_region_fit, mark_used, set_range, free_state,
    law_free_releases_exactly,
};
use crate::mem::PAGE_SIZE;

verus! {

/// The table index that `addr` selects at the level whose index starts at bit `shift`.
pub open spec fn index_at(addr: u64, shift: u64) -> int {
    ((addr >> shift) & 0x1FFu64) as int
}

/// The four table indices of a virtual address: PML4, PDP, PD and PT.
pub open spec fn key_of(addr: u64) -> (int, int, int, int) {
    (index_at(addr, 39), index_at(addr, 30), index_at(addr, 21), index_at(addr, 12))
}

/// The path from the root to the page table that maps key `k`.
pub open spec fn leaf_path(k: (int, int, int, int)) -> Seq<int> {
    Seq::empty().push(k.0).push(k.1).push(k.2)
}

proof fn lemma_index_bound()
    ensures
        forall|a: u64, s: u64| #[trigger] ((a >> s) & 0x1FFu64) < 512u64,
{
    assert(forall|a: u64, s: u64| #[trigger] ((a >> s) & 0x1FFu64) < 512u64) by (bit_vector);
}

/// Splits a virtual address into its PML4, PDP, PD and PT indices.
pub fn get_indices(addr: u64) -> (r: (usize, usize, usize, usize))
    ensures
        r.0 as int == index_at(addr, 39),
        r.1 as int == index_at(addr, 30),
        r.2 as int == index_at(addr, 21),
        r.3 as int == index_at(addr, 12),
        r.0 < 512 && r.1 < 512 && r.2 < 512 && r.3 < 512,
{
    proof {
        lemma_index_bound();
    }
    (
        ((addr >> (9 * 3 + 12)) & 0x1FF) as usize,
        ((addr >> (9 * 2 + 12)) & 0x1FF) as usize,
        ((addr >> (9 * 1 + 12)) & 0x1FF) as usize,
        ((addr >> (9 * 0 + 12)) & 0x1FF) as usize,
    )
}

/// A request to map `npages` consecutive pages at `virt` to the physical pages at `phys`.
#[derive(Clone, Copy)]
pub struct Mapping {
    pub virt: u64,
    pub phys: u64,
    pub npages: usize,
    pub global: bool,
    pub ro: bool,
    pub nx: bool,
    pub pcd: bool,
}

/// The page-table entry that maps the page `phys` with the attributes of `m`.
pub open spec fn map_pte(m: Mapping, phys: u64) -> u64 {
    pte_value(m.global, m.ro, m.nx, m.pcd, phys)
}

/// The memory manager's regions are fit to hold tables: valid, disjoint, page-aligned,
/// and below 2^52.
pub open spec fn pmm_sane(rs: Seq<RegionView>) -> bool {
    &&& regions_valid(rs)
    &&& regions_disjoint(rs)
    &&& forall|r: int|
        0 <= r < rs.len() ==> {
            &&& (#[trigger] rs[r]).first % 4096 == 0
            &&& rs[r].first + rs[r].pages * PAGE_SIZE <= 0x10_0000_0000_0000
        }
}

/// No region has a free page.
pub open spec fn pmm_full(rs: Seq<RegionView>) -> bool {
    forall|r: int| 0 <= r < rs.len() ==> !#[trigger] has_fit(rs[r].used, 1)
}

/// A copy of `v`.
fn copy_words(v: &Vec<u64>) -> (r: Vec<u64>)
    ensures
        r@ == v@,
{
    let mut r: Vec<u64> = Vec::new();
    let n = v.len();
    let mut i: usize = 0;
    while i < n
        invariant
            n == v@.len(),
            i <= n,
            r@ == v@.take(i as int),
        decreases n - i,
    {
        r.push(v[i]);
        i = i + 1;
        proof {
            assert(r@ =~= v@.take(i as int));
        }
    }
    proof {
        assert(r@ =~= v@);
    }
    r
}

/// The page tables.
pub struct Paging {
    frames: Vec<u64>,
    tables: Vec<u64>,
    paths: Ghost<Map<Seq<int>, int>>,
}

impl Paging {
    /// Entry `i` of table `k`.
    pub closed spec fn entry(&self, k: int, i: int) -> u64 {
        self.tables@[k * 512 + i]
    }

    pub closed spec fn wf(&self) -> bool {
        let paths = self.paths@;
        &&& self.frames@.len() >= 1
        &&& self.tables@.len() == self.frames@.len() * 512
        &&& forall|k: int| 0 <= k < self.frames@.len() ==> frame_addr(#[trigger] self.frames@[k])
        &&& forall|k1: int, k2: int|
            0 <= k1 < self.frames@.len() && 0 <= k2 < self.frames@.len() && k1 != k2
                ==> #[trigger] self.frames@[k1] != #[trigger] self.frames@[k2]
        &&& paths.dom().contains(Seq::empty())
        &&& paths[Seq::empty()] == 0
        &&& forall|p: Seq<int>|
            #[trigger] paths.dom().contains(p) ==> {
                &&& 0 <= paths[p] < self.frames@.len()
                &&& p.len() <= 3
                &&& (p.len() > 0 ==> paths.dom().contains(p.drop_last()))
            }
        &&& forall|p1: Seq<int>, p2: Seq<int>|
            #[trigger] paths.dom().contains(p1) && #[trigger] paths.dom().contains(p2) && p1 != p2
                ==> paths[p1] != paths[p2]
        &&& forall|p: Seq<int>, i: int|
            paths.dom().contains(p) && p.len() < 3 && 0 <= i < 512 ==> {
                &&& present(#[trigger] self.entry(paths[p], i)) <==> paths.dom().contains(p.push(i))
                &&& paths.dom().contains(p.push(i)) ==> self.frames@[paths[p.push(i)]]
                    == entry_addr(self.entry(paths[p], i))
                &&& paths.dom().contains(p.push(i)) ==> self.entry(paths[p], i)
                    == dir_entry(self.frames@[paths[p.push(i)]])
            }
        &&& forall|p: Seq<int>, i: int|
            paths.dom().contains(p) && 0 <= i < 512 && !present(#[trigger] self.entry(paths[p], i))
                ==> self.entry(paths[p], i) == 0
    }

    /// Every directory entry (of a PML4, PDP or PD table) that leads to a table is the
    /// entry `dir_entry` makes for that table's page: present, writable, supervisor,
    /// executable, and pointing at it; the others are 0, as is every entry that is not
    /// present in any table.
    pub proof fn lemma_dir_entries(&self)
        requires
            self.wf(),
        ensures
            forall|p: Seq<int>, i: int|
                self.path_set().contains(p) && p.len() < 3 && 0 <= i < 512 ==> {
                    &&& self.path_set().contains(p.push(i)) ==> #[trigger] self.entry(self.table_of(p), i)
                        == dir_entry(self.frames()[self.table_of(p.push(i))])
                    &&& !self.path_set().contains(p.push(i)) ==> self.entry(self.table_of(p), i) == 0
                },
            forall|p: Seq<int>, i: int|
                self.path_set().contains(p) && 0 <= i < 512 && !present(#[trigger] self.entry(self.table_of(p), i))
                    ==> self.entry(self.table_of(p), i) == 0,
    {
    }

    /// The mappings: for each key (PML4, PDP, PD and PT index) whose page-table entry is
    /// present, that entry.
    pub closed spec fn view(&self) -> Map<(int, int, int, int), u64> {
        Map::new(
            |k: (int, int, int, int)|
                self.paths@.dom().contains(leaf_path(k)) && 0 <= k.3 < 512 && present(
                    self.entry(self.paths@[leaf_path(k)], k.3),
                ),
            |k: (int, int, int, int)| self.entry(self.paths@[leaf_path(k)], k.3),
        )
    }

    /// Every page that holds a table is allocated in the memory manager.
    pub closed spec fn frames_allocated(&self, rs: Seq<RegionView>) -> bool {
        forall|k: int| 0 <= k < self.frames@.len() ==> allocated(rs, #[trigger] self.frames@[k] as int)
    }

    /// Tables held in pages that stay allocated stay held in allocated pages.
    pub proof fn lemma_frames_allocated_grow(&self, rs: Seq<RegionView>, rs2: Seq<RegionView>)
        requires
            self.frames_allocated(rs),
            forall|x: int| allocated(rs, x) ==> allocated(rs2, x),
        ensures
            self.frames_allocated(rs2),
    {
    }

    /// The pages that hold the tables, table by table (the root first).
    pub closed spec fn frames(&self) -> Seq<u64> {
        self.frames@
    }

    /// Each table's page is in use in `rs`.
    pub proof fn lemma_frames_in_use(&self, rs: Seq<RegionView>)
        requires
            self.frames_allocated(rs),
        ensures
            forall|j: int| 0 <= j < self.frames().len() ==> allocated(rs, #[trigger] self.frames()[j] as int),
    {
    }

    /// Tables whose pages are all in use in `rs` are held in allocated pages there.
    pub proof fn lemma_frames_allocated_when_in_use(&self, rs: Seq<RegionView>)
        requires
            forall|j: int| 0 <= j < self.frames().len() ==> allocated(rs, #[trigger] self.frames()[j] as int),
        ensures
            self.frames_allocated(rs),
    {
        assert forall|k: int| 0 <= k < self.frames@.len() implies allocated(rs, #[trigger] self.frames@[k] as int) by {
            assert(self.frames()[k] == self.frames@[k]);
        }
    }

    /// Number of tables.
    pub fn ntables(&self) -> (r: usize)
        requires
            self.wf(),
        ensures
            r == self.frames().len(),
    {
        self.frames.len()
    }

    /// The page that holds table `k`.
    pub fn table_frame(&self, k: usize) -> (r: u64)
        requires
            self.wf(),
            k < self.frames().len(),
        ensures
            r == self.frames()[k as int],
    {
        self.frames[k]
    }

    /// Entry `i` of table `k`, as the table's page is to hold it.
    pub fn table_entry(&self, k: usize, i: usize) -> (r: u64)
        requires
            self.wf(),
            k < self.frames().len(),
            i < 512,
        ensures
            r == self.entry(k as int, i as int),
    {
        self.entry_at(k, i)
    }

    /// Physical address of the root table (what CR3 is loaded with).
    pub closed spec fn root(&self) -> u64 {
        self.frames@[0]
    }

    /// The same tables, held a second time: for trying out mappings without touching
    /// these.
    pub fn duplicate(&self) -> (r: Paging)
        requires
            self.wf(),
        ensures
            r.wf(),
            r@ == self@,
            r.path_set() == self.path_set(),
            r.frames() == self.frames(),
            forall|rs: Seq<RegionView>| self.frames_allocated(rs) ==> r.frames_allocated(rs),
    {
        let frames = copy_words(&self.frames);
        let tables = copy_words(&self.tables);
        let r = Paging { frames, tables, paths: Ghost(self.paths@) };
        assert forall|k: int, i: int| #[trigger] r.entry(k, i) == self.entry(k, i) by {}
        assert(r.wf());
        assert(r@ =~= self@);
        r
    }

    /// Page tables whose root table is the (zeroed) page at `cr3`.
    pub fn new(cr3: u64) -> (r: Paging)
        requires
            frame_addr(cr3),
        ensures
            r.wf(),
            r@ == Map::<(int, int, int, int), u64>::empty(),
            r.root() == cr3,
            forall|rs: Seq<RegionView>| allocated(rs, cr3 as int) ==> r.frames_allocated(rs),
    {
        let mut frames: Vec<u64> = Vec::new();
        frames.push(cr3);
        let mut tables: Vec<u64> = Vec::new();
        let mut i: usize = 0;
        while i < EPP
            invariant
                i <= EPP,
                tables@.len() == i,
                forall|j: int| 0 <= j < i ==> tables@[j] == 0u64,
            decreases EPP - i,
        {
            tables.push(0);
            i = i + 1;
        }
        let r = Paging { frames, tables, paths: Ghost(Map::empty().insert(Seq::empty(), 0)) };
        proof {
            assert forall|p: Seq<int>, i: int|
                r.paths@.dom().contains(p) && p.len() < 3 && 0 <= i < 512 implies {
                    &&& present(#[trigger] r.entry(r.paths@[p], i)) <==> r.paths@.dom().contains(p.push(i))
                    &&& r.paths@.dom().contains(p.push(i)) ==> r.frames@[r.paths@[p.push(i)]]
                        == entry_addr(r.entry(r.paths@[p], i))
                } by {
                assert(p == Seq::<int>::empty());
                assert(p.push(i).len() == 1);
                assert(r.entry(0, i) == 0u64);
                lemma_zero_not_present();
            }
            assert(r@ =~= Map::<(int, int, int, int), u64>::empty());
        }
        r
    }

    /// Entry `i` of table `k`.
    fn entry_at(&self, k: usize, i: usize) -> (r: u64)
        requires
            self.wf(),
            k < self.frames@.len(),
            i < 512,
        ensures
            r == self.entry(k as int, i as int),
    {
        let len = self.tables.len();
        proof {
            lemma_slot(k as int, i as int, self.frames@.len() as int);
        }
        self.tables[k * EPP + i]
    }

    /// The table held in the page at `addr`.
    fn lookup(&self, addr: u64) -> (r: usize)
        requires
            self.wf(),
            exists|k: int| 0 <= k < self.frames@.len() && self.frames@[k] == addr,
        ensures
            r < self.frames@.len(),
            self.frames@[r as int] == addr,
    {
        let n = self.frames.len();
        let mut k: usize = 0;
        while k < n
            invariant
                n == self.frames@.len(),
                k <= n,
                forall|j: int| 0 <= j < k ==> self.frames@[j] != addr,
                exists|j: int| 0 <= j < self.frames@.len() && self.frames@[j] == addr,
            decreases n - k,
        {
            if self.frames[k] == addr {
                return k;
            }
            k = k + 1;
        }
        k
    }

    /// From table `k`, which sits at path `p`, the table that entry `i` points to, if the
    /// entry is present.
    fn descend(&self, k: usize, i: usize, Ghost(p): Ghost<Seq<int>>, root: bool) -> (r: Option<usize>)
        requires
            self.wf(),
            self.paths@.dom().contains(p),
            self.paths@[p] == k,
            p.len() < 3,
            i < 512,
            root == (p.len() == 0),
        ensures
            r is Some <==> self.paths@.dom().contains(p.push(i as int)),
            r is Some ==> r->Some_0 as int == self.paths@[p.push(i as int)],
    {
        let e = self.entry_at(k, i);
        let (is_present, ptr) = if root {
            let ent = PML4E(e);
            (ent.get_present(), ent.get_ptr())
        } else {
            let ent = PDPE(e);
            (ent.get_present(), ent.get_ptr())
        };
        if !is_present {
            return None;
        }
        let q = Ghost(p.push(i as int));
        proof {
            assert(self.frames@[self.paths@[q@]] == entry_addr(e));
        }
        let child = self.lookup(ptr << 12);
        proof {
            if child as int != self.paths@[q@] {
                assert(self.frames@[child as int] != self.frames@[self.paths@[q@]]);
            }
        }
        Some(child)
    }

    /// The physical page that `virt` is mapped to, if any.
    /// How many tables a mapping of `virt` still needs (`missing_tables`).
    pub fn tables_missing(&self, virt: u64) -> (r: u64)
        requires
            self.wf(),
        ensures
            r == self.missing_tables(virt),
            r <= 3,
    {
        let (pml4i, pdpi, pdi, _) = get_indices(virt);
        let ghost key = key_of(virt);
        let ghost p0 = Seq::<int>::empty();
        let ghost p1 = p0.push(pml4i as int);
        let ghost p2 = p1.push(pdpi as int);
        let k1 = match self.descend(0, pml4i, Ghost(p0), true) {
            Some(k) => k,
            None => {
                return 3;
            },
        };
        let k2 = match self.descend(k1, pdpi, Ghost(p1), false) {
            Some(k) => k,
            None => {
                return 2;
            },
        };
        match self.descend(k2, pdi, Ghost(p2), false) {
            Some(_) => 0,
            None => 1,
        }
    }

    pub fn get_ptr(&self, virt: u64) -> (r: Option<u64>)
        requires
            self.wf(),
        ensures
            r == (if self@.contains_key(key_of(virt)) {
                Some(entry_addr(self@[key_of(virt)]))
            } else {
                None
            }),
    {
        let (pml4i, pdpi, pdi, pti) = get_indices(virt);
        let ghost key = key_of(virt);
        let ghost p0 = Seq::<int>::empty();
        let ghost p1 = p0.push(pml4i as int);
        let ghost p2 = p1.push(pdpi as int);
        let ghost p3 = p2.push(pdi as int);
        proof {
            assert(p3 =~= leaf_path(key));
            assert(p3.drop_last() =~= p2);
            assert(p2.drop_last() =~= p1);
        }
        let k1 = match self.descend(0, pml4i, Ghost(p0), true) {
            Some(k) => k,
            None => {
                return None;
            },
        };
        let k2 = match self.descend(k1, pdpi, Ghost(p1), false) {
            Some(k) => k,
            None => {
                return None;
            },
        };
        let k3 = match self.descend(k2, pdi, Ghost(p2), false) {
            Some(k) => k,
            None => {
                return None;
            },
        };
        let pte = PTE(self.entry_at(k3, pti));
        if !pte.get_present() {
            return None;
        }
        Some(pte.get_ptr() << 12)
    }
}

/// `after` holds the tables of `before`, in order, then tables in pages that were free in
/// the manager's state `rs`.
pub open spec fn tables_grow(before: Seq<u64>, after: Seq<u64>, rs: Seq<RegionView>) -> bool {
    &&& before.len() <= after.len()
    &&& forall|j: int| 0 <= j < before.len() ==> after[j] == before[j]
    &&& forall|j: int| before.len() <= j < after.len() ==> !allocated(rs, #[trigger] after[j] as int)
}

/// Every page in use in `rs1` is in use in `rs2`.
pub open spec fn keeps_allocated(rs1: Seq<RegionView>, rs2: Seq<RegionView>) -> bool {
    forall|x: int| allocated(rs1, x) ==> #[trigger] allocated(rs2, x)
}

pub proof fn lemma_tables_grow_trans(
    a: Seq<u64>,
    b: Seq<u64>,
    c: Seq<u64>,
    rs1: Seq<RegionView>,
    rs2: Seq<RegionView>,
)
    requires
        tables_grow(a, b, rs1),
        tables_grow(b, c, rs2),
        keeps_allocated(rs1, rs2),
    ensures
        tables_grow(a, c, rs1),
{
    assert forall|j: int| a.len() <= j < c.len() implies !allocated(rs1, #[trigger] c[j] as int) by {
        if j < b.len() {
            assert(c[j] == b[j]);
        } else {
            if allocated(rs1, c[j] as int) {
                assert(allocated(rs2, c[j] as int));
            }
        }
    }
}

pub proof fn lemma_keeps_trans(a: Seq<RegionView>, b: Seq<RegionView>, c: Seq<RegionView>)
    requires
        keeps_allocated(a, b),
        keeps_allocated(b, c),
    ensures
        keeps_allocated(a, c),
{
    assert forall|x: int| allocated(a, x) implies #[trigger] allocated(c, x) by {
        assert(allocated(b, x));
    }
}

pub proof fn lemma_alloc_times_keeps(rs: Seq<RegionView>, n: nat)
    requires
        pmm_sane(rs),
    ensures
        keeps_allocated(rs, alloc_times(rs, n)),
        pmm_sane(alloc_times(rs, n)),
    decreases n,
{
    if n > 0 {
        lemma_sane_after_alloc(rs, 1);
        lemma_alloc_times_keeps(alloc_state(rs, 1), (n - 1) as nat);
        assert(alloc_times(rs, n) == alloc_times(alloc_state(rs, 1), (n - 1) as nat));
        if alloc_addr(rs, 1) is Some {
            law_alloc_hands_out_free_pages(rs, 1);
        } else {
            law_alloc_fails_only_when_full(rs, 1);
        }
    } else {
        assert(alloc_times(rs, 0) == rs);
    }
}

proof fn lemma_slot(k: int, i: int, n: int)
    requires
        0 <= k < n,
        0 <= i < 512,
    ensures
        0 <= k * 512 + i < n * 512,
{
    assert(k * 512 + i < n * 512) by (nonlinear_arith)
        requires 0 <= k < n, 0 <= i < 512;
    assert(k * 512 >= 0) by (nonlinear_arith)
        requires 0 <= k;
}

/// The memory manager's regions after `n` allocations of one page each.
pub open spec fn alloc_times(rs: Seq<RegionView>, n: nat) -> Seq<RegionView>
    decreases n,
{
    if n == 0 {
        rs
    } else {
        alloc_times(alloc_state(rs, 1), (n - 1) as nat)
    }
}

/// `n` allocations of one page in a row all find a page.
pub open spec fn can_alloc_times(rs: Seq<RegionView>, n: nat) -> bool {
    forall|j: nat| j < n ==> !pmm_full(#[trigger] alloc_times(rs, j))
}

pub proof fn lemma_full_iff(rs: Seq<RegionView>)
    ensures
        pmm_full(rs) <==> alloc_addr(rs, 1) is None,
{
    lemma_first_region_fit(rs, 1, 0);
}

pub proof fn lemma_alloc_state_shape(rs: Seq<RegionView>, want: int)
    ensures
        alloc_state(rs, want).len() == rs.len(),
        forall|r: int|
            0 <= r < rs.len() ==> {
                &&& (#[trigger] alloc_state(rs, want)[r]).first == rs[r].first
                &&& alloc_state(rs, want)[r].pages == rs[r].pages
                &&& alloc_state(rs, want)[r].used.len() == rs[r].used.len()
            },
{
    lemma_first_region_fit(rs, want, 0);
}

pub proof fn lemma_sane_after_alloc(rs: Seq<RegionView>, want: int)
    requires
        pmm_sane(rs),
    ensures
        pmm_sane(alloc_state(rs, want)),
{
    lemma_alloc_state_shape(rs, want);
    let st = alloc_state(rs, want);
    assert forall|r: int| 0 <= r < st.len() implies {
        &&& (#[trigger] st[r]).used.len() == st[r].pages
        &&& st[r].first + st[r].pages * PAGE_SIZE <= u64::MAX
        &&& st[r].first >= 0
    } by {
        assert(st[r].first == rs[r].first);
        assert(rs[r].used.len() == rs[r].pages);
    }
    assert forall|i: int, j: int|
        0 <= i < st.len() && 0 <= j < st.len() && i != j implies {
            ||| st[i].first + st[i].pages * PAGE_SIZE <= st[j].first
            ||| st[j].first + st[j].pages * PAGE_SIZE <= st[i].first
        } by {
        assert(st[i].first == rs[i].first && st[j].first == rs[j].first);
    }
    assert forall|r: int| 0 <= r < st.len() implies {
        &&& (#[trigger] st[r]).first % 4096 == 0
        &&& st[r].first + st[r].pages * PAGE_SIZE <= 0x10_0000_0000_0000
    } by {
        assert(st[r].first == rs[r].first);
    }
}

/// In sane regions, an allocated page is a valid frame address.
pub proof fn lemma_allocated_frame(rs: Seq<RegionView>, a: int)
    requires
        pmm_sane(rs),
        allocated(rs, a),
    ensures
        0 <= a <= u64::MAX,
        frame_addr(a as u64),
{
    let (r, i) = choose|r: int, i: int|
        0 <= r < rs.len() && 0 <= i < rs[r].pages && #[trigger] rs[r].used[i] && a == rs[r].first + i * PAGE_SIZE;
    assert(i * 4096 < rs[r].pages * 4096) by (nonlinear_arith)
        requires 0 <= i < rs[r].pages;
    assert(i * 4096 >= 0) by (nonlinear_arith)
        requires 0 <= i;
    assert((rs[r].first + i * 4096) % 4096 == 0) by (nonlinear_arith)
        requires rs[r].first % 4096 == 0;
}

proof fn lemma_slot_unique(k1: int, i1: int, k2: int, i2: int)
    requires
        0 <= i1 < 512,
        0 <= i2 < 512,
        k1 * 512 + i1 == k2 * 512 + i2,
    ensures
        k1 == k2,
        i1 == i2,
{
    assert(k1 == k2) by (nonlinear_arith)
        requires 0 <= i1 < 512, 0 <= i2 < 512, k1 * 512 + i1 == k2 * 512 + i2;
}

proof fn lemma_push_eq(p1: Seq<int>, i1: int, p2: Seq<int>, i2: int)
    requires
        p1.push(i1) == p2.push(i2),
    ensures
        p1 == p2,
        i1 == i2,
{
    assert(p1 =~= p1.push(i1).drop_last());
    assert(p2 =~= p2.push(i2).drop_last());
    assert(p1.push(i1).last() == i1);
}

/// The path from the root to the table at level `n` (1: PDP, 2: PD, 3: PT) on the way to
/// `virt`.
pub open spec fn path_to(virt: u64, n: int) -> Seq<int> {
    let k = key_of(virt);
    if n == 1 {
        Seq::<int>::empty().push(k.0)
    } else if n == 2 {
        Seq::<int>::empty().push(k.0).push(k.1)
    } else {
        Seq::<int>::empty().push(k.0).push(k.1).push(k.2)
    }
}

/// How many tables a mapping of `virt` needs when the tables at `paths` exist.
pub open spec fn missing_in(paths: Set<Seq<int>>, virt: u64) -> nat {
    if !paths.contains(path_to(virt, 1)) {
        3
    } else if !paths.contains(path_to(virt, 2)) {
        2
    } else if !paths.contains(path_to(virt, 3)) {
        1
    } else {
        0
    }
}

/// The tables that exist once `virt` is mapped: those at `paths`, and those on its way.
pub open spec fn with_path_of(paths: Set<Seq<int>>, virt: u64) -> Set<Seq<int>> {
    paths.insert(path_to(virt, 1)).insert(path_to(virt, 2)).insert(path_to(virt, 3))
}

/// The tables that mapping every address of `virts` calls for: the PDP, PD and PT on
/// the way to each one.
pub open spec fn tables_for(virts: Set<u64>) -> Set<Seq<int>> {
    Set::new(|p: Seq<int>| exists|v: u64, n: int| #![trigger path_to(v, n)] virts.contains(v) && 1 <= n <= 3 && p == path_to(v, n))
}

/// One address more calls for the tables on its way.
pub proof fn lemma_tables_for_insert(virts: Set<u64>, v: u64)
    ensures
        tables_for(virts.insert(v)) == tables_for(virts).insert(path_to(v, 1)).insert(path_to(v, 2)).insert(path_to(v, 3)),
{
    let a = tables_for(virts.insert(v));
    let b = tables_for(virts).insert(path_to(v, 1)).insert(path_to(v, 2)).insert(path_to(v, 3));
    assert forall|p: Seq<int>| a.contains(p) implies b.contains(p) by {
        let (w, n) = choose|w: u64, n: int| #![trigger path_to(w, n)] virts.insert(v).contains(w) && 1 <= n <= 3 && p == path_to(w, n);
        if w != v {
            assert(virts.contains(w));
        }
    }
    assert forall|p: Seq<int>| b.contains(p) implies a.contains(p) by {
        if tables_for(virts).contains(p) {
            let (w, n) = choose|w: u64, n: int| #![trigger path_to(w, n)] virts.contains(w) && 1 <= n <= 3 && p == path_to(w, n);
            assert(virts.insert(v).contains(w));
        } else {
            assert(virts.insert(v).contains(v));
            if p == path_to(v, 1) {
                assert(1 <= 1int <= 3 && p == path_to(v, 1));
            } else if p == path_to(v, 2) {
                assert(1 <= 2int <= 3 && p == path_to(v, 2));
            } else {
                assert(1 <= 3int <= 3 && p == path_to(v, 3));
            }
        }
    }
    assert(a =~= b);
}

/// Finitely many addresses call for finitely many tables.
pub proof fn lemma_tables_for_finite(virts: Set<u64>)
    requires
        virts.finite(),
    ensures
        tables_for(virts).finite(),
    decreases virts.len(),
{
    if virts.len() == 0 {
        assert(virts =~= Set::empty());
        assert(tables_for(virts) =~= Set::empty());
    } else {
        let v = virts.choose();
        lemma_tables_for_finite(virts.remove(v));
        lemma_tables_for_insert(virts.remove(v), v);
        assert(virts.remove(v).insert(v) =~= virts);
    }
}

/// More addresses call for at least the same tables.
pub proof fn lemma_tables_for_mono(a: Set<u64>, b: Set<u64>)
    requires
        a.subset_of(b),
    ensures
        tables_for(a).subset_of(tables_for(b)),
{
    assert forall|p: Seq<int>| tables_for(a).contains(p) implies tables_for(b).contains(p) by {
        let (w, n) = choose|w: u64, n: int| #![trigger path_to(w, n)] a.contains(w) && 1 <= n <= 3 && p == path_to(w, n);
        assert(b.contains(w));
    }
}

/// Mapping `virt` where the tables at `paths` exist (with each table's parent there
/// too) adds exactly the `missing_in` tables that it lacks.
pub proof fn lemma_with_path_count(paths0: Set<Seq<int>>, paths: Set<Seq<int>>, virt: u64)
    requires
        paths0.subset_of(paths),
        paths.difference(paths0).finite(),
        paths.contains(path_to(virt, 3)) ==> paths.contains(path_to(virt, 2)),
        paths.contains(path_to(virt, 2)) ==> paths.contains(path_to(virt, 1)),
    ensures
        with_path_of(paths, virt).difference(paths0).finite(),
        with_path_of(paths, virt).difference(paths0).len() == paths.difference(paths0).len() + missing_in(paths, virt),
        paths0.subset_of(with_path_of(paths, virt)),
{
    let p1 = path_to(virt, 1);
    let p2 = path_to(virt, 2);
    let p3 = path_to(virt, 3);
    let d = paths.difference(paths0);
    assert(p1.len() == 1 && p2.len() == 2 && p3.len() == 3);
    let w = with_path_of(paths, virt);
    if paths.contains(p3) {
        assert(w =~= paths);
    } else if paths.contains(p2) {
        assert(w.difference(paths0) =~= d.insert(p3));
    } else if paths.contains(p1) {
        assert(w.difference(paths0) =~= d.insert(p2).insert(p3));
    } else {
        assert(w.difference(paths0) =~= d.insert(p1).insert(p2).insert(p3));
    }
}

/// Room for `j` pages more after `a` is room for `a + j`.
pub proof fn lemma_can_join(rs: Seq<RegionView>, a: nat, n: nat)
    requires
        can_alloc_times(rs, a),
        can_alloc_times(alloc_times(rs, a), n),
    ensures
        can_alloc_times(rs, a + n),
{
    assert forall|j: nat| j < a + n implies !pmm_full(#[trigger] alloc_times(rs, j)) by {
        if j >= a {
            lemma_alloc_times_add(rs, a, (j - a) as nat);
            assert(!pmm_full(alloc_times(alloc_times(rs, a), (j - a) as nat)));
        }
    }
}

impl Paging {
    /// The tables on the way to `virt` that exist have their parents: a PT only under a
    /// PD that exists, a PD only under a PDP that exists.
    pub proof fn lemma_parents_exist(&self, virt: u64)
        requires
            self.wf(),
        ensures
            self.path_set().contains(path_to(virt, 3)) ==> self.path_set().contains(path_to(virt, 2)),
            self.path_set().contains(path_to(virt, 2)) ==> self.path_set().contains(path_to(virt, 1)),
    {
        assert(path_to(virt, 3).drop_last() =~= path_to(virt, 2));
        assert(path_to(virt, 2).drop_last() =~= path_to(virt, 1));
    }

    /// The table at path `p` exists.
    pub closed spec fn has_path(&self, p: Seq<int>) -> bool {
        self.paths@.dom().contains(p)
    }

    /// The paths of the tables that exist.
    pub closed spec fn path_set(&self) -> Set<Seq<int>> {
        self.paths@.dom()
    }

    /// What is missing for `virt` is what its paths miss among the tables that exist.
    pub proof fn lemma_missing_in(&self, virt: u64)
        ensures
            self.missing_tables(virt) == missing_in(self.path_set(), virt),
    {
    }

    /// How many tables a mapping of `virt` still needs: the missing PDP, PD and PT.
    pub closed spec fn missing_tables(&self, virt: u64) -> nat {
        let k = key_of(virt);
        let p1 = Seq::<int>::empty().push(k.0);
        let p2 = p1.push(k.1);
        let p3 = p2.push(k.2);
        if !self.has_path(p1) {
            3
        } else if !self.has_path(p2) {
            2
        } else if !self.has_path(p3) {
            1
        } else {
            0
        }
    }

    /// Stores `v` as entry `i` of table `k`.
    fn set_entry(&mut self, k: usize, i: usize, v: u64)
        requires
            old(self).tables@.len() == old(self).frames@.len() * 512,
            k < old(self).frames@.len(),
            i < 512,
        ensures
            final(self).frames@ == old(self).frames@,
            final(self).paths@ == old(self).paths@,
            final(self).tables@.len() == old(self).tables@.len(),
            forall|k2: int, i2: int|
                0 <= i2 < 512 && 0 <= k2 < old(self).frames@.len() ==> #[trigger] final(self).entry(k2, i2) == (if k2 == k && i2 == i {
                    v
                } else {
                    old(self).entry(k2, i2)
                }),
    {
        let len = self.tables.len();
        proof {
            lemma_slot(k as int, i as int, self.frames@.len() as int);
        }
        self.tables.set(k * EPP + i, v);
        proof {
            assert forall|k2: int, i2: int| 0 <= i2 < 512 && 0 <= k2 < old(self).frames@.len() implies #[trigger] self.entry(k2, i2) == (if k2 == k && i2 == i {
                v
            } else {
                old(self).entry(k2, i2)
            }) by {
                lemma_slot(k2, i2, self.frames@.len() as int);
                if k2 * 512 + i2 == k * 512 + i {
                    lemma_slot_unique(k2, i2, k as int, i as int);
                }
            }
        }
    }

    /// Adds a zeroed table held in the page at `f`; gives back its index.
    fn add_table(&mut self, f: u64) -> (n: usize)
        requires
            old(self).tables@.len() == old(self).frames@.len() * 512,
        ensures
            n == old(self).frames@.len(),
            final(self).frames@ == old(self).frames@.push(f),
            final(self).paths@ == old(self).paths@,
            final(self).tables@.len() == final(self).frames@.len() * 512,
            forall|k2: int, i2: int|
                0 <= i2 < 512 && 0 <= k2 < final(self).frames@.len() ==> #[trigger] final(self).entry(k2, i2) == (if k2 == n {
                    0u64
                } else {
                    old(self).entry(k2, i2)
                }),
    {
        let n = self.frames.len();
        let ghost old_tables = self.tables@;
        self.frames.push(f);
        let mut j: usize = 0;
        while j < EPP
            invariant
                j <= EPP,
                n == old(self).frames@.len(),
                self.frames@ == old(self).frames@.push(f),
                self.paths@ == old(self).paths@,
                self.tables@.len() == old_tables.len() + j,
                old_tables.len() == n * 512,
                forall|t: int| 0 <= t < old_tables.len() ==> self.tables@[t] == old_tables[t],
                forall|t: int| old_tables.len() <= t < self.tables@.len() ==> self.tables@[t] == 0u64,
            decreases EPP - j,
        {
            self.tables.push(0);
            j = j + 1;
        }
        proof {
            assert forall|k2: int, i2: int|
                0 <= i2 < 512 && 0 <= k2 < self.frames@.len() implies #[trigger] self.entry(k2, i2) == (if k2 == n {
                    0u64
                } else {
                    old(self).entry(k2, i2)
                }) by {
                lemma_slot(k2, i2, self.frames@.len() as int);
                if k2 < n {
                    lemma_slot(k2, i2, n as int);
                } else {
                    assert(k2 * 512 >= n * 512) by (nonlinear_arith)
                        requires k2 >= n;
                }
            }
        }
        n
    }

    /// Index of the table at path `p`.
    pub closed spec fn table_of(&self, p: Seq<int>) -> int {
        self.paths@[p]
    }

    /// The table that entry `i` of table `k` (at path `p`) points to; when the entry is
    /// not present, a new zeroed table is allocated and the entry is made to point to it.
    fn alloc_level(&mut self, pmm: &mut Pmm, k: usize, i: usize, Ghost(p): Ghost<Seq<int>>, root: bool) -> (r: Result<usize, ()>)
        requires
            old(self).wf(),
            old(pmm).wf(),
            pmm_sane(old(pmm)@),
            old(self).frames_allocated(old(pmm)@),
            old(self).has_path(p),
            old(self).table_of(p) == k,
            p.len() < 3,
            i < 512,
            root == (p.len() == 0),
        ensures
            final(self).wf(),
            final(pmm).wf(),
            pmm_sane(final(pmm)@),
            final(self).frames_allocated(final(pmm)@),
            final(self)@ == old(self)@,
            forall|q: Seq<int>|
                old(self).has_path(q) ==> #[trigger] final(self).has_path(q) && final(self).table_of(q) == old(self).table_of(q),
            forall|q: Seq<int>| #[trigger] final(self).has_path(q) ==> old(self).has_path(q) || q == p.push(i as int),
            old(self).has_path(p.push(i as int)) ==> {
                &&& r == Ok::<usize, ()>(old(self).table_of(p.push(i as int)) as usize)
                &&& final(pmm)@ == old(pmm)@
            },
            !old(self).has_path(p.push(i as int)) && pmm_full(old(pmm)@) ==> {
                &&& r is Err
                &&& final(pmm)@ == old(pmm)@
            },
            !old(self).has_path(p.push(i as int)) && !pmm_full(old(pmm)@) ==> {
                &&& r is Ok
                &&& final(pmm)@ == alloc_state(old(pmm)@, 1)
            },
            r is Ok ==> final(self).has_path(p.push(i as int)) && r->Ok_0 as int == final(self).table_of(p.push(i as int)),
            r is Err ==> *final(self) == *old(self),
            tables_grow(old(self).frames(), final(self).frames(), old(pmm)@),
            keeps_allocated(old(pmm)@, final(pmm)@),
    {
        match self.descend(k, i, Ghost(p), root) {
            Some(c) => {
                return Ok(c);
            },
            None => {},
        }
        let ghost q = p.push(i as int);
        let ghost rs0 = pmm@;
        let next = pmm.calloc(1);
        proof {
            lemma_full_iff(rs0);
        }
        let f = match next {
            Ok(f) => f,
            Err(_) => {
                return Err(());
            },
        };
        proof {
            pmm.lemma_valid();
            law_alloc_hands_out_free_pages(rs0, 1);
            assert(f as int == alloc_addr(rs0, 1)->Some_0 + 0 * PAGE_SIZE);
            lemma_sane_after_alloc(rs0, 1);
            lemma_allocated_frame(pmm@, f as int);
            assert forall|j: int| 0 <= j < self.frames@.len() implies self.frames@[j] != f by {
                assert(allocated(rs0, self.frames@[j] as int));
            }
        }
        let ghost old_self = *self;
        let n = self.add_table(f);
        let ghost mid = *self;
        let e: u64 = if root {
            let mut ent = PML4E::new();
            ent.set_ptr(f >> 12);
            ent.0
        } else {
            let mut ent = PDPE::new();
            ent.set_ptr(f >> 12);
            ent.0
        };
        proof {
            assert(e == dir_entry(f));
            lemma_dir_entry(f);
        }
        self.set_entry(k, i, e);
        let ghost after_set = *self;
        self.paths = Ghost(self.paths@.insert(q, n as int));
        proof {
            let paths = self.paths@;
            let opaths = old_self.paths@;
            assert(self.tables@ == after_set.tables@);
            assert forall|k2: int, i2: int| 0 <= i2 < 512 && 0 <= k2 < self.frames@.len() implies #[trigger] self.entry(k2, i2) == (if k2 == k && i2 == i {
                e
            } else {
                mid.entry(k2, i2)
            }) by {
                assert(self.entry(k2, i2) == after_set.entry(k2, i2));
            }
            assert(q.drop_last() =~= p);
            assert forall|k2: int| 0 <= k2 < self.frames@.len() implies frame_addr(#[trigger] self.frames@[k2]) by {
                if k2 < n {
                    assert(self.frames@[k2] == old_self.frames@[k2]);
                }
            }
            assert forall|k1: int, k2: int|
                0 <= k1 < self.frames@.len() && 0 <= k2 < self.frames@.len() && k1 != k2
                    implies #[trigger] self.frames@[k1] != #[trigger] self.frames@[k2] by {
                if k1 < n && k2 < n {
                    assert(self.frames@[k1] == old_self.frames@[k1]);
                    assert(self.frames@[k2] == old_self.frames@[k2]);
                } else if k1 < n {
                    assert(self.frames@[k1] == old_self.frames@[k1]);
                } else {
                    assert(self.frames@[k2] == old_self.frames@[k2]);
                }
            }
            assert forall|p1: Seq<int>| #[trigger] paths.dom().contains(p1) implies {
                &&& 0 <= paths[p1] < self.frames@.len()
                &&& p1.len() <= 3
                &&& (p1.len() > 0 ==> paths.dom().contains(p1.drop_last()))
            } by {
                if p1 != q {
                    assert(opaths.dom().contains(p1));
                }
            }
            assert forall|p1: Seq<int>, p2: Seq<int>|
                #[trigger] paths.dom().contains(p1) && #[trigger] paths.dom().contains(p2) && p1 != p2
                    implies paths[p1] != paths[p2] by {
                if p1 != q && p2 != q {
                    assert(opaths.dom().contains(p1) && opaths.dom().contains(p2));
                } else if p1 == q {
                    assert(opaths.dom().contains(p2));
                } else {
                    assert(opaths.dom().contains(p1));
                }
            }
            assert forall|p1: Seq<int>, i1: int|
                paths.dom().contains(p1) && p1.len() < 3 && 0 <= i1 < 512 implies {
                    &&& present(#[trigger] self.entry(paths[p1], i1)) <==> paths.dom().contains(p1.push(i1))
                    &&& paths.dom().contains(p1.push(i1)) ==> self.frames@[paths[p1.push(i1)]]
                        == entry_addr(self.entry(paths[p1], i1))
                    &&& paths.dom().contains(p1.push(i1)) ==> self.entry(paths[p1], i1)
                        == dir_entry(self.frames@[paths[p1.push(i1)]])
                } by {
                if p1 == q {
                    assert(mid.entry(n as int, i1) == 0u64);
                    assert(self.entry(n as int, i1) == 0u64);
                    lemma_zero_not_present();
                    if paths.dom().contains(p1.push(i1)) {
                        assert(p1.push(i1) != q);
                        assert(opaths.dom().contains(p1.push(i1)));
                        assert(p1.push(i1).drop_last() =~= p1);
                    }
                } else {
                    assert(opaths.dom().contains(p1));
                    if p1.push(i1) == q {
                        lemma_push_eq(p1, i1, p, i as int);
                    }
                    if paths[p1] == k as int && i1 == i {
                        assert(p1 == p);
                    }
                    assert(opaths[p1] < n);
                    assert(mid.entry(opaths[p1], i1) == old_self.entry(opaths[p1], i1));
                    assert(old_self.entry(opaths[p1], i1) == self.entry(opaths[p1], i1) || (opaths[p1] == k && i1 == i));
                    if opaths.dom().contains(p1.push(i1)) {
                        assert(self.frames@[paths[p1.push(i1)]] == old_self.frames@[opaths[p1.push(i1)]]);
                    }
                    if p1.push(i1) == q {
                        assert(paths[q] == n as int);
                        assert(self.frames@[n as int] == f);
                    }
                }
            }
            assert(self.wf());
            assert forall|k2: int| 0 <= k2 < self.frames@.len() implies allocated(pmm@, #[trigger] self.frames@[k2] as int) by {
                if k2 < n {
                    assert(self.frames@[k2] == old_self.frames@[k2]);
                    assert(allocated(rs0, old_self.frames@[k2] as int));
                }
            }
            assert forall|key: (int, int, int, int)| #[trigger] self@.contains_key(key) <==> old_self@.contains_key(key) by {
                let lp = leaf_path(key);
                if lp == q {
                    if 0 <= key.3 < 512 {
                        assert(mid.entry(n as int, key.3) == 0u64);
                        assert(self.entry(n as int, key.3) == 0u64);
                    }
                    lemma_zero_not_present();
                } else if paths.dom().contains(lp) && 0 <= key.3 < 512 {
                    assert(opaths.dom().contains(lp));
                    assert(lp.len() == 3);
                    if opaths[lp] == k as int {
                        assert(lp == p);
                    }
                    assert(mid.entry(opaths[lp], key.3) == old_self.entry(opaths[lp], key.3));
                }
            }
            assert forall|key: (int, int, int, int)| #[trigger] self@.contains_key(key) implies self@[key] == old_self@[key] by {
                let lp = leaf_path(key);
                assert(lp != q);
                assert(opaths.dom().contains(lp));
                assert(lp.len() == 3);
                if opaths[lp] == k as int {
                    assert(lp == p);
                }
                assert(mid.entry(opaths[lp], key.3) == old_self.entry(opaths[lp], key.3));
            }
            assert(self@ =~= old_self@);
        }
        Ok(n)
    }

    /// Maps the page at `m.virt` to the page at `m.phys` with the attributes of `m`,
    /// allocating the missing PDP, PD and page tables on the way.
    pub fn map_one(&mut self, pmm: &mut Pmm, m: Mapping) -> (r: Result<(), ()>)
        requires
            old(self).wf(),
            old(pmm).wf(),
            pmm_sane(old(pmm)@),
            old(self).frames_allocated(old(pmm)@),
        ensures
            final(self).wf(),
            final(pmm).wf(),
            pmm_sane(final(pmm)@),
            final(self).frames_allocated(final(pmm)@),
            r is Ok <==> can_alloc_times(old(pmm)@, old(self).missing_tables(m.virt)),
            r is Ok ==> {
                &&& final(self)@ == old(self)@.insert(key_of(m.virt), map_pte(m, m.phys))
                &&& present(final(self)@[key_of(m.virt)])
                &&& entry_addr(final(self)@[key_of(m.virt)]) == m.phys & ADDR_MASK
                &&& writable(final(self)@[key_of(m.virt)]) <==> !m.ro
                &&& no_execute(final(self)@[key_of(m.virt)]) <==> m.nx
                &&& global_page(final(self)@[key_of(m.virt)]) <==> m.global
                &&& cache_disabled(final(self)@[key_of(m.virt)]) <==> m.pcd
                &&& final(pmm)@ == alloc_times(old(pmm)@, old(self).missing_tables(m.virt))
                &&& final(self).missing_tables(m.virt) == 0
                &&& final(self).path_set() == with_path_of(old(self).path_set(), m.virt)
            },
            r is Err ==> {
                &&& final(self)@ == old(self)@
                &&& pmm_full(final(pmm)@)
                &&& exists|j: nat| j < old(self).missing_tables(m.virt) && final(pmm)@ == alloc_times(old(pmm)@, j)
                &&& final(self).missing_tables(m.virt) > 0
            },
            tables_grow(old(self).frames(), final(self).frames(), old(pmm)@),
            keeps_allocated(old(pmm)@, final(pmm)@),
    {
        proof {
            lemma_pte_value(m.global, m.ro, m.nx, m.pcd, m.phys);
        }
        let (pml4i, pdpi, pdi, pti) = get_indices(m.virt);
        let ghost key = key_of(m.virt);
        let ghost p0 = Seq::<int>::empty();
        let ghost p1 = p0.push(pml4i as int);
        let ghost p2 = p1.push(pdpi as int);
        let ghost p3 = p2.push(pdi as int);
        let ghost s0 = *self;
        let ghost pm0 = pmm@;
        let ghost miss = s0.missing_tables(m.virt);
        proof {
            assert(p3 =~= leaf_path(key));
            assert(p3.drop_last() =~= p2);
            assert(p2.drop_last() =~= p1);
            assert(p1.drop_last() =~= p0);
            if s0.has_path(p3) {
                assert(s0.has_path(p2));
                assert(s0.has_path(p1));
            } else if s0.has_path(p2) {
                assert(s0.has_path(p1));
            }
            lemma_can_alloc_step(pm0, 0);
            lemma_can_alloc_step(pm0, 1);
            lemma_can_alloc_step(pm0, 2);
            lemma_can_alloc_step(alloc_state(pm0, 1), 0);
            lemma_can_alloc_step(alloc_state(pm0, 1), 1);
            lemma_can_alloc_step(alloc_state(alloc_state(pm0, 1), 1), 0);
            lemma_alloc_times_unfold(pm0);
        }
        let k1 = match self.alloc_level(pmm, 0, pml4i, Ghost(p0), true) {
            Ok(k) => k,
            Err(_) => {
                proof {
                    assert(miss == 3);
                    assert(pmm@ == alloc_times(pm0, 0));
                }
                return Err(());
            },
        };
        let ghost s1 = *self;
        let ghost pm1 = pmm@;
        let k2 = match self.alloc_level(pmm, k1, pdpi, Ghost(p1), false) {
            Ok(k) => k,
            Err(_) => {
                proof {
                    lemma_tables_grow_trans(s0.frames(), s1.frames(), self.frames(), pm0, pm1);
                    lemma_keeps_trans(pm0, pm1, pmm@);
                    assert(!s1.has_path(p2));
                    assert(!s0.has_path(p2));
                    if s0.has_path(p1) {
                        assert(miss == 2);
                        assert(pmm@ == alloc_times(pm0, 0));
                    } else {
                        assert(miss == 3);
                        assert(pmm@ == alloc_times(pm0, 1));
                    }
                }
                return Err(());
            },
        };
        let ghost s2 = *self;
        let ghost pm2 = pmm@;
        proof {
            lemma_tables_grow_trans(s0.frames(), s1.frames(), s2.frames(), pm0, pm1);
            lemma_keeps_trans(pm0, pm1, pm2);
        }
        let k3 = match self.alloc_level(pmm, k2, pdi, Ghost(p2), false) {
            Ok(k) => k,
            Err(_) => {
                proof {
                    lemma_tables_grow_trans(s0.frames(), s2.frames(), self.frames(), pm0, pm2);
                    lemma_keeps_trans(pm0, pm2, pmm@);
                    assert(!s2.has_path(p3));
                    assert(!s1.has_path(p3));
                    assert(!s0.has_path(p3));
                    if s0.has_path(p2) {
                        assert(miss == 1);
                        assert(pmm@ == alloc_times(pm0, 0));
                    } else if s0.has_path(p1) {
                        assert(miss == 2);
                        assert(pmm@ == alloc_times(pm0, 1));
                    } else {
                        assert(miss == 3);
                        assert(pmm@ == alloc_times(pm0, 2));
                    }
                }
                return Err(());
            },
        };
        let ghost s3 = *self;
        proof {
            lemma_tables_grow_trans(s0.frames(), s2.frames(), s3.frames(), pm0, pm2);
            lemma_keeps_trans(pm0, pm2, pmm@);
            if s0.has_path(p3) {
                assert(miss == 0);
                assert(pmm@ == alloc_times(pm0, 0));
            } else if s0.has_path(p2) {
                assert(miss == 1);
                assert(pmm@ == alloc_times(pm0, 1));
            } else if s0.has_path(p1) {
                assert(miss == 2);
                assert(pmm@ == alloc_times(pm0, 2));
            } else {
                assert(miss == 3);
                assert(pmm@ == alloc_times(pm0, 3));
            }
        }
        let mut pte = PTE::new();
        pte.set_global(m.global);
        pte.set_rw(!m.ro);
        pte.set_nx(m.nx);
        pte.set_pcd(m.pcd);
        pte.set_ptr(m.phys >> 12);
        let v = pte.0;
        proof {
            assert(v == map_pte(m, m.phys));
            lemma_pte_value(m.global, m.ro, m.nx, m.pcd, m.phys);
        }
        proof {
            assert(s3.has_path(p1));
            assert(s3.has_path(p2));
            assert(s3.has_path(p3));
        }
        self.set_entry(k3, pti, v);
        proof {
            assert(self.has_path(p1) && self.has_path(p2) && self.has_path(p3));
            assert(p1 == path_to(m.virt, 1));
            assert(p2 == path_to(m.virt, 2));
            assert(p3 == path_to(m.virt, 3));
            assert forall|q: Seq<int>| #[trigger] self.path_set().contains(q) <==> with_path_of(s0.path_set(), m.virt).contains(q) by {
                assert(self.paths@ == s3.paths@);
                assert(s3.has_path(q) ==> s2.has_path(q) || q == p3);
                assert(s2.has_path(q) ==> s1.has_path(q) || q == p2);
                assert(s1.has_path(q) ==> s0.has_path(q) || q == p1);
                assert(s0.has_path(q) ==> s1.has_path(q));
                assert(s1.has_path(q) ==> s2.has_path(q));
                assert(s2.has_path(q) ==> s3.has_path(q));
            }
            assert(self.path_set() =~= with_path_of(s0.path_set(), m.virt));
            let paths = self.paths@;
            assert forall|p1x: Seq<int>, i1: int|
                paths.dom().contains(p1x) && p1x.len() < 3 && 0 <= i1 < 512 implies {
                    &&& present(#[trigger] self.entry(paths[p1x], i1)) <==> paths.dom().contains(p1x.push(i1))
                    &&& paths.dom().contains(p1x.push(i1)) ==> self.frames@[paths[p1x.push(i1)]]
                        == entry_addr(self.entry(paths[p1x], i1))
                } by {
                assert(paths[p1x] != k3 as int);
                assert(s3.entry(paths[p1x], i1) == self.entry(paths[p1x], i1));
            }
            assert(self.wf());
            assert forall|kk: (int, int, int, int)| #[trigger] self@.contains_key(kk) <==> s3@.insert(key, v).contains_key(kk) by {
                let lp = leaf_path(kk);
                if kk == key {
                } else if paths.dom().contains(lp) && 0 <= kk.3 < 512 {
                    if paths[lp] == k3 as int {
                        assert(lp == p3);
                        lemma_leaf_path_inj(kk, key);
                        assert(kk.3 != key.3);
                    }
                    assert(s3.entry(paths[lp], kk.3) == self.entry(paths[lp], kk.3));
                }
            }
            assert forall|kk: (int, int, int, int)| #[trigger] self@.contains_key(kk) implies self@[kk] == s3@.insert(key, v)[kk] by {
                let lp = leaf_path(kk);
                if kk != key {
                    if paths[lp] == k3 as int {
                        assert(lp == p3);
                        lemma_leaf_path_inj(kk, key);
                        assert(kk.3 != key.3);
                    }
                    assert(s3.entry(paths[lp], kk.3) == self.entry(paths[lp], kk.3));
                }
            }
            assert(self@ =~= s0@.insert(key, v));
        }
        Ok(())
    }
}

proof fn lemma_leaf_path_inj(k1: (int, int, int, int), k2: (int, int, int, int))
    requires
        leaf_path(k1) == leaf_path(k2),
    ensures
        k1.0 == k2.0 && k1.1 == k2.1 && k1.2 == k2.2,
{
    let e = Seq::<int>::empty();
    lemma_push_eq(e.push(k1.0).push(k1.1), k1.2, e.push(k2.0).push(k2.1), k2.2);
    lemma_push_eq(e.push(k1.0), k1.1, e.push(k2.0), k2.1);
    lemma_push_eq(e, k1.0, e, k2.0);
}

proof fn lemma_alloc_times_unfold(rs: Seq<RegionView>)
    ensures
        alloc_times(rs, 0) == rs,
        alloc_times(rs, 1) == alloc_state(rs, 1),
        alloc_times(rs, 2) == alloc_state(alloc_state(rs, 1), 1),
        alloc_times(rs, 3) == alloc_state(alloc_state(alloc_state(rs, 1), 1), 1),
{
    assert(alloc_times(alloc_state(rs, 1), 0) == alloc_state(rs, 1));
    assert(alloc_times(alloc_state(alloc_state(rs, 1), 1), 0) == alloc_state(alloc_state(rs, 1), 1));
    assert(alloc_times(alloc_state(alloc_state(alloc_state(rs, 1), 1), 1), 0) == alloc_state(alloc_state(alloc_state(rs, 1), 1), 1));
    assert(alloc_times(alloc_state(alloc_state(rs, 1), 1), 1) == alloc_state(alloc_state(alloc_state(rs, 1), 1), 1));
    assert(alloc_times(alloc_state(rs, 1), 1) == alloc_state(alloc_state(rs, 1), 1));
    assert(alloc_times(alloc_state(rs, 1), 2) == alloc_state(alloc_state(alloc_state(rs, 1), 1), 1));
}

pub proof fn lemma_can_alloc_step(rs: Seq<RegionView>, n: nat)
    ensures
        can_alloc_times(rs, 0),
        can_alloc_times(rs, n + 1) <==> (!pmm_full(rs) && can_alloc_times(alloc_state(rs, 1), n)),
{
    if can_alloc_times(rs, n + 1) {
        assert(alloc_times(rs, 0) == rs);
        assert forall|j: nat| j < n implies !pmm_full(#[trigger] alloc_times(alloc_state(rs, 1), j)) by {
            assert(alloc_times(rs, j + 1) == alloc_times(alloc_state(rs, 1), j));
        }
    }
    if !pmm_full(rs) && can_alloc_times(alloc_state(rs, 1), n) {
        assert forall|j: nat| j < n + 1 implies !pmm_full(#[trigger] alloc_times(rs, j)) by {
            if j > 0 {
                assert(alloc_times(rs, j) == alloc_times(alloc_state(rs, 1), (j - 1) as nat));
            }
        }
    }
}

impl Paging {
    /// A request to map the single page at `virt` to the page at `phys`, writable,
    /// executable, not global, cached.
    pub fn newmap(virt: u64, phys: u64) -> (r: Mapping)
        ensures
            r == (Mapping { virt, phys, npages: 1, global: false, ro: false, nx: false, pcd: false }),
    {
        Mapping { virt: virt, phys: phys, npages: 1, global: false, ro: false, nx: false, pcd: false }
    }

    /// Maps `m.npages` consecutive pages, one at a time, from `m.virt` to `m.phys`; stops
    /// at the first page that cannot be mapped for want of memory.
    pub fn map(&mut self, pmm: &mut Pmm, m: Mapping) -> (r: Result<(), ()>)
        requires
            old(self).wf(),
            old(pmm).wf(),
            pmm_sane(old(pmm)@),
            old(self).frames_allocated(old(pmm)@),
            m.virt + m.npages * PAGE_SIZE <= u64::MAX,
            m.phys + m.npages * PAGE_SIZE <= u64::MAX,
        ensures
            final(self).wf(),
            final(pmm).wf(),
            pmm_sane(final(pmm)@),
            final(self).frames_allocated(final(pmm)@),
            r is Ok ==> final(self)@ == map_pages(old(self)@, m, m.npages as nat),
            r is Ok <==> map_room(old(pmm)@, old(self).path_set(), m, m.npages as nat),
            r is Ok ==> final(pmm)@ == map_run(old(pmm)@, old(self).path_set(), m, m.npages as nat).0
                && final(self).path_set() == map_run(old(pmm)@, old(self).path_set(), m, m.npages as nat).1,
            r is Err ==> {
                &&& pmm_full(final(pmm)@)
                &&& exists|j: nat| j < m.npages && final(self)@ == map_pages(old(self)@, m, j)
                    && #[trigger] final(self).missing_tables((m.virt + j * PAGE_SIZE) as u64) > 0
                    && map_room(old(pmm)@, old(self).path_set(), m, j)
                    && !can_alloc_times(map_run(old(pmm)@, old(self).path_set(), m, j).0,
                        missing_in(map_run(old(pmm)@, old(self).path_set(), m, j).1, page_virt(m, j as int)))
                    && (exists|t: nat| t < missing_in(map_run(old(pmm)@, old(self).path_set(), m, j).1, page_virt(m, j as int))
                        && final(pmm)@ == alloc_times(map_run(old(pmm)@, old(self).path_set(), m, j).0, t))
            },
            can_alloc_times(old(pmm)@, (3 * m.npages) as nat) ==> r is Ok,
            r is Ok ==> exists|t: nat| t <= 3 * m.npages && #[trigger] alloc_times(old(pmm)@, t) == final(pmm)@,
            tables_grow(old(self).frames(), final(self).frames(), old(pmm)@),
            keeps_allocated(old(pmm)@, final(pmm)@),
    {
        let npages = m.npages;
        let mut cur = m;
        let mut j: usize = 0;
        let ghost pm0 = pmm@;
        let ghost t: nat = 0;
        while j < npages
            invariant
                self.wf(),
                pmm.wf(),
                pmm_sane(pmm@),
                self.frames_allocated(pmm@),
                npages == m.npages,
                j <= npages,
                m.virt + m.npages * PAGE_SIZE <= u64::MAX,
                m.phys + m.npages * PAGE_SIZE <= u64::MAX,
                cur == (Mapping { virt: (m.virt + j * PAGE_SIZE) as u64, phys: (m.phys + j * PAGE_SIZE) as u64, ..m }),
                self@ == map_pages(old(self)@, m, j as nat),
                pmm@ == alloc_times(pm0, t),
                pm0 == old(pmm)@,
                t <= 3 * j,
                tables_grow(old(self).frames(), self.frames(), pm0),
                keeps_allocated(pm0, pmm@),
                pmm@ == map_run(pm0, old(self).path_set(), m, j as nat).0,
                self.path_set() == map_run(pm0, old(self).path_set(), m, j as nat).1,
                map_room(pm0, old(self).path_set(), m, j as nat),
            decreases npages - j,
        {
            proof {
                lemma_missing_le_3(*self, cur.virt);
                if can_alloc_times(pm0, (3 * m.npages) as nat) {
                    assert(t + (3 * m.npages - t) == 3 * m.npages);
                    lemma_can_shift(pm0, t, (3 * m.npages - t) as nat);
                    assert(self.missing_tables(cur.virt) <= 3 * m.npages - t);
                    lemma_can_mono(pmm@, (3 * m.npages - t) as nat, self.missing_tables(cur.virt));
                    assert(can_alloc_times(pmm@, self.missing_tables(cur.virt)));
                }
            }
            let ghost before = *self;
            let ghost pmb = pmm@;
            proof {
                before.lemma_missing_in(cur.virt);
                assert(cur.virt == page_virt(m, j as int));
            }
            let res = self.map_one(pmm, cur);
            proof {
                lemma_tables_grow_trans(old(self).frames(), before.frames(), self.frames(), pm0, pmb);
                lemma_keeps_trans(pm0, pmb, pmm@);
            }
            if res.is_err() {
                proof {
                    let jj = j as nat;
                    if map_room(pm0, old(self).path_set(), m, m.npages as nat) {
                        lemma_map_room_prefix(pm0, old(self).path_set(), m, jj + 1, m.npages as nat);
                    }
                    assert(self@ == map_pages(old(self)@, m, jj));
                    assert(self.missing_tables((m.virt + jj * PAGE_SIZE) as u64) > 0);
                    let tt = choose|tt: nat| tt < before.missing_tables(cur.virt) && pmm@ == alloc_times(pmb, tt);
                    assert(tt < missing_in(map_run(pm0, old(self).path_set(), m, jj).1, page_virt(m, jj as int))
                        && pmm@ == alloc_times(map_run(pm0, old(self).path_set(), m, jj).0, tt));
                }
                return Err(());
            }
            proof {
                assert(map_run(pm0, old(self).path_set(), m, (j + 1) as nat) == (alloc_times(pmb, before.missing_tables(cur.virt)), with_path_of(before.path_set(), cur.virt)));
                lemma_alloc_times_add(pm0, t, before.missing_tables(cur.virt));
                t = t + before.missing_tables(cur.virt);
                assert(map_pte(cur, cur.phys) == map_pte(m, (m.phys + j * PAGE_SIZE) as u64));
            }
            assert(cur.virt + 4096 <= u64::MAX) by (nonlinear_arith)
                requires cur.virt == m.virt + j * 4096, j < m.npages, m.virt + m.npages * 4096 <= u64::MAX;
            assert(cur.phys + 4096 <= u64::MAX) by (nonlinear_arith)
                requires cur.phys == m.phys + j * 4096, j < m.npages, m.phys + m.npages * 4096 <= u64::MAX;
            cur.virt = cur.virt + PAGE_SIZE as u64;
            cur.phys = cur.phys + PAGE_SIZE as u64;
            j = j + 1;
        }
        Ok(())
    }

    /// Whether every page of `m` would find the memory for the tables it misses (so that
    /// `map` succeeds), tried out on copies of the tables and the memory manager.
    pub fn room_for(&self, pmm: &Pmm, m: Mapping) -> (r: bool)
        requires
            self.wf(),
            pmm.wf(),
            pmm_sane(pmm@),
            self.frames_allocated(pmm@),
            m.virt + m.npages * PAGE_SIZE <= u64::MAX,
            m.phys + m.npages * PAGE_SIZE <= u64::MAX,
        ensures
            r == map_room(pmm@, self.path_set(), m, m.npages as nat),
    {
        let mut trial = self.duplicate();
        let mut trial_pmm = pmm.duplicate();
        trial.map(&mut trial_pmm, m).is_ok()
    }

    /// The value to load into CR3 to make these tables the active ones: the address of
    /// the root table.
    pub fn load(&self) -> (r: u64)
        requires
            self.wf(),
        ensures
            r == self.root(),
    {
        self.frames[0]
    }
}

/// The address of page `j` of request `m`.
pub open spec fn page_virt(m: Mapping, j: int) -> u64 {
    (m.virt + j * PAGE_SIZE) as u64
}

/// The memory manager's state and the tables that exist after the first `j` pages of
/// `m` are mapped, starting from the state `rs` and the tables at `paths`: each page
/// takes the tables it misses.
pub open spec fn map_run(rs: Seq<RegionView>, paths: Set<Seq<int>>, m: Mapping, j: nat) -> (Seq<RegionView>, Set<Seq<int>>)
    decreases j,
{
    if j == 0 {
        (rs, paths)
    } else {
        let prev = map_run(rs, paths, m, (j - 1) as nat);
        let v = page_virt(m, j - 1);
        (alloc_times(prev.0, missing_in(prev.1, v)), with_path_of(prev.1, v))
    }
}

/// Each of the first `j` pages of `m` finds the memory for the tables it misses.
pub open spec fn map_room(rs: Seq<RegionView>, paths: Set<Seq<int>>, m: Mapping, j: nat) -> bool
    decreases j,
{
    if j == 0 {
        true
    } else {
        let prev = map_run(rs, paths, m, (j - 1) as nat);
        &&& map_room(rs, paths, m, (j - 1) as nat)
        &&& can_alloc_times(prev.0, missing_in(prev.1, page_virt(m, j - 1)))
    }
}

/// Room for `b` pages is room for the first `a` of them.
pub proof fn lemma_map_room_prefix(rs: Seq<RegionView>, paths: Set<Seq<int>>, m: Mapping, a: nat, b: nat)
    requires
        a <= b,
        map_room(rs, paths, m, b),
    ensures
        map_room(rs, paths, m, a),
    decreases b,
{
    if a < b {
        lemma_map_room_prefix(rs, paths, m, a, (b - 1) as nat);
    }
}

/// The mappings after the first `j` pages of `m` are mapped, one after the other.
pub open spec fn map_pages(view: Map<(int, int, int, int), u64>, m: Mapping, j: nat) -> Map<(int, int, int, int), u64>
    decreases j,
{
    if j == 0 {
        view
    } else {
        map_pages(view, m, (j - 1) as nat).insert(
            key_of((m.virt + (j - 1) * PAGE_SIZE) as u64),
            map_pte(m, (m.phys + (j - 1) * PAGE_SIZE) as u64),
        )
    }
}

/// An address and the start of its page have the same table indices.
pub proof fn lemma_key_of_page(a: u64)
    ensures
        key_of((a - a % 4096) as u64) == key_of(a),
{
    let p = (a - a % 4096) as u64;
    assert(p == a & !0xFFFu64) by (bit_vector)
        requires p == (a - a % 4096) as u64;
    assert(((a & !0xFFFu64) >> 39u64) & 0x1FFu64 == (a >> 39u64) & 0x1FFu64
        && ((a & !0xFFFu64) >> 30u64) & 0x1FFu64 == (a >> 30u64) & 0x1FFu64
        && ((a & !0xFFFu64) >> 21u64) & 0x1FFu64 == (a >> 21u64) & 0x1FFu64
        && ((a & !0xFFFu64) >> 12u64) & 0x1FFu64 == (a >> 12u64) & 0x1FFu64) by (bit_vector);
}

/// Two addresses whose PML4, PDP and PD indices agree lie in the same page table, so the
/// same tables are missing for both.
pub proof fn lemma_missing_tables_same_table(pt: Paging, v1: u64, v2: u64)
    requires
        key_of(v1).0 == key_of(v2).0,
        key_of(v1).1 == key_of(v2).1,
        key_of(v1).2 == key_of(v2).2,
    ensures
        pt.missing_tables(v1) == pt.missing_tables(v2),
{
}

proof fn lemma_missing_le_3(pt: Paging, virt: u64)
    ensures
        pt.missing_tables(virt) <= 3,
{
}

pub proof fn lemma_alloc_times_add(rs: Seq<RegionView>, a: nat, b: nat)
    ensures
        alloc_times(alloc_times(rs, a), b) == alloc_times(rs, a + b),
    decreases a,
{
    if a > 0 {
        lemma_alloc_times_add(alloc_state(rs, 1), (a - 1) as nat, b);
        assert(alloc_times(rs, a + b) == alloc_times(alloc_state(rs, 1), (a + b - 1) as nat));
    }
}

/// One more allocation after `k` is the allocation from the state they leave.
pub proof fn lemma_alloc_times_step(rs: Seq<RegionView>, k: nat)
    ensures
        alloc_times(rs, k + 1) == alloc_state(alloc_times(rs, k), 1),
    decreases k,
{
    if k > 0 {
        lemma_alloc_times_step(alloc_state(rs, 1), (k - 1) as nat);
        assert(alloc_times(rs, k) == alloc_times(alloc_state(rs, 1), (k - 1) as nat));
        assert(alloc_times(rs, k + 1) == alloc_times(alloc_state(rs, 1), k));
    } else {
        assert(alloc_times(rs, 0) == rs);
        assert(alloc_times(alloc_state(rs, 1), 0) == alloc_state(rs, 1));
        assert(alloc_times(rs, 1) == alloc_times(alloc_state(rs, 1), 0));
    }
}

pub proof fn lemma_can_shift(rs: Seq<RegionView>, a: nat, n: nat)
    requires
        can_alloc_times(rs, a + n),
    ensures
        can_alloc_times(alloc_times(rs, a), n),
{
    assert forall|j: nat| j < n implies !pmm_full(#[trigger] alloc_times(alloc_times(rs, a), j)) by {
        lemma_alloc_times_add(rs, a, j);
        assert(!pmm_full(alloc_times(rs, a + j)));
    }
}

pub proof fn lemma_can_mono(rs: Seq<RegionView>, n: nat, m: nat)
    requires
        can_alloc_times(rs, n),
        m <= n,
    ensures
        can_alloc_times(rs, m),
{
}


/// Looking up an address after its page was mapped gives the page it was mapped to (the
/// address bits of the entry), with the entry present and carrying the mapping's
/// attributes (writable exactly when not read-only, no-execute exactly when asked, and
/// so on); every other page keeps what it had.
pub proof fn law_lookup_after_map(view: Map<(int, int, int, int), u64>, m: Mapping, other: u64)
    ensures
        map_pages(view, m, 1).contains_key(key_of(m.virt)),
        entry_addr(map_pages(view, m, 1)[key_of(m.virt)]) == m.phys & ADDR_MASK,
        present(map_pages(view, m, 1)[key_of(m.virt)]),
        writable(map_pages(view, m, 1)[key_of(m.virt)]) <==> !m.ro,
        no_execute(map_pages(view, m, 1)[key_of(m.virt)]) <==> m.nx,
        global_page(map_pages(view, m, 1)[key_of(m.virt)]) <==> m.global,
        cache_disabled(map_pages(view, m, 1)[key_of(m.virt)]) <==> m.pcd,
        key_of(other) != key_of(m.virt) ==> map_pages(view, m, 1).contains_key(key_of(other)) == view.contains_key(key_of(other)),
        key_of(other) != key_of(m.virt) && view.contains_key(key_of(other)) ==> map_pages(view, m, 1)[key_of(other)] == view[key_of(other)],
{
    assert((m.virt + 0 * PAGE_SIZE) as u64 == m.virt);
    assert((m.phys + 0 * PAGE_SIZE) as u64 == m.phys);
    assert(map_pages(view, m, 0) == view);
    lemma_pte_value(m.global, m.ro, m.nx, m.pcd, m.phys);
}


/// Two addresses fewer than 2^32 pages apart, and not the same page, have different keys.
proof fn lemma_keys_differ(a: u64, d: u64)
    requires
        0 < d < 0x1_0000_0000,
        a + d * 4096 <= u64::MAX,
    ensures
        key_of(a) != key_of((a + d * 4096) as u64),
{
    let b = (a + d * 4096) as u64;
    assert(((a >> 12u64) & 0xF_FFFF_FFFFu64) != ((b >> 12u64) & 0xF_FFFF_FFFFu64)) by (bit_vector)
        requires 0u64 < d < 0x1_0000_0000u64, a + d * 4096u64 <= 0xFFFF_FFFF_FFFF_FFFFu64, b == a + d * 4096u64;
    assert((((a >> 39u64) & 0x1FFu64) == ((b >> 39u64) & 0x1FFu64) && ((a >> 30u64) & 0x1FFu64) == ((b >> 30u64) & 0x1FFu64)
        && ((a >> 21u64) & 0x1FFu64) == ((b >> 21u64) & 0x1FFu64) && ((a >> 12u64) & 0x1FFu64) == ((b >> 12u64) & 0x1FFu64))
        ==> ((a >> 12u64) & 0xF_FFFF_FFFFu64) == ((b >> 12u64) & 0xF_FFFF_FFFFu64)) by (bit_vector);
}

/// After `n` pages are mapped from `m` (fewer than 2^32 of them, within the address
/// space), looking up the `j`-th gives back the `j`-th physical page, with the entry
/// present and writable, no-execute, global and uncached exactly as the mapping asks.
pub proof fn law_lookup_after_map_pages(view: Map<(int, int, int, int), u64>, m: Mapping, n: nat, j: int)
    requires
        0 <= j < n,
        n <= 0x1_0000_0000,
        m.virt + n * PAGE_SIZE <= u64::MAX,
        m.phys + n * PAGE_SIZE <= u64::MAX,
    ensures
        map_pages(view, m, n).contains_key(key_of((m.virt + j * PAGE_SIZE) as u64)),
        entry_addr(map_pages(view, m, n)[key_of((m.virt + j * PAGE_SIZE) as u64)]) == ((m.phys + j * PAGE_SIZE) as u64) & ADDR_MASK,
        present(map_pages(view, m, n)[key_of((m.virt + j * PAGE_SIZE) as u64)]),
        writable(map_pages(view, m, n)[key_of((m.virt + j * PAGE_SIZE) as u64)]) <==> !m.ro,
        no_execute(map_pages(view, m, n)[key_of((m.virt + j * PAGE_SIZE) as u64)]) <==> m.nx,
        global_page(map_pages(view, m, n)[key_of((m.virt + j * PAGE_SIZE) as u64)]) <==> m.global,
        cache_disabled(map_pages(view, m, n)[key_of((m.virt + j * PAGE_SIZE) as u64)]) <==> m.pcd,
    decreases n,
{
    let last = (n - 1) as nat;
    if j == last {
        lemma_pte_value(m.global, m.ro, m.nx, m.pcd, (m.phys + j * PAGE_SIZE) as u64);
    } else {
        law_lookup_after_map_pages(view, m, last, j);
        let a = (m.virt + j * PAGE_SIZE) as u64;
        let d = (last - j) as u64;
        assert(a + d * 4096 == m.virt + last * PAGE_SIZE);
        lemma_keys_differ(a, d);
    }
}

} // verus!
