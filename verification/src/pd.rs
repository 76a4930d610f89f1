//! The pointer directory: named addresses that tasks look up and register.
use vstd::prelude::*;
use vstd::string::StringSliceAdditionalSpecFns;
use crate::collections::{NameMap, name_map_view};
use crate::utils::utf8_str;
use crate::mem::paging::{
    Paging, Mapping, map_pages, map_pte, key_of, pmm_sane, can_alloc_times, alloc_times,
};
use crate::mem::pmm::{Pmm, RegionView, alloc_addr, alloc_state};
use crate::mem::PAGE_SIZE;

verus! {

/// The first page of the higher half holds the addresses of `get` and `set`.
pub const PD_START: u64 = crate::mem::HH;

/// The directory: a map from names to addresses.
pub struct PointerDirectory {
    pd: NameMap,
}

impl PointerDirectory {
    /// The registered names (as characters) and their addresses.
    pub closed spec fn view(&self) -> Map<Seq<char>, u64> {
        name_map_view(self.pd)
    }

    /// An empty directory.
    pub fn new() -> (r: PointerDirectory)
        ensures
            r@.dom().is_empty(),
    {
        PointerDirectory { pd: NameMap::new() }
    }

    /// The address registered under `name`, or 0.
    pub fn get2(&self, name: &String) -> (r: u64)
        ensures
            r == (if self@.contains_key(name@) { self@[name@] } else { 0 }),
    {
        match self.pd.get(name) {
            Some(k) => k,
            None => 0,
        }
    }

    /// Registers `ptr` under `name`, replacing what was there.
    pub fn set2(&mut self, name: &String, ptr: u64)
        ensures
            final(self)@ == old(self)@.insert(name@, ptr),
    {
        self.pd.insert(name.clone(), ptr);
    }

    /// Registers `ptr` under `name`.
    pub fn set3(&mut self, name: &str, ptr: u64)
        ensures
            final(self)@ == old(self)@.insert(name@, ptr),
    {
        let owned = name.to_owned();
        self.set2(&owned, ptr);
    }

    /// The address registered under the name whose UTF-8 bytes are `name`; 0 when the
    /// bytes are not UTF-8 or nothing is registered under it.
    pub fn get(&self, name: &[u8]) -> (r: u64)
        ensures
            !vstd::utf8::valid_utf8(name@) ==> r == 0,
            vstd::utf8::valid_utf8(name@) ==> {
                let key = vstd::utf8::decode_utf8(name@);
                r == (if self@.contains_key(key) { self@[key] } else { 0 })
            },
    {
        match utf8_str(name) {
            Ok(s) => {
                let owned = s.to_owned();
                proof {
                    vstd::utf8::decode_utf8_encode_utf8(name@);
                    vstd::utf8::encode_utf8_decode_utf8(s@);
                }
                self.get2(&owned)
            },
            Err(_) => 0,
        }
    }

    /// Registers `ptr` under the name whose UTF-8 bytes are `name`; does nothing when the
    /// bytes are not UTF-8.
    pub fn set(&mut self, name: &[u8], ptr: u64)
        ensures
            !vstd::utf8::valid_utf8(name@) ==> final(self)@ == old(self)@,
            vstd::utf8::valid_utf8(name@) ==> final(self)@ == old(self)@.insert(vstd::utf8::decode_utf8(name@), ptr),
    {
        match utf8_str(name) {
            Ok(s) => {
                let owned = s.to_owned();
                proof {
                    vstd::utf8::decode_utf8_encode_utf8(name@);
                    vstd::utf8::encode_utf8_decode_utf8(s@);
                }
                self.set2(&owned, ptr);
            },
            Err(_) => {},
        }
    }
}

/// Looking up a name gives back the address last registered under it, and registering
/// under one name leaves the others alone.
pub proof fn law_get_after_set(m: Map<Seq<char>, u64>, name: Seq<char>, ptr: u64, other: Seq<char>)
    requires
        other != name,
    ensures
        m.insert(name, ptr).contains_key(name),
        m.insert(name, ptr)[name] == ptr,
        m.insert(name, ptr).contains_key(other) == m.contains_key(other),
        m.contains_key(other) ==> m.insert(name, ptr)[other] == m[other],
{
}


/// Why the first page of the directory could not be set up.
#[derive(Clone, Copy, Debug, PartialEq, Eq, Structural)]
pub enum PdStartError {
    /// No page could be had for it.
    NoMemory,
    /// Its address is mapped already.
    AlreadyMapped,
    /// The page tables could not get memory.
    MapFailed,
}

/// The first page of the directory can be set up: a page is free, `PD_START` is not
/// mapped, and the page tables missing for it can be had after that page.
pub open spec fn pd_start_possible(pt: Paging, rs: Seq<RegionView>) -> bool {
    &&& alloc_addr(rs, 1) is Some
    &&& !pt@.contains_key(key_of(PD_START))
    &&& can_alloc_times(alloc_state(rs, 1), pt.missing_tables(PD_START))
}

/// Why the first page of the directory cannot be set up, if it cannot.
pub fn pd_start_refusal(pt: &Paging, pmm: &Pmm) -> (r: Option<PdStartError>)
    requires
        pt.wf(),
        pmm.wf(),
    ensures
        alloc_addr(pmm@, 1) is None ==> r == Some(PdStartError::NoMemory),
        alloc_addr(pmm@, 1) is Some && pt@.contains_key(key_of(PD_START)) ==> r == Some(PdStartError::AlreadyMapped),
        alloc_addr(pmm@, 1) is Some && !pt@.contains_key(key_of(PD_START))
            && !can_alloc_times(alloc_state(pmm@, 1), pt.missing_tables(PD_START)) ==> r == Some(PdStartError::MapFailed),
        r is None <==> pd_start_possible(*pt, pmm@),
{
    proof {
        crate::mem::paging::lemma_full_iff(pmm@);
    }
    if !pmm.can_alloc_pages_one_by_one(1) {
        proof {
            assert(crate::mem::paging::alloc_times(pmm@, 0) == pmm@);
        }
        return Some(PdStartError::NoMemory);
    }
    proof {
        assert(crate::mem::paging::alloc_times(pmm@, 0) == pmm@);
    }
    if pt.get_ptr(PD_START).is_some() {
        return Some(PdStartError::AlreadyMapped);
    }
    let need = pt.tables_missing(PD_START);
    let n: usize = need as usize + 1;
    let ok = pmm.can_alloc_pages_one_by_one(n);
    proof {
        assert(n as nat == need as nat + 1);
        crate::mem::paging::lemma_can_alloc_step(pmm@, need as nat);
    }
    if !ok {
        return Some(PdStartError::MapFailed);
    }
    None
}

/// Sets up the first page of the directory, which `pd_start_refusal` accepts: a fresh
/// page mapped at `PD_START`, with the page tables missing for it; gives back the page,
/// where the addresses of `get` and `set` are then stored.
pub fn map_pd_start(pt: &mut Paging, pmm: &mut Pmm) -> (r: u64)
    requires
        old(pt).wf(),
        old(pmm).wf(),
        pmm_sane(old(pmm)@),
        old(pt).frames_allocated(old(pmm)@),
        pd_start_possible(*old(pt), old(pmm)@),
    ensures
        final(pt).wf(),
        final(pmm).wf(),
        pmm_sane(final(pmm)@),
        final(pt).frames_allocated(final(pmm)@),
        r == alloc_addr(old(pmm)@, 1)->Some_0,
        final(pmm)@ == alloc_times(alloc_state(old(pmm)@, 1), old(pt).missing_tables(PD_START)),
        final(pt)@ == map_pages(old(pt)@, (Mapping { virt: PD_START, phys: r, npages: 1, global: false, ro: false, nx: false, pcd: false }), 1),
{
    let phys = match pmm.calloc(1) {
        Ok(p) => p,
        Err(_) => {
            return 0;
        },
    };
    proof {
        crate::mem::paging::lemma_sane_after_alloc(old(pmm)@, 1);
        crate::mem::pmm::law_alloc_hands_out_free_pages(old(pmm)@, 1);
        assert(crate::mem::pmm::allocated(crate::mem::pmm::alloc_state(old(pmm)@, 1), alloc_addr(old(pmm)@, 1)->Some_0 + 0 * 4096));
        crate::mem::paging::lemma_allocated_frame(pmm@, phys as int);
        pt.lemma_frames_allocated_grow(old(pmm)@, pmm@);
    }
    let m = Paging::newmap(PD_START, phys);
    proof {
        assert(map_pages(pt@, m, 1) == map_pages(pt@, m, 0).insert(
            key_of((m.virt + 0 * PAGE_SIZE) as u64), map_pte(m, (m.phys + 0 * PAGE_SIZE) as u64)));
        assert((m.virt + 0 * PAGE_SIZE) as u64 == m.virt);
        assert((m.phys + 0 * PAGE_SIZE) as u64 == m.phys);
    }
    let _ = pt.map_one(pmm, m);
    phys
}

} // verus!
