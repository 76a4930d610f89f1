//! Page-table entries of long-mode paging (AMD64 APM vol. 2, 5.3).
use vstd::prelude::*;
use crate::bits::{set_bit64, set_field64, get_bit64, get_field64, with_bit64, with_field64, field64, bit64};

verus! {

/// Entries per page-table page: 4096 bytes of 8-byte entries.
pub const EPP: usize = 512;

/// Bits 12..51 of an entry: the physical address it holds.
pub const ADDR_MASK: u64 = 0x000F_FFFF_FFFF_F000;

/// The present bit of an entry is set.
pub open spec fn present(e: u64) -> bool {
    e & 1u64 == 1u64
}

/// The physical address held by an entry (bits 12..51).
pub open spec fn entry_addr(e: u64) -> u64 {
    e & ADDR_MASK
}

/// A PML4 entry: present (0), rw (1), user (2), pwt (3), pcd (4), accessed (5),
/// ign0 (6), mbz (7..8), avl0 (9..11), ptr (12..51), avl1 (52..62), nx (63).
#[derive(Clone, Copy)]
pub struct PML4E(pub u64);

/// A PDP entry, also used for page-directory entries: present (0), rw (1), user (2),
/// pwt (3), pcd (4), accessed (5), ign0 (6), mbz (7), ign1 (8), avl0 (9..11),
/// ptr (12..51), avl1 (52..62), nx (63).
#[derive(Clone, Copy)]
pub struct PDPE(pub u64);

/// A page-table entry: present (0), rw (1), user (2), pwt (3), pcd (4), accessed (5),
/// dirty (6), pat (7), global (8), avl0 (9..11), ptr (12..51), avl1 (52..58),
/// avl2 (59..62), nx (63).
#[derive(Clone, Copy)]
pub struct PTE(pub u64);

impl PML4E {
    /// A present, writable, supervisor entry with every other field zero; the pointer
    /// is still to be set.
    pub fn new() -> (r: PML4E)
        ensures
            r.0 == 3,
    {
        let v: u64 = 0;
        let v0: u64 = set_bit64(v, 0, true); // present
        let v1: u64 = set_bit64(v0, 1, true); // rw
        let v2: u64 = set_bit64(v1, 2, false); // user
        let v3: u64 = set_bit64(v2, 3, false); // pwt
        let v4: u64 = set_bit64(v3, 4, false); // pcd
        let v5: u64 = set_bit64(v4, 5, false); // accessed
        let v6: u64 = set_bit64(v5, 6, false); // ign0
        let v7: u64 = set_field64(v6, 7, 2, 0); // mbz
        let v8: u64 = set_field64(v7, 9, 3, 0); // avl0
        let v9: u64 = set_field64(v8, 52, 11, 0); // avl1
        let v10: u64 = set_bit64(v9, 63, false); // nx
        assert(v10 == 3u64) by (bit_vector)
            requires v0 == with_bit64(0u64, 0, true), v1 == with_bit64(v0, 1, true), v2 == with_bit64(v1, 2, false), v3 == with_bit64(v2, 3, false), v4 == with_bit64(v3, 4, false), v5 == with_bit64(v4, 5, false), v6 == with_bit64(v5, 6, false), v7 == with_field64(v6, 7, 2, 0), v8 == with_field64(v7, 9, 3, 0), v9 == with_field64(v8, 52, 11, 0), v10 == with_bit64(v9, 63, false);
        PML4E(v10)
    }
}


impl PML4E {
    /// Whether the present bit is set.
    pub fn get_present(&self) -> (r: bool)
        ensures
            r == bit64(self.0, 0),
            r == present(self.0),
    {
        proof {
            lemma_present_bit(self.0);
        }
        get_bit64(self.0, 0)
    }

    /// Sets the present bit.
    pub fn set_present(&mut self, b: bool)
        ensures
            final(self).0 == with_bit64(old(self).0, 0, b),
    {
        self.0 = set_bit64(self.0, 0, b);
    }

    /// Sets the read/write bit.
    pub fn set_rw(&mut self, b: bool)
        ensures
            final(self).0 == with_bit64(old(self).0, 1, b),
    {
        self.0 = set_bit64(self.0, 1, b);
    }

    /// Sets the user/supervisor bit.
    pub fn set_user(&mut self, b: bool)
        ensures
            final(self).0 == with_bit64(old(self).0, 2, b),
    {
        self.0 = set_bit64(self.0, 2, b);
    }

    /// Sets the page-level cache-disable bit.
    pub fn set_pcd(&mut self, b: bool)
        ensures
            final(self).0 == with_bit64(old(self).0, 4, b),
    {
        self.0 = set_bit64(self.0, 4, b);
    }

    /// Sets the no-execute bit.
    pub fn set_nx(&mut self, b: bool)
        ensures
            final(self).0 == with_bit64(old(self).0, 63, b),
    {
        self.0 = set_bit64(self.0, 63, b);
    }

    /// The page number held in bits 12..51.
    pub fn get_ptr(&self) -> (r: u64)
        ensures
            r == field64(self.0, 12, 40),
            r << 12 == entry_addr(self.0),
    {
        proof {
            lemma_ptr_field(self.0);
        }
        get_field64(self.0, 12, 40)
    }

    /// Stores the low 40 bits of `p` as the page number (bits 12..51).
    pub fn set_ptr(&mut self, p: u64)
        ensures
            final(self).0 == with_field64(old(self).0, 12, 40, p),
    {
        self.0 = set_field64(self.0, 12, 40, p);
    }
}

impl PDPE {
    /// A present, writable, supervisor entry with every other field zero; the pointer
    /// is still to be set.
    pub fn new() -> (r: PDPE)
        ensures
            r.0 == 3,
    {
        let v: u64 = 0;
        let v0: u64 = set_bit64(v, 0, true); // present
        let v1: u64 = set_bit64(v0, 1, true); // rw
        let v2: u64 = set_bit64(v1, 2, false); // user
        let v3: u64 = set_bit64(v2, 3, false); // pwt
        let v4: u64 = set_bit64(v3, 4, false); // pcd
        let v5: u64 = set_bit64(v4, 5, false); // accessed
        let v6: u64 = set_bit64(v5, 6, false); // ign0
        let v7: u64 = set_bit64(v6, 7, false); // mbz
        let v8: u64 = set_bit64(v7, 8, false); // ign1
        let v9: u64 = set_field64(v8, 9, 3, 0); // avl0
        let v10: u64 = set_field64(v9, 52, 11, 0); // avl1
        let v11: u64 = set_bit64(v10, 63, false); // nx
        assert(v11 == 3u64) by (bit_vector)
            requires v0 == with_bit64(0u64, 0, true), v1 == with_bit64(v0, 1, true), v2 == with_bit64(v1, 2, false), v3 == with_bit64(v2, 3, false), v4 == with_bit64(v3, 4, false), v5 == with_bit64(v4, 5, false), v6 == with_bit64(v5, 6, false), v7 == with_bit64(v6, 7, false), v8 == with_bit64(v7, 8, false), v9 == with_field64(v8, 9, 3, 0), v10 == with_field64(v9, 52, 11, 0), v11 == with_bit64(v10, 63, false);
        PDPE(v11)
    }

    /// Whether the present bit is set.
    pub fn get_present(&self) -> (r: bool)
        ensures
            r == bit64(self.0, 0),
            r == present(self.0),
    {
        proof {
            lemma_present_bit(self.0);
        }
        get_bit64(self.0, 0)
    }

    /// Sets the present bit.
    pub fn set_present(&mut self, b: bool)
        ensures
            final(self).0 == with_bit64(old(self).0, 0, b),
    {
        self.0 = set_bit64(self.0, 0, b);
    }

    /// Sets the read/write bit.
    pub fn set_rw(&mut self, b: bool)
        ensures
            final(self).0 == with_bit64(old(self).0, 1, b),
    {
        self.0 = set_bit64(self.0, 1, b);
    }

    /// Sets the user/supervisor bit.
    pub fn set_user(&mut self, b: bool)
        ensures
            final(self).0 == with_bit64(old(self).0, 2, b),
    {
        self.0 = set_bit64(self.0, 2, b);
    }

    /// Sets the page-level cache-disable bit.
    pub fn set_pcd(&mut self, b: bool)
        ensures
            final(self).0 == with_bit64(old(self).0, 4, b),
    {
        self.0 = set_bit64(self.0, 4, b);
    }

    /// Sets the no-execute bit.
    pub fn set_nx(&mut self, b: bool)
        ensures
            final(self).0 == with_bit64(old(self).0, 63, b),
    {
        self.0 = set_bit64(self.0, 63, b);
    }

    /// The page number held in bits 12..51.
    pub fn get_ptr(&self) -> (r: u64)
        ensures
            r == field64(self.0, 12, 40),
            r << 12 == entry_addr(self.0),
    {
        proof {
            lemma_ptr_field(self.0);
        }
        get_field64(self.0, 12, 40)
    }

    /// Stores the low 40 bits of `p` as the page number (bits 12..51).
    pub fn set_ptr(&mut self, p: u64)
        ensures
            final(self).0 == with_field64(old(self).0, 12, 40, p),
    {
        self.0 = set_field64(self.0, 12, 40, p);
    }
}

/// Page-directory entries have the layout of PDP entries.
pub type PDE = PDPE;

impl PTE {
    /// A present, writable, supervisor, non-global entry with every other field zero;
    /// the pointer is still to be set.
    pub fn new() -> (r: PTE)
        ensures
            r.0 == 3,
    {
        let v: u64 = 0;
        let v0: u64 = set_bit64(v, 0, true); // present
        let v1: u64 = set_bit64(v0, 1, true); // rw
        let v2: u64 = set_bit64(v1, 2, false); // user
        let v3: u64 = set_bit64(v2, 3, false); // pwt
        let v4: u64 = set_bit64(v3, 4, false); // pcd
        let v5: u64 = set_bit64(v4, 5, false); // accessed
        let v6: u64 = set_bit64(v5, 6, false); // dirty
        let v7: u64 = set_bit64(v6, 7, false); // pat
        let v8: u64 = set_bit64(v7, 8, false); // global
        let v9: u64 = set_field64(v8, 9, 3, 0); // avl0
        let v10: u64 = set_field64(v9, 52, 7, 0); // avl1
        let v11: u64 = set_field64(v10, 59, 4, 0); // avl2
        let v12: u64 = set_bit64(v11, 63, false); // nx
        assert(v12 == 3u64) by (bit_vector)
            requires v0 == with_bit64(0u64, 0, true), v1 == with_bit64(v0, 1, true), v2 == with_bit64(v1, 2, false), v3 == with_bit64(v2, 3, false), v4 == with_bit64(v3, 4, false), v5 == with_bit64(v4, 5, false), v6 == with_bit64(v5, 6, false), v7 == with_bit64(v6, 7, false), v8 == with_bit64(v7, 8, false), v9 == with_field64(v8, 9, 3, 0), v10 == with_field64(v9, 52, 7, 0), v11 == with_field64(v10, 59, 4, 0), v12 == with_bit64(v11, 63, false);
        PTE(v12)
    }

    /// Sets the global bit.
    pub fn set_global(&mut self, b: bool)
        ensures
            final(self).0 == with_bit64(old(self).0, 8, b),
    {
        self.0 = set_bit64(self.0, 8, b);
    }

    /// Whether the present bit is set.
    pub fn get_present(&self) -> (r: bool)
        ensures
            r == bit64(self.0, 0),
            r == present(self.0),
    {
        proof {
            lemma_present_bit(self.0);
        }
        get_bit64(self.0, 0)
    }

    /// Sets the present bit.
    pub fn set_present(&mut self, b: bool)
        ensures
            final(self).0 == with_bit64(old(self).0, 0, b),
    {
        self.0 = set_bit64(self.0, 0, b);
    }

    /// Sets the read/write bit.
    pub fn set_rw(&mut self, b: bool)
        ensures
            final(self).0 == with_bit64(old(self).0, 1, b),
    {
        self.0 = set_bit64(self.0, 1, b);
    }

    /// Sets the user/supervisor bit.
    pub fn set_user(&mut self, b: bool)
        ensures
            final(self).0 == with_bit64(old(self).0, 2, b),
    {
        self.0 = set_bit64(self.0, 2, b);
    }

    /// Sets the page-level cache-disable bit.
    pub fn set_pcd(&mut self, b: bool)
        ensures
            final(self).0 == with_bit64(old(self).0, 4, b),
    {
        self.0 = set_bit64(self.0, 4, b);
    }

    /// Sets the no-execute bit.
    pub fn set_nx(&mut self, b: bool)
        ensures
            final(self).0 == with_bit64(old(self).0, 63, b),
    {
        self.0 = set_bit64(self.0, 63, b);
    }

    /// The page number held in bits 12..51.
    pub fn get_ptr(&self) -> (r: u64)
        ensures
            r == field64(self.0, 12, 40),
            r << 12 == entry_addr(self.0),
    {
        proof {
            lemma_ptr_field(self.0);
        }
        get_field64(self.0, 12, 40)
    }

    /// Stores the low 40 bits of `p` as the page number (bits 12..51).
    pub fn set_ptr(&mut self, p: u64)
        ensures
            final(self).0 == with_field64(old(self).0, 12, 40, p),
    {
        self.0 = set_field64(self.0, 12, 40, p);
    }
}

proof fn lemma_present_bit(e: u64)
    ensures
        bit64(e, 0) == present(e),
{
    assert(bit64(e, 0) == (e & 1u64 == 1u64)) by (bit_vector);
}

proof fn lemma_ptr_field(e: u64)
    ensures
        field64(e, 12, 40) << 12 == entry_addr(e),
{
    assert(field64(e, 12, 40) << 12u64 == e & 0x000F_FFFF_FFFF_F000u64) by (bit_vector);
}

/// An empty entry is not present.
pub proof fn lemma_zero_not_present()
    ensures
        !present(0u64),
{
    assert(!present(0u64)) by (bit_vector);
}

/// An address that a table or a page may start at: page-aligned and below 2^52.
pub open spec fn frame_addr(f: u64) -> bool {
    f % 4096 == 0 && f < 0x10_0000_0000_0000
}

/// The value of a directory entry that points to the table at `f`.
pub open spec fn dir_entry(f: u64) -> u64 {
    with_field64(3u64, 12, 40, f >> 12)
}

pub proof fn lemma_dir_entry(f: u64)
    requires
        frame_addr(f),
    ensures
        present(dir_entry(f)),
        entry_addr(dir_entry(f)) == f,
{
    assert(with_field64(3u64, 12, 40, f >> 12) & 1u64 == 1u64
        && with_field64(3u64, 12, 40, f >> 12) & 0x000F_FFFF_FFFF_F000u64 == f) by (bit_vector)
        requires f % 4096 == 0, f < 0x10_0000_0000_0000u64;
}

/// The page-table entry that maps a page at `phys` with the given attributes.
pub open spec fn pte_value(global: bool, ro: bool, nx: bool, pcd: bool, phys: u64) -> u64 {
    with_field64(with_bit64(with_bit64(with_bit64(with_bit64(3u64, 8, global), 1, !ro), 63, nx), 4, pcd), 12, 40, phys >> 12)
}

/// The entry lets the page be written (read/write, bit 1).
pub open spec fn writable(e: u64) -> bool {
    e & 2u64 == 2u64
}

/// The entry forbids instruction fetches from the page (execute-disable, bit 63).
pub open spec fn no_execute(e: u64) -> bool {
    e & 0x8000_0000_0000_0000u64 == 0x8000_0000_0000_0000u64
}

/// The entry marks the page global (bit 8).
pub open spec fn global_page(e: u64) -> bool {
    e & 0x100u64 == 0x100u64
}

/// The entry disables caching of the page (bit 4).
pub open spec fn cache_disabled(e: u64) -> bool {
    e & 0x10u64 == 0x10u64
}

/// The entry made for a page is present, points at the page, and carries each
/// attribute asked for: writable exactly when not read-only, no-execute exactly when
/// `nx`, global exactly when `global`, uncached exactly when `pcd`.
pub proof fn lemma_pte_value(global: bool, ro: bool, nx: bool, pcd: bool, phys: u64)
    ensures
        present(pte_value(global, ro, nx, pcd, phys)),
        entry_addr(pte_value(global, ro, nx, pcd, phys)) == phys & ADDR_MASK,
        writable(pte_value(global, ro, nx, pcd, phys)) <==> !ro,
        no_execute(pte_value(global, ro, nx, pcd, phys)) <==> nx,
        global_page(pte_value(global, ro, nx, pcd, phys)) <==> global,
        cache_disabled(pte_value(global, ro, nx, pcd, phys)) <==> pcd,
{
    let v = pte_value(global, ro, nx, pcd, phys);
    assert(v & 1u64 == 1u64 && v & 0x000F_FFFF_FFFF_F000u64 == phys & 0x000F_FFFF_FFFF_F000u64
        && (v & 2u64 == 2u64 <==> !ro)
        && (v & 0x8000_0000_0000_0000u64 == 0x8000_0000_0000_0000u64 <==> nx)
        && (v & 0x100u64 == 0x100u64 <==> global)
        && (v & 0x10u64 == 0x10u64 <==> pcd)) by (bit_vector)
        requires v == with_field64(with_bit64(with_bit64(with_bit64(with_bit64(3u64, 8, global), 1, !ro), 63, nx), 4, pcd), 12, 40, phys >> 12);
}

} // verus!
