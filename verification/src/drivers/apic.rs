//! The local APIC and the I/O APIC, and the MADT that describes them.
#![allow(non_camel_case_types)]
use vstd::prelude::*;
use crate::bytes::{read_u16, read_u32, le16, le32};
use crate::mem::paging::{Paging, Mapping, map_pages, map_pte, key_of, pmm_sane, can_alloc_times, alloc_times};
use crate::mem::pmm::Pmm;
use crate::mem::{page, PAGE_SIZE};

verus! {

/// MSR holding the local APIC base.
pub const BASE_MSR: u32 = 0x1B;
/// The enable bit of the local APIC base MSR.
pub const LAPIC_ENABLE: u64 = 0x800;
/// The only local APIC address the kernel accepts.
pub const ADDRESS: u64 = 0xFEE00000;
/// Offset of the end-of-interrupt register.
pub const EOI_OFFSET: u64 = 0xB0;
/// Offset of the spurious-interrupt vector register.
pub const SIVR_OFFSET: u64 = 0xF0;
/// Offset of the first record of the MADT.
pub const MADT_RECORDS_START: u64 = 0x2C;
/// I/O APIC register select.
pub const IOREGSEL: u64 = 0;
/// I/O APIC register window.
pub const IOWIN: u64 = 0x10;
/// Redirection entry: active low.
pub const LOW_POLARITY: u64 = 0x2000;
/// Redirection entry: level triggered.
pub const TRIGGER_MODE: u64 = 0x8000;
/// Redirection entry: masked.
pub const MASKED: u64 = 0x1_0000;
/// Redirection entry: shift of the destination APIC ID.
pub const LID_SHIFT: u64 = 56;

/// An I/O APIC record of the MADT.
#[derive(Clone, Copy, PartialEq, Eq, Debug)]
pub struct MADT_IOAPIC {
    pub id: u8,
    pub reserved: u8,
    pub address: u32,
    pub gsibase: u32,
}

/// An interrupt source override record of the MADT.
#[derive(Clone, Copy, PartialEq, Eq, Debug)]
pub struct MADT_ISO {
    pub bus: u8,
    pub irq: u8,
    pub gsi: u32,
    pub flags: u16,
}

/// What the MADT says: how many processors, the I/O APIC, the interrupt source overrides.
pub struct MadtInfo {
    pub ncores: usize,
    pub ioapic: Option<MADT_IOAPIC>,
    pub isos: Vec<MADT_ISO>,
}

/// The MADT as a specification walks it.
pub struct MadtSpec {
    pub ncores: nat,
    pub ioapic: Option<MADT_IOAPIC>,
    pub isos: Seq<MADT_ISO>,
}

/// What stops the walk of the MADT.
#[derive(Clone, Copy, PartialEq, Eq, Debug)]
pub enum MadtError {
    /// A record runs past the bytes of the table.
    Truncated,
    /// A record claims a length below 2.
    BadRecordLength,
    /// A second I/O APIC record, after one with a nonzero address.
    MultipleIoapics,
    /// The I/O APIC's first GSI is not 0.
    GsiBaseNotZero,
}

/// The I/O APIC record whose fields start at `off`.
pub open spec fn ioapic_at(b: Seq<u8>, off: int) -> MADT_IOAPIC {
    MADT_IOAPIC { id: b[off], reserved: b[off + 1], address: le32(b, off + 2) as u32, gsibase: le32(b, off + 6) as u32 }
}

/// The interrupt source override whose fields start at `off`.
pub open spec fn iso_at(b: Seq<u8>, off: int) -> MADT_ISO {
    MADT_ISO { bus: b[off], irq: b[off + 1], gsi: le32(b, off + 2) as u32, flags: le16(b, off + 6) as u16 }
}

/// One record at `off`: the offset of the next record and what is known after it.
pub open spec fn madt_step(b: Seq<u8>, off: int, st: MadtSpec) -> Result<(int, MadtSpec), MadtError> {
    if off + 2 > b.len() {
        Err(MadtError::Truncated)
    } else {
        let ty = b[off];
        let rl = b[off + 1];
        let f = off + 2;
        if rl < 2 {
            Err(MadtError::BadRecordLength)
        } else if ty == 0 {
            Ok((off + rl, MadtSpec { ncores: st.ncores + 1, ..st }))
        } else if ty == 1 {
            if st.ioapic matches Some(io) && io.address != 0 {
                Err(MadtError::MultipleIoapics)
            } else if f + 10 > b.len() {
                Err(MadtError::Truncated)
            } else if ioapic_at(b, f).gsibase != 0 {
                Err(MadtError::GsiBaseNotZero)
            } else {
                Ok((off + rl, MadtSpec { ioapic: Some(ioapic_at(b, f)), ..st }))
            }
        } else if ty == 2 {
            if f + 8 > b.len() {
                Err(MadtError::Truncated)
            } else {
                Ok((off + rl, MadtSpec { isos: st.isos.push(iso_at(b, f)), ..st }))
            }
        } else {
            Ok((off + rl, st))
        }
    }
}

/// The records from `off` up to `len`, in order.
pub open spec fn madt_walk(b: Seq<u8>, off: int, len: int, st: MadtSpec) -> Result<MadtSpec, MadtError>
    decreases len - off,
{
    if off >= len {
        Ok(st)
    } else {
        match madt_step(b, off, st) {
            Err(e) => Err(e),
            Ok((next, st2)) => if off < next < len { madt_walk(b, next, len, st2) } else { Ok(st2) },
        }
    }
}

/// The MADT's records, from the first one to `length` (the table's length).
pub open spec fn madt_spec(b: Seq<u8>, length: int) -> Result<MadtSpec, MadtError> {
    madt_walk(b, MADT_RECORDS_START as int, length, MadtSpec { ncores: 0, ioapic: None, isos: Seq::empty() })
}

impl MadtInfo {
    pub open spec fn view(&self) -> MadtSpec {
        MadtSpec { ncores: self.ncores as nat, ioapic: self.ioapic, isos: self.isos@ }
    }
}

/// The walk of the MADT stops at a second I/O APIC or at one whose first GSI is not 0,
/// which the kernel does not support.
pub open spec fn madt_unsupported(b: Seq<u8>, length: int) -> bool {
    ||| madt_spec(b, length) == Err::<MadtSpec, MadtError>(MadtError::MultipleIoapics)
    ||| madt_spec(b, length) == Err::<MadtSpec, MadtError>(MadtError::GsiBaseNotZero)
}

/// What stops the walk of the MADT in `b`, whose length is `length`, if anything.
pub fn madt_error(b: &[u8], length: u32) -> (r: Option<MadtError>)
    ensures
        match madt_spec(b@, length as int) {
            Ok(_) => r is None,
            Err(e) => r == Some(e),
        },
{
    match walk_madt(b, length) {
        Ok(_) => None,
        Err(e) => Some(e),
    }
}

/// Walks the records of the MADT in `b`, whose length is `length`: counts the processor
/// records, keeps the I/O APIC record and the interrupt source overrides. A record that
/// runs past the bytes, or claims a length below 2, stops the walk with an error.
pub fn parse_madt(b: &[u8], length: u32) -> (r: Result<MadtInfo, MadtError>)
    requires
        !madt_unsupported(b@, length as int),
    ensures
        match madt_spec(b@, length as int) {
            Ok(st) => r is Ok && r->Ok_0@ == st,
            Err(e) => r == Err::<MadtInfo, MadtError>(e),
        },
        r is Err ==> r->Err_0 == MadtError::Truncated || r->Err_0 == MadtError::BadRecordLength,
{
    walk_madt(b, length)
}

/// The walk that `parse_madt` makes.
fn walk_madt(b: &[u8], length: u32) -> (r: Result<MadtInfo, MadtError>)
    ensures
        match madt_spec(b@, length as int) {
            Ok(st) => r is Ok && r->Ok_0@ == st,
            Err(e) => r == Err::<MadtInfo, MadtError>(e),
        },
{
    let len = length as u64;
    let n = b.len();
    let mut off: u64 = MADT_RECORDS_START;
    let mut info = MadtInfo { ncores: 0, ioapic: None, isos: Vec::new() };
    while off < len
        invariant
            n == b@.len(),
            len == length,
            MADT_RECORDS_START <= off,
            info.ncores <= off,
            madt_spec(b@, length as int) == madt_walk(b@, off as int, len as int, info@),
        decreases len - off,
    {
        if off + 2 > n as u64 {
            return Err(MadtError::Truncated);
        }
        let entry_type = b[off as usize];
        let record_length = b[off as usize + 1];
        let f = off as usize + 2;
        let ghost st = info@;
        if record_length < 2 {
            return Err(MadtError::BadRecordLength);
        }
        if entry_type == 0 {
            info.ncores = info.ncores + 1;
        } else if entry_type == 1 {
            let multiple = match info.ioapic {
                Some(io) => io.address != 0,
                None => false,
            };
            if multiple {
                return Err(MadtError::MultipleIoapics);
            }
            if n - f < 10 {
                return Err(MadtError::Truncated);
            }
            let io = MADT_IOAPIC { id: b[f], reserved: b[f + 1], address: read_u32(b, f + 2), gsibase: read_u32(b, f + 6) };
            if io.gsibase != 0 {
                return Err(MadtError::GsiBaseNotZero);
            }
            info.ioapic = Some(io);
        } else if entry_type == 2 {
            if n - f < 8 {
                return Err(MadtError::Truncated);
            }
            let iso = MADT_ISO { bus: b[f], irq: b[f + 1], gsi: read_u32(b, f + 2), flags: read_u16(b, f + 6) };
            info.isos.push(iso);
        }
        proof {
            assert(info@ == madt_step(b@, off as int, st)->Ok_0.1);
        }
        let next = off + record_length as u64;
        if next >= len {
            return Ok(info);
        }
        off = next;
    }
    Ok(info)
}

/// The first override in `isos` for `irq`, if any.
pub open spec fn first_iso(isos: Seq<MADT_ISO>, irq: u8) -> Option<int> {
    if exists|i: int| 0 <= i < isos.len() && isos[i].irq == irq {
        Some(choose|i: int| 0 <= i < isos.len() && isos[i].irq == irq && forall|j: int| 0 <= j < i ==> isos[j].irq != irq)
    } else {
        None
    }
}

/// The GSI of `irq`, and whether it is active low and level triggered: what the first
/// override for it says, else the same number, active low, level triggered.
pub fn irq2gsi(isos: &Vec<MADT_ISO>, irq: u8) -> (r: (u32, bool, bool))
    ensures
        forall|i: int| 0 <= i < isos@.len() && isos@[i].irq == irq && (forall|j: int| 0 <= j < i ==> isos@[j].irq != irq)
            ==> r == (isos@[i].gsi, isos@[i].flags & 2 != 0, isos@[i].flags & 8 != 0),
        (forall|i: int| 0 <= i < isos@.len() ==> isos@[i].irq != irq) ==> r == (irq as u32, true, true),
{
    let n = isos.len();
    let mut i: usize = 0;
    while i < n
        invariant
            n == isos@.len(),
            i <= n,
            forall|j: int| 0 <= j < i ==> isos@[j].irq != irq,
        decreases n - i,
    {
        let iso = isos[i];
        if iso.irq == irq {
            return (iso.gsi, iso.flags & 2 != 0, iso.flags & 8 != 0);
        }
        i = i + 1;
    }
    (irq as u32, true, true)
}

/// The redirection entry for vector `vec` on APIC `lapic_id`, masked, with the polarity
/// and trigger mode given.
pub open spec fn redirection_entry(lapic_id: u32, vec: u8, low: bool, level: bool) -> u64 {
    (vec as u64) | (MASKED | (if low { LOW_POLARITY } else { 0 }) | (if level { TRIGGER_MODE } else { 0 })) | ((lapic_id as u64) << LID_SHIFT)
}

/// The GSI and the redirection entry that route `irq` to vector `vec` of the APIC
/// `lapic_id`, masked at first.
pub fn set_irq_redirection(isos: &Vec<MADT_ISO>, lapic_id: u32, vec: u8, irq: u8) -> (r: (u32, u64))
    ensures
        ({
            let g = irq2gsi_spec(isos@, irq);
            r == (g.0, redirection_entry(lapic_id, vec, g.1, g.2))
        }),
{
    let (gsi, low, level) = irq2gsi(isos, irq);
    proof {
        lemma_irq2gsi_spec(isos@, irq);
    }
    let mut flags: u64 = MASKED;
    if low {
        flags = flags | LOW_POLARITY;
    }
    if level {
        flags = flags | TRIGGER_MODE;
    }
    let entry: u64 = (vec as u64) | flags | ((lapic_id as u64) << LID_SHIFT);
    proof {
        assert(MASKED | 0 == MASKED) by (bit_vector);
        assert((MASKED | LOW_POLARITY) | 0 == MASKED | LOW_POLARITY) by (bit_vector);
    }
    (gsi, entry)
}

/// What `irq2gsi` gives for `irq`.
pub open spec fn irq2gsi_spec(isos: Seq<MADT_ISO>, irq: u8) -> (u32, bool, bool) {
    match first_iso(isos, irq) {
        Some(i) => (isos[i].gsi, isos[i].flags & 2 != 0, isos[i].flags & 8 != 0),
        None => (irq as u32, true, true),
    }
}

proof fn lemma_irq2gsi_spec(isos: Seq<MADT_ISO>, irq: u8)
    ensures
        first_iso(isos, irq) matches Some(i) ==> 0 <= i < isos.len() && isos[i].irq == irq && forall|j: int| 0 <= j < i ==> isos[j].irq != irq,
        first_iso(isos, irq) is None ==> forall|i: int| 0 <= i < isos.len() ==> isos[i].irq != irq,
{
    if exists|i: int| 0 <= i < isos.len() && isos[i].irq == irq {
        let w = choose|i: int| 0 <= i < isos.len() && isos[i].irq == irq;
        lemma_first_exists(isos, irq, w);
    }
}

proof fn lemma_first_exists(isos: Seq<MADT_ISO>, irq: u8, w: int)
    requires
        0 <= w < isos.len(),
        isos[w].irq == irq,
    ensures
        exists|i: int| 0 <= i < isos.len() && isos[i].irq == irq && forall|j: int| 0 <= j < i ==> isos[j].irq != irq,
    decreases w,
{
    if exists|j: int| 0 <= j < w && isos[j].irq == irq {
        let j = choose|j: int| 0 <= j < w && isos[j].irq == irq;
        lemma_first_exists(isos, irq, j);
    } else {
        assert(isos[w].irq == irq && forall|j: int| 0 <= j < w ==> isos[j].irq != irq);
    }
}

/// The I/O APIC register that holds the low half of the redirection entry of `gsi`.
pub fn redirection_reg(gsi: u32, gsibase: u32) -> (r: u8)
    requires
        gsibase <= gsi,
        (gsi - gsibase) * 2 + 16 <= u32::MAX,
    ensures
        r == ((gsi - gsibase) * 2 + 16) % 256,
{
    let x: u32 = (gsi - gsibase) * 2 + 16;
    assert((x as u8) as int == x % 256) by (bit_vector);
    x as u8
}

/// The register writes that store `val` as the redirection entry of `gsi`: its low half
/// in the entry's register, its high half in the next.
pub fn write_redirection(gsi: u32, gsibase: u32, val: u64) -> (r: Vec<(u8, u32)>)
    requires
        gsibase <= gsi,
        (gsi - gsibase) * 2 + 16 <= 254,
    ensures
        r@ == seq![
            (((gsi - gsibase) * 2 + 16) as u8, (val % 0x1_0000_0000) as u32),
            (((gsi - gsibase) * 2 + 17) as u8, (val / 0x1_0000_0000) as u32),
        ],
{
    let reg = redirection_reg(gsi, gsibase);
    let mut r: Vec<(u8, u32)> = Vec::new();
    r.push((reg, val as u32));
    r.push((reg + 1, (val >> 32) as u32));
    proof {
        assert((val as u32) as int == val % 0x1_0000_0000 && ((val >> 32u64) as u32) as int == val / 0x1_0000_0000) by (bit_vector);
        assert(r@ =~= seq![
            (((gsi - gsibase) * 2 + 16) as u8, (val % 0x1_0000_0000) as u32),
            (((gsi - gsibase) * 2 + 17) as u8, (val / 0x1_0000_0000) as u32),
        ]);
    }
    r
}

/// The redirection entry read back as its low and high halves.
pub fn read_redirection(lo: u32, hi: u32) -> (r: u64)
    ensures
        r == lo + hi * 0x1_0000_0000,
{
    let r = (lo as u64) | ((hi as u64) << 32);
    assert((lo as u64) | ((hi as u64) << 32u64) == (lo as u64) + (hi as u64) * 0x1_0000_0000u64) by (bit_vector);
    r
}

/// A redirection entry with its mask bit cleared.
pub fn unmask(entry: u64) -> (r: u64)
    ensures
        r == entry & !MASKED,
{
    entry & !MASKED
}

/// The port writes that mask every line of both legacy PICs, made only the first time.
pub fn disable_pic(disabled: &mut bool) -> (r: Vec<(u16, u8)>)
    ensures
        *final(disabled),
        *old(disabled) ==> r@.len() == 0,
        !*old(disabled) ==> r@ == seq![(0xA1u16, 0xFFu8), (0x21u16, 0xFFu8)],
{
    let mut r: Vec<(u16, u8)> = Vec::new();
    if !*disabled {
        r.push((0xA1, 0xFF));
        r.push((0x21, 0xFF));
        *disabled = true;
        proof {
            assert(r@ =~= seq![(0xA1u16, 0xFFu8), (0x21u16, 0xFFu8)]);
        }
    }
    r
}

/// Whether the processor has a local APIC: bit 9 of EDX of CPUID leaf 1.
pub fn is_supported(edx: u32) -> (r: bool)
    ensures
        r == ((edx >> 9) & 1 == 1),
{
    (edx >> 9) & 1 == 1
}

/// The local APIC base MSR with the enable bit set.
pub fn lapic_base(msr: u64) -> (r: u64)
    ensures
        r == msr | LAPIC_ENABLE,
{
    msr | LAPIC_ENABLE
}

/// The spurious-interrupt vector register with bit 8 (APIC software enable) set.
pub fn sivr_enabled(sivr: u32) -> (r: u32)
    ensures
        r == sivr | 0x100,
{
    sivr | 0x100
}


/// Why the local APIC could not be enabled.
#[derive(Clone, Copy, Debug, PartialEq, Eq, Structural)]
pub enum LapicError {
    /// The base MSR points somewhere other than the one address the kernel accepts.
    WeirdAddress,
    /// The address is mapped already, by someone else.
    AddressInUse,
    /// The page tables could not get memory.
    OutOfMemory,
}

/// The mapping of the local APIC's registers: identity, not executable.
pub open spec fn lapic_mapping() -> Mapping {
    Mapping { virt: ADDRESS, phys: ADDRESS, npages: 1, global: false, ro: false, nx: true, pcd: false }
}

/// The base MSR `msr` points at `ADDRESS` (once the enable bit is set).
pub open spec fn lapic_at_address(msr: u64) -> bool {
    (msr | LAPIC_ENABLE) - (msr | LAPIC_ENABLE) % 4096 == ADDRESS
}

/// Why the kernel refuses to enable the local APIC whose base MSR reads `msr`, if it does:
/// the base must point at `ADDRESS`, which must not be mapped unless this kernel mapped it
/// (`mapped`), and the page tables missing for `ADDRESS` must be possible to allocate.
pub fn lapic_refusal(pt: &Paging, pmm: &Pmm, msr: u64, mapped: bool) -> (r: Option<LapicError>)
    requires
        pt.wf(),
        pmm.wf(),
    ensures
        !lapic_at_address(msr) ==> r == Some(LapicError::WeirdAddress),
        lapic_at_address(msr) && !mapped && pt@.contains_key(key_of(ADDRESS)) ==> r == Some(LapicError::AddressInUse),
        lapic_at_address(msr) && (mapped || !pt@.contains_key(key_of(ADDRESS)))
            && !can_alloc_times(pmm@, pt.missing_tables(ADDRESS)) ==> r == Some(LapicError::OutOfMemory),
        lapic_at_address(msr) && (mapped || !pt@.contains_key(key_of(ADDRESS)))
            && can_alloc_times(pmm@, pt.missing_tables(ADDRESS)) ==> r is None,
{
    let address = page(lapic_base(msr));
    if address != ADDRESS {
        return Some(LapicError::WeirdAddress);
    }
    if !mapped && pt.get_ptr(address).is_some() {
        return Some(LapicError::AddressInUse);
    }
    let need = pt.tables_missing(ADDRESS);
    if !pmm.can_alloc_pages_one_by_one(need as usize) {
        return Some(LapicError::OutOfMemory);
    }
    None
}

/// Enables the local APIC whose base MSR reads `msr`, which `lapic_refusal` accepts: its
/// registers are mapped at `ADDRESS`, with the page tables missing for it, and `mapped`
/// is set. Gives back the value to write to the base MSR.
pub fn enable_lapic(pt: &mut Paging, pmm: &mut Pmm, msr: u64, mapped: &mut bool) -> (r: u64)
    requires
        old(pt).wf(),
        old(pmm).wf(),
        pmm_sane(old(pmm)@),
        old(pt).frames_allocated(old(pmm)@),
        lapic_at_address(msr),
        *old(mapped) || !old(pt)@.contains_key(key_of(ADDRESS)),
        can_alloc_times(old(pmm)@, old(pt).missing_tables(ADDRESS)),
    ensures
        final(pt).wf(),
        final(pmm).wf(),
        pmm_sane(final(pmm)@),
        final(pt).frames_allocated(final(pmm)@),
        r == msr | LAPIC_ENABLE,
        *final(mapped),
        final(pt)@ == map_pages(old(pt)@, lapic_mapping(), 1),
        final(pmm)@ == alloc_times(old(pmm)@, old(pt).missing_tables(ADDRESS)),
{
    let base = lapic_base(msr);
    let address = page(base);
    let mut m = Paging::newmap(address, address);
    m.nx = true;
    proof {
        assert(map_pages(pt@, m, 1) == map_pages(pt@, m, 0).insert(
            key_of((m.virt + 0 * PAGE_SIZE) as u64), map_pte(m, (m.phys + 0 * PAGE_SIZE) as u64)));
        assert((m.virt + 0 * PAGE_SIZE) as u64 == m.virt);
        assert((m.phys + 0 * PAGE_SIZE) as u64 == m.phys);
    }
    let _ = pt.map_one(pmm, m);
    *mapped = true;
    base
}

} // verus!
