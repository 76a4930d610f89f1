//! The global descriptor table: null, kernel code, kernel data, then one TSS per core.
use vstd::prelude::*;
use crate::bits::{set_bit64, set_field64, with_bit64, with_field64, set_field128, with_field128};

verus! {

/// Null, kernel code and kernel data.
pub const BASIC_ENTRIES: usize = 3;
/// Cores the kernel is ready for.
pub const MAX_CORES: usize = 32;
/// Room in the GDT: the basic entries and two slots per core for its TSS.
pub const MAX_ENTRIES: usize = 67;
/// Selector of the kernel code segment.
pub const KCODE: u16 = 0x08;

/// The raw value of a fresh code descriptor: present, long mode, the bits that must be
/// one set, all else zero.
pub const CODE_BASE: u64 = 0x0020_9800_0000_0000;
/// The raw value of the data descriptor: present, writable, the bit that must be one set.
pub const DATA_BASE: u64 = 0x0000_9200_0000_0000;

/// A long-mode code descriptor: lolimit (0..15), lobase (16..31), midbase (32..39),
/// ign0 (40..41), conforming (42), mbo0 (43), mbo1 (44), dpl (45..46), present (47),
/// hilimit (48..51), avl (52), long (53), d (54), g (55), hibase (56..63).
pub struct RealCodeGDTEntry(pub u64);

impl RealCodeGDTEntry {
    /// Present, long mode, must-be-one bits set; conforming, DPL and AVL still to be set.
    pub fn new() -> (r: RealCodeGDTEntry)
        ensures
            r.0 == CODE_BASE,
    {
        let v: u64 = 0;
        let v0 = set_field64(v, 0, 16, 0); // lolimit
        let v1 = set_field64(v0, 16, 16, 0); // lobase
        let v2 = set_field64(v1, 32, 8, 0); // midbase
        let v3 = set_field64(v2, 40, 2, 0); // ign0
        let v4 = set_bit64(v3, 43, true); // mbo0
        let v5 = set_bit64(v4, 44, true); // mbo1
        let v6 = set_bit64(v5, 47, true); // present
        let v7 = set_field64(v6, 48, 4, 0); // hilimit
        let v8 = set_bit64(v7, 53, true); // long
        let v9 = set_bit64(v8, 54, false); // d
        let v10 = set_bit64(v9, 55, false); // g
        let v11 = set_field64(v10, 56, 8, 0); // hibase
        assert(v11 == 0x0020_9800_0000_0000u64) by (bit_vector)
            requires v0 == with_field64(0u64, 0, 16, 0), v1 == with_field64(v0, 16, 16, 0), v2 == with_field64(v1, 32, 8, 0),
                v3 == with_field64(v2, 40, 2, 0), v4 == with_bit64(v3, 43, true), v5 == with_bit64(v4, 44, true),
                v6 == with_bit64(v5, 47, true), v7 == with_field64(v6, 48, 4, 0), v8 == with_bit64(v7, 53, true),
                v9 == with_bit64(v8, 54, false), v10 == with_bit64(v9, 55, false), v11 == with_field64(v10, 56, 8, 0);
        RealCodeGDTEntry(v11)
    }

    /// The raw descriptor.
    pub fn raw(&self) -> (r: u64)
        ensures
            r == self.0,
    {
        self.0
    }
}

/// What a code segment is: conforming or not, its privilege level, its AVL bit.
pub struct CodeGDTEntry {
    pub conforming: bool,
    pub dpl: u32,
    pub avl: bool,
}

/// The raw code descriptor for `e`.
pub open spec fn code_value(e: CodeGDTEntry) -> u64 {
    with_bit64(with_field64(with_bit64(CODE_BASE, 42, e.conforming), 45, 2, e.dpl as u64), 52, e.avl)
}

impl CodeGDTEntry {
    /// The descriptor: a fresh code descriptor with conforming, DPL (low two bits) and
    /// AVL set from `self`.
    pub fn to_real(&self) -> (r: RealCodeGDTEntry)
        ensures
            r.0 == code_value(*self),
    {
        let ret = RealCodeGDTEntry::new();
        let v0 = set_bit64(ret.0, 42, self.conforming);
        let v1 = set_field64(v0, 45, 2, self.dpl as u64);
        let v2 = set_bit64(v1, 52, self.avl);
        RealCodeGDTEntry(v2)
    }
}

/// A data descriptor: lolimit (0..15), lobase (16..31), midbase (32..39), accessed (40),
/// writable (41), expand-down (42), mbz0 (43), mbo0 (44), dpl (45..46), present (47),
/// hilimit (48..51), avl (52), bit 53, db (54), g (55), hibase (56..63).
pub struct RealDataGDTEntry(pub u64);

impl RealDataGDTEntry {
    /// Present, writable (loads into SS need it), the must-be-one bit set, all else zero.
    pub fn new() -> (r: RealDataGDTEntry)
        ensures
            r.0 == DATA_BASE,
    {
        let v: u64 = 0;
        let v0 = set_field64(v, 0, 16, 0); // lolimit
        let v1 = set_field64(v0, 16, 16, 0); // lobase
        let v2 = set_field64(v1, 32, 8, 0); // midbase
        let v3 = set_bit64(v2, 40, false); // accessed
        let v4 = set_bit64(v3, 41, true); // writable
        let v5 = set_bit64(v4, 42, false); // expand-down
        let v6 = set_bit64(v5, 43, false); // mbz0
        let v7 = set_bit64(v6, 44, true); // mbo0
        let v8 = set_field64(v7, 45, 2, 0); // dpl
        let v9 = set_bit64(v8, 47, true); // present
        let v10 = set_field64(v9, 48, 4, 0); // hilimit
        let v11 = set_bit64(v10, 52, false); // avl
        let v12 = set_bit64(v11, 53, false);
        let v13 = set_bit64(v12, 54, false); // db
        let v14 = set_bit64(v13, 55, false); // g
        let v15 = set_field64(v14, 56, 8, 0); // hibase
        assert(v15 == 0x0000_9200_0000_0000u64) by (bit_vector)
            requires v0 == with_field64(0u64, 0, 16, 0), v1 == with_field64(v0, 16, 16, 0), v2 == with_field64(v1, 32, 8, 0),
                v3 == with_bit64(v2, 40, false), v4 == with_bit64(v3, 41, true), v5 == with_bit64(v4, 42, false),
                v6 == with_bit64(v5, 43, false), v7 == with_bit64(v6, 44, true), v8 == with_field64(v7, 45, 2, 0),
                v9 == with_bit64(v8, 47, true), v10 == with_field64(v9, 48, 4, 0), v11 == with_bit64(v10, 52, false),
                v12 == with_bit64(v11, 53, false), v13 == with_bit64(v12, 54, false), v14 == with_bit64(v13, 55, false),
                v15 == with_field64(v14, 56, 8, 0);
        RealDataGDTEntry(v15)
    }

    /// The raw descriptor.
    pub fn raw(&self) -> (r: u64)
        ensures
            r == self.0,
    {
        self.0
    }
}

/// The (only) data segment.
pub struct DataGDTEntry {}

impl DataGDTEntry {
    /// The data descriptor.
    pub fn to_real(&self) -> (r: RealDataGDTEntry)
        ensures
            r.0 == DATA_BASE,
    {
        RealDataGDTEntry::new()
    }
}

/// TSS descriptor type: available 64-bit TSS.
pub const TSS_TYPE: u32 = 0x9;

/// The raw value of a fresh TSS descriptor: limit 104, type 9, present, base zero.
pub const TSS_BASE: u128 = 0x8900_0000_0068;

/// A 16-byte TSS descriptor: lolimit (0..15), lobase (16..31), midbase (32..39),
/// type (40..43), mbz0 (44), dpl (45..46), present (47), hilimit (48..51), avl (52),
/// bits 53..54, g (55), hibase (56..63), upper base (64..95), mbz1 (96..127).
pub struct RealTSSGDTEntry(pub u128);

impl RealTSSGDTEntry {
    /// Limit `TSS_SIZE`, type 9, present, every other field zero; the base is still to
    /// be set.
    pub fn new() -> (r: RealTSSGDTEntry)
        ensures
            r.0 == TSS_BASE,
    {
        let v: u128 = 0;
        let v0 = set_field128(v, 0, 16, crate::desc::tss::TSS_SIZE as u128); // lolimit
        let v1 = set_field128(v0, 40, 4, TSS_TYPE as u128); // type
        let v2 = set_field128(v1, 44, 1, 0); // mbz0
        let v3 = set_field128(v2, 45, 2, 0); // dpl
        let v4 = set_field128(v3, 47, 1, 1); // present
        let v5 = set_field128(v4, 48, 4, 0); // hilimit
        let v6 = set_field128(v5, 52, 1, 0); // avl
        let v7 = set_field128(v6, 53, 2, 0); // empty
        let v8 = set_field128(v7, 55, 1, 0); // g
        let v9 = set_field128(v8, 96, 32, 0); // mbz1
        assert(v9 == 0x8900_0000_0068u128) by (bit_vector)
            requires v0 == with_field128(0u128, 0, 16, 104), v1 == with_field128(v0, 40, 4, 9), v2 == with_field128(v1, 44, 1, 0),
                v3 == with_field128(v2, 45, 2, 0), v4 == with_field128(v3, 47, 1, 1), v5 == with_field128(v4, 48, 4, 0),
                v6 == with_field128(v5, 52, 1, 0), v7 == with_field128(v6, 53, 2, 0), v8 == with_field128(v7, 55, 1, 0),
                v9 == with_field128(v8, 96, 32, 0);
        RealTSSGDTEntry(v9)
    }

    /// The descriptor as its low and high 8 bytes.
    pub fn raw(&self) -> (r: (u64, u64))
        ensures
            r.0 == self.0 % 0x1_0000_0000_0000_0000,
            r.1 == self.0 / 0x1_0000_0000_0000_0000,
    {
        let v = self.0;
        assert((v as u64) as int == v % 0x1_0000_0000_0000_0000 && ((v >> 64u128) as u64) as int == v / 0x1_0000_0000_0000_0000) by (bit_vector);
        (v as u64, (v >> 64) as u64)
    }
}

/// The TSS whose descriptor is wanted: at address `ptr`.
pub struct TSSGDTEntry {
    pub ptr: u64,
}

/// The raw TSS descriptor for a TSS at `ptr`.
pub open spec fn tss_value(ptr: u64) -> u128 {
    with_field128(with_field128(with_field128(with_field128(TSS_BASE, 16, 16, (ptr & 0xFFFF) as u128), 32, 8, ((ptr >> 16) & 0xFF) as u128), 56, 8, ((ptr >> 24) & 0xFF) as u128), 64, 32, (ptr >> 32) as u128)
}

impl TSSGDTEntry {
    /// The descriptor: a fresh TSS descriptor with the base split over its four fields.
    pub fn to_real(&self) -> (r: RealTSSGDTEntry)
        ensures
            r.0 == tss_value(self.ptr),
    {
        let ret = RealTSSGDTEntry::new();
        let v0 = set_field128(ret.0, 16, 16, (self.ptr & 0xFFFF) as u128);
        let v1 = set_field128(v0, 32, 8, ((self.ptr >> 16) & 0xFF) as u128);
        let v2 = set_field128(v1, 56, 8, ((self.ptr >> 24) & 0xFF) as u128);
        let v3 = set_field128(v2, 64, 32, (self.ptr >> 32) as u128);
        RealTSSGDTEntry(v3)
    }
}

/// The base address of a TSS descriptor, put back together from its four fields.
pub open spec fn tss_base_of(d: u128) -> u128 {
    ((d >> 16) & 0xFFFF) | (((d >> 32) & 0xFF) << 16) | (((d >> 56) & 0xFF) << 24) | (((d >> 64) & 0xFFFF_FFFF) << 32)
}

/// A TSS descriptor holds the TSS's address, its limit (104), type 9 and the present bit.
pub proof fn law_tss_descriptor_holds_base(ptr: u64)
    ensures
        tss_base_of(tss_value(ptr)) == ptr as u128,
        tss_value(ptr) & 0xFFFF == 104,
        (tss_value(ptr) >> 40) & 0xF == 9,
        (tss_value(ptr) >> 47) & 1 == 1,
        tss_value(ptr) >> 96 == 0,
{
    let d = tss_value(ptr);
    assert(tss_base_of(d) == ptr as u128 && d & 0xFFFF == 104 && (d >> 40) & 0xF == 9 && (d >> 47) & 1 == 1 && d >> 96 == 0) by (bit_vector)
        requires d == with_field128(with_field128(with_field128(with_field128(0x8900_0000_0068u128, 16, 16, (ptr & 0xFFFF) as u128), 32, 8, ((ptr >> 16) & 0xFF) as u128), 56, 8, ((ptr >> 24) & 0xFF) as u128), 64, 32, (ptr >> 32) as u128);
}

/// The GDT: its entries, how many are in use, and the limit loaded with it.
pub struct Gdt {
    entries: Vec<u64>,
    used: usize,
    limit: u16,
}

impl Gdt {
    pub closed spec fn wf(&self) -> bool {
        &&& self.entries@.len() == MAX_ENTRIES
        &&& BASIC_ENTRIES <= self.used <= MAX_ENTRIES
        &&& self.limit == self.used * 8 - 1
    }

    /// The entries.
    pub closed spec fn view(&self) -> Seq<u64> {
        self.entries@
    }

    /// The entries in use.
    pub closed spec fn used(&self) -> nat {
        self.used as nat
    }

    /// Entry `i` of the table.
    pub fn entry(&self, i: usize) -> (r: u64)
        requires
            self.wf(),
            i < MAX_ENTRIES,
        ensures
            r == self@[i as int],
    {
        self.entries[i]
    }

    /// The limit (size in bytes minus one) to load with the table.
    pub fn limit(&self) -> (r: u16)
        requires
            self.wf(),
        ensures
            r == self.used() * 8 - 1,
    {
        self.limit
    }

    /// The table of the kernel: null, the kernel code segment (DPL 0, not conforming) and
    /// the data segment; room for the TSS descriptors after them.
    pub fn init() -> (r: Gdt)
        ensures
            r.wf(),
            r.used() == BASIC_ENTRIES,
            r@ == Seq::new(MAX_ENTRIES as nat, |i: int| 0u64).update(1, code_value(CodeGDTEntry { conforming: false, dpl: 0, avl: false })).update(2, DATA_BASE),
    {
        let mut entries: Vec<u64> = Vec::new();
        let mut i: usize = 0;
        while i < MAX_ENTRIES
            invariant
                i <= MAX_ENTRIES,
                entries@ == Seq::new(i as nat, |j: int| 0u64),
            decreases MAX_ENTRIES - i,
        {
            entries.push(0);
            i = i + 1;
            proof {
                assert(entries@ =~= Seq::new(i as nat, |j: int| 0u64));
            }
        }
        entries.set(1, CodeGDTEntry { conforming: false, dpl: 0, avl: false }.to_real().raw());
        entries.set(2, DataGDTEntry {}.to_real().raw());
        Gdt { entries, used: BASIC_ENTRIES, limit: (BASIC_ENTRIES as u16 * 8) - 1 }
    }

    /// Adds the descriptor of the TSS at `ptr` in the next two free slots, and gives back
    /// its selector.
    pub fn add_tss(&mut self, ptr: u64) -> (r: u16)
        requires
            old(self).wf(),
            old(self).used() + 2 <= MAX_ENTRIES,
        ensures
            final(self).wf(),
            final(self).used() == old(self).used() + 2,
            r == old(self).used() * 8,
            final(self)@ == old(self)@.update(old(self).used() as int, (tss_value(ptr) % 0x1_0000_0000_0000_0000) as u64)
                .update(old(self).used() as int + 1, (tss_value(ptr) / 0x1_0000_0000_0000_0000) as u64),
    {
        let id = self.used;
        self.used = self.used + 2;
        let entry = TSSGDTEntry { ptr };
        let (lo, hi) = entry.to_real().raw();
        self.entries.set(id, lo);
        self.entries.set(id + 1, hi);
        self.limit = (self.used as u16 * 8) - 1;
        (id * 8) as u16
    }
}

} // verus!
