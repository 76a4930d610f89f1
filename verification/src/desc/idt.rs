//! The interrupt descriptor table, and the table of wrapped interrupt handlers.
use vstd::prelude::*;
use crate::bits::{set_field128, with_field128};
use crate::desc::gdt::KCODE;

verus! {

/// Entries of the IDT, fixed by the architecture.
pub const IDT_ENTRIES: usize = 256;
/// Invalid opcode.
pub const EXCEPTION_UD: usize = 0x6;
/// General protection.
pub const EXCEPTION_GP: usize = 0xD;
/// Page fault.
pub const EXCEPTION_PF: usize = 0xE;

/// The raw value of a fresh gate: interrupt gate (type 0xE), present, all else zero.
pub const GATE_BASE: u128 = 0x8E00_0000_0000;

/// A 16-byte gate descriptor: loaddr (0..15), segment (16..31), ist (32..34),
/// res0 (35..39), type (40..43), mbz (44), dpl (45..46), present (47), midaddr (48..63),
/// hiaddr (64..95), res1 (96..127).
#[derive(Clone, Copy)]
pub struct RealGate(pub u128);

/// `g` with its handler address split over its three address fields.
pub open spec fn with_addr(g: u128, addr: u64) -> u128 {
    with_field128(with_field128(with_field128(g, 0, 16, (addr & 0xFFFF) as u128), 48, 16, ((addr >> 16) & 0xFFFF) as u128), 64, 32, ((addr >> 32) & 0xFFFF_FFFF) as u128)
}

impl RealGate {
    /// An interrupt gate, present, with the reserved fields zero; address, selector,
    /// IST and DPL still to be set.
    pub fn new() -> (r: RealGate)
        ensures
            r.0 == GATE_BASE,
    {
        let v: u128 = 0;
        let v0 = set_field128(v, 35, 5, 0); // res0
        let v1 = set_field128(v0, 40, 4, 0xE); // type
        let v2 = set_field128(v1, 44, 1, 0); // mbz
        let v3 = set_field128(v2, 47, 1, 1); // present
        let v4 = set_field128(v3, 96, 32, 0); // res1
        assert(v4 == 0x8E00_0000_0000u128) by (bit_vector)
            requires v0 == with_field128(0u128, 35, 5, 0), v1 == with_field128(v0, 40, 4, 0xE), v2 == with_field128(v1, 44, 1, 0),
                v3 == with_field128(v2, 47, 1, 1), v4 == with_field128(v3, 96, 32, 0);
        RealGate(v4)
    }

    /// Sets the handler address.
    pub fn set_wholeaddr(&mut self, addr: u64)
        ensures
            final(self).0 == with_addr(old(self).0, addr),
    {
        let v0 = set_field128(self.0, 0, 16, (addr & 0xFFFF) as u128);
        let v1 = set_field128(v0, 48, 16, ((addr >> 16) & 0xFFFF) as u128);
        let v2 = set_field128(v1, 64, 32, ((addr >> 32) & 0xFFFFFFFF) as u128);
        self.0 = v2;
    }

    /// The raw descriptor.
    pub fn raw(&self) -> (r: u128)
        ensures
            r == self.0,
    {
        self.0
    }
}

/// A handler: its address and the IST stack it runs on (0: none).
pub struct Gate {
    pub addr: u64,
    pub ist: u32,
}

/// The raw gate for a handler at `addr` on IST `ist`: kernel code selector, DPL 0.
pub open spec fn gate_value(addr: u64, ist: u32) -> u128 {
    with_field128(with_field128(with_field128(with_addr(GATE_BASE, addr), 16, 16, KCODE as u128), 32, 3, ist as u128), 45, 2, 0)
}

impl Gate {
    /// The descriptor of this handler.
    pub fn to_real(&self) -> (r: RealGate)
        ensures
            r.0 == gate_value(self.addr, self.ist),
    {
        let mut ret = RealGate::new();
        ret.set_wholeaddr(self.addr);
        let v0 = set_field128(ret.0, 16, 16, KCODE as u128);
        let v1 = set_field128(v0, 32, 3, self.ist as u128);
        let v2 = set_field128(v1, 45, 2, 0);
        RealGate(v2)
    }
}

/// The handler address of a gate, put back together from its three fields.
pub open spec fn gate_addr_of(g: u128) -> u128 {
    (g & 0xFFFF) | (((g >> 48) & 0xFFFF) << 16) | (((g >> 64) & 0xFFFF_FFFF) << 32)
}

/// A gate holds its handler's address, the kernel code selector, the low three bits of
/// its IST, DPL 0, type 0xE and the present bit.
pub proof fn law_gate_holds_handler(addr: u64, ist: u32)
    ensures
        gate_addr_of(gate_value(addr, ist)) == addr as u128,
        (gate_value(addr, ist) >> 16) & 0xFFFF == KCODE as u128,
        (gate_value(addr, ist) >> 32) & 0x7 == (ist as u128) & 0x7,
        (gate_value(addr, ist) >> 40) & 0xF == 0xE,
        (gate_value(addr, ist) >> 45) & 0x3 == 0,
        (gate_value(addr, ist) >> 47) & 1 == 1,
{
    let g = gate_value(addr, ist);
    assert(gate_addr_of(g) == addr as u128 && (g >> 16) & 0xFFFF == 8 && (g >> 32) & 0x7 == (ist as u128) & 0x7
        && (g >> 40) & 0xF == 0xE && (g >> 45) & 0x3 == 0 && (g >> 47) & 1 == 1) by (bit_vector)
        requires g == with_field128(with_field128(with_field128(with_field128(with_field128(with_field128(0x8E00_0000_0000u128, 0, 16, (addr & 0xFFFF) as u128), 48, 16, ((addr >> 16) & 0xFFFF) as u128), 64, 32, ((addr >> 32) & 0xFFFF_FFFF) as u128), 16, 16, 8u128), 32, 3, ist as u128), 45, 2, 0);
}

/// The IDT: each vector's gate as its low and high 8 bytes.
pub struct Idt {
    vec: Vec<(u64, u64)>,
}

impl Idt {
    pub closed spec fn wf(&self) -> bool {
        self.vec@.len() == IDT_ENTRIES
    }

    /// The gates, as (low, high) halves, indexed by vector.
    pub closed spec fn view(&self) -> Seq<(u64, u64)> {
        self.vec@
    }

    /// A table of empty gates.
    pub fn empty() -> (r: Idt)
        ensures
            r.wf(),
            r@ == Seq::new(IDT_ENTRIES as nat, |i: int| (0u64, 0u64)),
    {
        let mut vec: Vec<(u64, u64)> = Vec::new();
        let mut i: usize = 0;
        while i < IDT_ENTRIES
            invariant
                i <= IDT_ENTRIES,
                vec@ == Seq::new(i as nat, |j: int| (0u64, 0u64)),
            decreases IDT_ENTRIES - i,
        {
            vec.push((0, 0));
            i = i + 1;
            proof {
                assert(vec@ =~= Seq::new(i as nat, |j: int| (0u64, 0u64)));
            }
        }
        Idt { vec }
    }

    /// Gate `v`.
    pub fn gate(&self, v: usize) -> (r: (u64, u64))
        requires
            self.wf(),
            v < IDT_ENTRIES,
        ensures
            r == self@[v as int],
    {
        self.vec[v]
    }

    /// Points vector `v` to the handler at `addr`, on IST `ist`.
    pub fn set_vector(&mut self, v: usize, addr: u64, ist: u32)
        requires
            old(self).wf(),
            v < IDT_ENTRIES,
        ensures
            final(self).wf(),
            final(self)@ == old(self)@.update(v as int, (
                (gate_value(addr, ist) % 0x1_0000_0000_0000_0000) as u64,
                (gate_value(addr, ist) / 0x1_0000_0000_0000_0000) as u64,
            )),
    {
        let gate = Gate { addr, ist }.to_real().raw();
        let msbb = (gate >> 64) as u64;
        let mask: u128 = 0xFFFF_FFFF_FFFF_FFFF;
        let lsbb = (gate & mask) as u64;
        assert(msbb as int == gate / 0x1_0000_0000_0000_0000 && lsbb as int == gate % 0x1_0000_0000_0000_0000) by (bit_vector)
            requires msbb == (gate >> 64u128) as u64, lsbb == (gate & mask) as u64, mask == 0xFFFF_FFFF_FFFF_FFFFu128;
        self.vec.set(v, (lsbb, msbb));
    }

    /// The table at boot: every vector to its stub in `isrs`, then invalid opcode and page
    /// fault to their own handlers, all without IST.
    pub fn init(isrs: &[u64], ud_addr: u64, pf_addr: u64) -> (r: Idt)
        requires
            isrs@.len() == IDT_ENTRIES,
        ensures
            r.wf(),
            forall|i: int| 0 <= i < IDT_ENTRIES && i != EXCEPTION_UD && i != EXCEPTION_PF ==> #[trigger] r@[i] == gate_halves(gate_value(isrs@[i], 0)),
            r@[EXCEPTION_UD as int] == gate_halves(gate_value(ud_addr, 0)),
            r@[EXCEPTION_PF as int] == gate_halves(gate_value(pf_addr, 0)),
    {
        let mut idt = Idt::empty();
        let mut i: usize = 0;
        while i < IDT_ENTRIES
            invariant
                idt.wf(),
                i <= IDT_ENTRIES,
                isrs@.len() == IDT_ENTRIES,
                forall|j: int| 0 <= j < i ==> #[trigger] idt@[j] == gate_halves(gate_value(isrs@[j], 0)),
            decreases IDT_ENTRIES - i,
        {
            idt.set_vector(i, isrs[i], 0);
            i = i + 1;
        }
        idt.set_vector(EXCEPTION_UD, ud_addr, 0);
        idt.set_vector(EXCEPTION_PF, pf_addr, 0);
        idt
    }

    /// Once the TSS is set up: the page-fault handler runs on its own IST stack.
    pub fn init2(&mut self, pf_addr: u64)
        requires
            old(self).wf(),
        ensures
            final(self).wf(),
            final(self)@ == old(self)@.update(EXCEPTION_PF as int, gate_halves(gate_value(pf_addr, crate::desc::tss::IST_PF as u32))),
    {
        self.set_vector(EXCEPTION_PF, pf_addr, crate::desc::tss::IST_PF as u32);
    }
}

/// A gate as its low and high 8 bytes.
pub open spec fn gate_halves(g: u128) -> (u64, u64) {
    ((g % 0x1_0000_0000_0000_0000) as u64, (g / 0x1_0000_0000_0000_0000) as u64)
}

/// The handlers that drivers register for vectors (0: none).
pub struct WrappedIsrs {
    wraps: Vec<u64>,
}

impl WrappedIsrs {
    pub closed spec fn wf(&self) -> bool {
        self.wraps@.len() == 256
    }

    /// The registered address per vector (0: none).
    pub closed spec fn view(&self) -> Seq<u64> {
        self.wraps@
    }

    /// A table is well formed exactly when it holds one address per vector.
    pub proof fn lemma_wf(&self)
        ensures
            self.wf() <==> self@.len() == 256,
    {
    }

    /// No handler registered.
    pub fn new() -> (r: WrappedIsrs)
        ensures
            r.wf(),
            r@ == Seq::new(256, |i: int| 0u64),
    {
        let mut wraps: Vec<u64> = Vec::new();
        let mut i: usize = 0;
        while i < 256
            invariant
                i <= 256,
                wraps@ == Seq::new(i as nat, |j: int| 0u64),
            decreases 256 - i,
        {
            wraps.push(0);
            i = i + 1;
            proof {
                assert(wraps@ =~= Seq::new(i as nat, |j: int| 0u64));
            }
        }
        WrappedIsrs { wraps }
    }

    /// Registers the handler at `addr` for vector `v`.
    pub fn set_wrapped_isr(&mut self, v: u8, addr: u64)
        requires
            old(self).wf(),
        ensures
            final(self).wf(),
            final(self)@ == old(self)@.update(v as int, addr),
    {
        self.wraps.set(v as usize, addr);
    }

    /// The handler registered for vector `v`, if any.
    pub fn get_wrapped_isr(&self, v: u8) -> (r: Option<u64>)
        requires
            self.wf(),
        ensures
            r == (if self@[v as int] == 0 { None } else { Some(self@[v as int]) }),
    {
        let ret = self.wraps[v as usize];
        if ret == 0 {
            None
        } else {
            Some(ret)
        }
    }
}

/// After the handler at `a` is registered for vector `v` in a table of 256 vectors, the
/// lookup of `v` gives `a` (none when `a` is 0), and every other vector keeps its handler.
pub proof fn law_wrapped_isr_get_after_set(t: Seq<u64>, v: u8, a: u64, w: u8)
    requires
        t.len() == 256,
    ensures
        t.update(v as int, a).len() == 256,
        t.update(v as int, a)[v as int] == a,
        w != v ==> t.update(v as int, a)[w as int] == t[w as int],
{
}

} // verus!
