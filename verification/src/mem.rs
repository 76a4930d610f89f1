use vstd::prelude::*;

pub mod bitmap;
pub mod pmm;
pub mod entries;
pub mod kspace;
pub mod paging;

verus! {

/// Size of a page: 4 KiB.
pub const PAGE_SIZE: usize = 4096;

/// Start of the higher half of the address space.
pub const HIGHER_HALF: u64 = 0xFFFF800000000000;

/// Short name of the higher half.
pub const HH: u64 = HIGHER_HALF;

/// Number of pages needed to hold `bytes` bytes (rounded up).
pub open spec fn spec_npages(bytes: int) -> int {
    (bytes + PAGE_SIZE - 1) / (PAGE_SIZE as int)
}

/// Number of pages needed to hold `bytes` bytes, rounding up.
pub fn npages(bytes: usize) -> (r: usize)
    requires
        bytes + PAGE_SIZE - 1 <= usize::MAX,
    ensures
        r == spec_npages(bytes as int),
{
    (bytes + (PAGE_SIZE - 1)) / PAGE_SIZE
}

/// The address of the page that holds `addr` (the low 12 bits cleared).
pub fn page(addr: u64) -> (r: u64)
    ensures
        r == addr - addr % 4096,
{
    let r = addr & !0xFFFu64;
    assert(addr & !0xFFFu64 == addr - addr % 4096) by (bit_vector);
    r
}

/// The offset of `addr` inside its page (the low 12 bits).
pub fn pageoff(addr: u64) -> (r: u64)
    ensures
        r == addr % 4096,
{
    let r = addr & 0xFFFu64;
    assert(addr & 0xFFFu64 == addr % 4096) by (bit_vector);
    r
}

} // verus!
