//! The task-state segment.
use vstd::prelude::*;
use crate::bytes::{le16, le32, le64, push_u16, push_u32, push_u64};

verus! {

/// Size of the TSS in bytes.
pub const TSS_SIZE: usize = 104;

/// The IST slot used by the page-fault handler.
pub const IST_PF: usize = 1;

/// Number of IST stacks that the kernel sets up.
pub const USED_ISTS: usize = 2;

/// The 64-bit task-state segment.
pub struct TSS {
    pub reserved0: u32,
    pub rsps: [u64; 3],
    pub reserved1: u64,
    pub ists: [u64; 7],
    pub reserved2: u64,
    pub reserved3: u16,
    pub iopb: u16,
}

impl TSS {
    /// A TSS with every stack pointer zero and the I/O permission bitmap placed at its
    /// end (that is, no I/O permission bitmap).
    pub fn new() -> (r: TSS)
        ensures
            r.reserved0 == 0,
            r.rsps@ == seq![0u64, 0u64, 0u64],
            r.reserved1 == 0,
            r.ists@ == Seq::new(7, |i: int| 0u64),
            r.reserved2 == 0,
            r.reserved3 == 0,
            r.iopb == TSS_SIZE,
    {
        let r = TSS {
            reserved0: 0,
            rsps: [0; 3],
            reserved1: 0,
            ists: [0; 7],
            reserved2: 0,
            reserved3: 0,
            iopb: TSS_SIZE as u16,
        };
        proof {
            assert(r.rsps@ =~= seq![0u64, 0u64, 0u64]);
            assert(r.ists@ =~= Seq::new(7, |i: int| 0u64));
        }
        r
    }

    /// Sets IST slot `i` (0-based) to the stack top `top`.
    pub fn set_ist(&mut self, i: usize, top: u64)
        requires
            i < 7,
        ensures
            final(self).ists@ == old(self).ists@.update(i as int, top),
            final(self).rsps == old(self).rsps,
            final(self).iopb == old(self).iopb,
    {
        self.ists[i] = top;
    }

    /// The TSS as the processor reads it: 104 bytes, each field little-endian at its
    /// offset, with no padding.
    pub fn image(&self) -> (r: Vec<u8>)
        ensures
            r@.len() == TSS_SIZE,
            le32(r@, 0) == self.reserved0,
            forall|i: int| 0 <= i < 3 ==> le64(r@, 4 + 8 * i) == #[trigger] self.rsps@[i],
            le64(r@, 28) == self.reserved1,
            forall|i: int| 0 <= i < 7 ==> le64(r@, 36 + 8 * i) == #[trigger] self.ists@[i],
            le64(r@, 92) == self.reserved2,
            le16(r@, 100) == self.reserved3,
            le16(r@, 102) == self.iopb,
    {
        let mut v: Vec<u8> = Vec::new();
        push_u32(&mut v, self.reserved0);
        let mut i: usize = 0;
        while i < 3
            invariant
                i <= 3,
                v@.len() == 4 + 8 * i,
                le32(v@, 0) == self.reserved0,
                forall|j: int| 0 <= j < i ==> le64(v@, 4 + 8 * j) == #[trigger] self.rsps@[j],
            decreases 3 - i,
        {
            let ghost before = v@;
            push_u64(&mut v, self.rsps[i]);
            assert forall|j: int| 0 <= j < i + 1 implies le64(v@, 4 + 8 * j) == #[trigger] self.rsps@[j] by {
                if j < i {
                    assert(le64(v@, 4 + 8 * j) == le64(before, 4 + 8 * j));
                }
            }
            assert(le32(v@, 0) == le32(before, 0));
            i = i + 1;
        }
        let ghost head = v@;
        push_u64(&mut v, self.reserved1);
        assert(le32(v@, 0) == le32(head, 0));
        assert forall|j: int| 0 <= j < 3 implies le64(v@, 4 + 8 * j) == #[trigger] self.rsps@[j] by {
            assert(le64(v@, 4 + 8 * j) == le64(head, 4 + 8 * j));
        }
        let mut k: usize = 0;
        while k < 7
            invariant
                k <= 7,
                v@.len() == 36 + 8 * k,
                le32(v@, 0) == self.reserved0,
                forall|j: int| 0 <= j < 3 ==> le64(v@, 4 + 8 * j) == #[trigger] self.rsps@[j],
                le64(v@, 28) == self.reserved1,
                forall|j: int| 0 <= j < k ==> le64(v@, 36 + 8 * j) == #[trigger] self.ists@[j],
            decreases 7 - k,
        {
            let ghost before = v@;
            push_u64(&mut v, self.ists[k]);
            assert forall|j: int| 0 <= j < k + 1 implies le64(v@, 36 + 8 * j) == #[trigger] self.ists@[j] by {
                if j < k {
                    assert(le64(v@, 36 + 8 * j) == le64(before, 36 + 8 * j));
                }
            }
            assert forall|j: int| 0 <= j < 3 implies le64(v@, 4 + 8 * j) == #[trigger] self.rsps@[j] by {
                assert(le64(v@, 4 + 8 * j) == le64(before, 4 + 8 * j));
            }
            assert(le32(v@, 0) == le32(before, 0));
            assert(le64(v@, 28) == le64(before, 28));
            k = k + 1;
        }
        let ghost body = v@;
        push_u64(&mut v, self.reserved2);
        push_u16(&mut v, self.reserved3);
        push_u16(&mut v, self.iopb);
        assert(le32(v@, 0) == le32(body, 0));
        assert(le64(v@, 28) == le64(body, 28));
        assert forall|j: int| 0 <= j < 3 implies le64(v@, 4 + 8 * j) == #[trigger] self.rsps@[j] by {
            assert(le64(v@, 4 + 8 * j) == le64(body, 4 + 8 * j));
        }
        assert forall|j: int| 0 <= j < 7 implies le64(v@, 36 + 8 * j) == #[trigger] self.ists@[j] by {
            assert(le64(v@, 36 + 8 * j) == le64(body, 36 + 8 * j));
        }
        v
    }
}

/// The stack tops of the IST stacks of one TSS: each stack is 4 pages, and its top is the
/// end of the pages allocated for it.
pub fn ist_top(stack: u64) -> (r: u64)
    requires
        stack + 4 * 4096 <= u64::MAX,
    ensures
        r == stack + 4 * 4096,
{
    stack + (crate::mem::PAGE_SIZE * 4) as u64
}

} // verus!

verus! {

/// A TSS whose first `USED_ISTS` IST slots hold the tops of fresh 4-page stacks
/// allocated from the memory manager; fails when the memory runs out.
pub fn tss_with_stacks(pmm: &mut crate::mem::pmm::Pmm) -> (r: Result<TSS, ()>)
    requires
        old(pmm).wf(),
        crate::mem::pmm::regions_valid(old(pmm)@),
    ensures
        final(pmm).wf(),
        r is Ok ==> {
            let a0 = crate::mem::pmm::alloc_addr(old(pmm)@, 4);
            let mid = crate::mem::pmm::alloc_state(old(pmm)@, 4);
            let a1 = crate::mem::pmm::alloc_addr(mid, 4);
            &&& a0 is Some && a1 is Some
            &&& final(pmm)@ == crate::mem::pmm::alloc_state(mid, 4)
            &&& r->Ok_0.ists@ == Seq::new(7, |i: int| 0u64).update(0, (a0->Some_0 + 4 * 4096) as u64).update(1, (a1->Some_0 + 4 * 4096) as u64)
            &&& r->Ok_0.iopb == TSS_SIZE
        },
        r is Err ==> {
            ||| crate::mem::pmm::alloc_addr(old(pmm)@, 4) is None
            ||| crate::mem::pmm::alloc_addr(crate::mem::pmm::alloc_state(old(pmm)@, 4), 4) is None
        },
{
    let mut tss = TSS::new();
    let mut i: usize = 0;
    let ghost rs0 = pmm@;
    while i < USED_ISTS
        invariant
            pmm.wf(),
            i <= USED_ISTS,
            crate::mem::pmm::regions_valid(rs0),
            crate::mem::pmm::regions_valid(pmm@),
            rs0 == old(pmm)@,
            tss.iopb == TSS_SIZE,
            i == 0 ==> pmm@ == rs0 && tss.ists@ == Seq::new(7, |j: int| 0u64),
            i >= 1 ==> {
                &&& crate::mem::pmm::alloc_addr(rs0, 4) is Some
                &&& tss.ists@[0] == (crate::mem::pmm::alloc_addr(rs0, 4)->Some_0 + 4 * 4096) as u64
            },
            i == 1 ==> {
                &&& pmm@ == crate::mem::pmm::alloc_state(rs0, 4)
                &&& tss.ists@ == Seq::new(7, |j: int| 0u64).update(0, (crate::mem::pmm::alloc_addr(rs0, 4)->Some_0 + 4 * 4096) as u64)
            },
            i == 2 ==> {
                let mid = crate::mem::pmm::alloc_state(rs0, 4);
                &&& crate::mem::pmm::alloc_addr(mid, 4) is Some
                &&& pmm@ == crate::mem::pmm::alloc_state(mid, 4)
                &&& tss.ists@ == Seq::new(7, |j: int| 0u64).update(0, (crate::mem::pmm::alloc_addr(rs0, 4)->Some_0 + 4 * 4096) as u64).update(1, (crate::mem::pmm::alloc_addr(mid, 4)->Some_0 + 4 * 4096) as u64)
            },
        decreases USED_ISTS - i,
    {
        let ghost before = pmm@;
        let stack = match pmm.calloc(4) {
            Ok(s) => s,
            Err(_) => {
                return Err(());
            },
        };
        proof {
            pmm.lemma_valid();
            crate::mem::pmm::lemma_alloc_end(before, 4);
        }
        let top = ist_top(stack);
        tss.set_ist(i, top);
        i = i + 1;
    }
    Ok(tss)
}

} // verus!
