//! ACPI: the RSDP, the RSDT and the system description tables.
use vstd::prelude::*;
use crate::bytes::{read_u32, le32};
use crate::mem::paging::{Paging, Mapping, map_pages, map_pte, key_of, pmm_sane, can_alloc_times, alloc_times, map_room, map_run};
use crate::mem::pmm::Pmm;
use crate::mem::{pageoff, spec_npages, PAGE_SIZE};

verus! {

/// Size of the ACPI 1.0 RSDP.
pub const RSDP_SIZE: usize = 20;
/// Size of the ACPI 2.0 RSDP.
pub const RSDP20_SIZE: usize = 36;
/// Size of the header of a system description table.
pub const SDT_HEADER_SIZE: usize = 36;

/// The sum of the bytes of `s`.
pub open spec fn byte_sum(s: Seq<u8>) -> int
    decreases s.len(),
{
    if s.len() == 0 {
        0
    } else {
        byte_sum(s.drop_last()) + s.last()
    }
}

proof fn lemma_byte_sum_bound(s: Seq<u8>)
    ensures
        0 <= byte_sum(s) <= 255 * s.len(),
    decreases s.len(),
{
    if s.len() > 0 {
        lemma_byte_sum_bound(s.drop_last());
    }
}

/// The low byte of the sum of the bytes: zero for a table whose checksum is right.
pub fn checksum(bytes: &[u8]) -> (r: u8)
    requires
        bytes@.len() * 255 <= usize::MAX,
    ensures
        r == byte_sum(bytes@) % 256,
{
    let n = bytes.len();
    let mut sum: usize = 0;
    let mut i: usize = 0;
    while i < n
        invariant
            n == bytes@.len(),
            n * 255 <= usize::MAX,
            i <= n,
            sum == byte_sum(bytes@.take(i as int)),
        decreases n - i,
    {
        proof {
            assert(bytes@.take(i + 1).drop_last() =~= bytes@.take(i as int));
            lemma_byte_sum_bound(bytes@.take(i as int));
            assert(sum + 255 <= n * 255) by (nonlinear_arith)
                requires sum <= 255 * i, i < n;
        }
        sum = sum + bytes[i] as usize;
        i = i + 1;
    }
    proof {
        assert(bytes@.take(n as int) =~= bytes@);
    }
    assert(((sum & 0xFFusize) as u8) as int == sum % 256) by (bit_vector);
    (sum & 0xFF) as u8
}

/// The header of a system description table.
#[derive(Clone, Copy)]
pub struct SDTHeader {
    pub signature: [u8; 4],
    pub length: u32,
    pub revision: u8,
    pub checksum: u8,
    pub oemid: [u8; 6],
    pub oemtableid: [u8; 8],
    pub oemrevision: u32,
    pub creatorid: u32,
    pub creatorrevision: u32,
}

/// The first table in `tables` whose signature is `signature`, if any.
pub fn get(tables: &Vec<SDTHeader>, signature: &[u8]) -> (r: Option<usize>)
    ensures
        match r {
            Some(i) => i < tables@.len() && tables@[i as int].signature@ == signature@
                && forall|j: int| 0 <= j < i ==> #[trigger] tables@[j].signature@ != signature@,
            None => forall|j: int| 0 <= j < tables@.len() ==> #[trigger] tables@[j].signature@ != signature@,
        },
{
    let n = tables.len();
    let mut i: usize = 0;
    while i < n
        invariant
            n == tables@.len(),
            i <= n,
            forall|j: int| 0 <= j < i ==> #[trigger] tables@[j].signature@ != signature@,
        decreases n - i,
    {
        let sig = &tables[i].signature;
        if signature.len() == 4 && sig[0] == signature[0] && sig[1] == signature[1] && sig[2] == signature[2] && sig[3] == signature[3] {
            proof {
                assert(sig@ =~= signature@);
            }
            return Some(i);
        }
        proof {
            if tables@[i as int].signature@ == signature@ {
                assert(sig@[0] == signature@[0]);
            }
        }
        i = i + 1;
    }
    None
}

/// What is wrong with an RSDP.
#[derive(Clone, Copy, PartialEq, Eq, Debug)]
pub enum AcpiError {
    /// Shorter than the RSDP of its revision.
    Truncated,
    /// The signature is not "RSD PTR ".
    InvalidSignature,
    /// The bytes of the RSDP do not sum to zero.
    InvalidChecksum,
    /// ACPI 2.0 and later are not supported.
    Unsupported,
    /// The revision is neither 0 nor 2.
    InvalidRevision(u8),
}

/// The signature bytes "RSD PTR ".
pub open spec fn rsdp_signature() -> Seq<u8> {
    seq![82u8, 83u8, 68u8, 32u8, 80u8, 84u8, 82u8, 32u8]
}

/// An RSDP that the kernel accepts: the right signature, revision 0, and a zero checksum
/// over its 20 bytes.
pub open spec fn rsdp_valid(b: Seq<u8>) -> bool {
    &&& b.len() >= RSDP_SIZE
    &&& b.take(8) == rsdp_signature()
    &&& b[15] == 0
    &&& byte_sum(b.take(20)) % 256 == 0
}

/// What is wrong with the RSDP in `bytes`, if anything: the signature must be right,
/// revision 0 must have a zero checksum over its 20 bytes; revision 2 (whose 36 bytes
/// must have a zero checksum) is not supported; any other revision is refused.
pub fn rsdp_error(bytes: &[u8]) -> (r: Option<AcpiError>)
    ensures
        r is None <==> rsdp_valid(bytes@),
        bytes@.len() < RSDP_SIZE ==> r == Some(AcpiError::Truncated),
        bytes@.len() >= RSDP_SIZE ==> {
            let sig_ok = bytes@.take(8) == rsdp_signature();
            let rev = bytes@[15];
            &&& !sig_ok ==> r == Some(AcpiError::InvalidSignature)
            &&& sig_ok && rev == 0 && byte_sum(bytes@.take(20)) % 256 != 0 ==> r == Some(AcpiError::InvalidChecksum)
            &&& sig_ok && rev == 2 && bytes@.len() < RSDP20_SIZE ==> r == Some(AcpiError::Truncated)
            &&& sig_ok && rev == 2 && bytes@.len() >= RSDP20_SIZE && byte_sum(bytes@.take(36)) % 256 != 0 ==> r == Some(AcpiError::InvalidChecksum)
            &&& sig_ok && rev == 2 && bytes@.len() >= RSDP20_SIZE && byte_sum(bytes@.take(36)) % 256 == 0 ==> r == Some(AcpiError::Unsupported)
            &&& sig_ok && rev != 0 && rev != 2 ==> r == Some(AcpiError::InvalidRevision(rev))
        },
{
    match rsdp_walk(bytes) {
        Ok(_) => None,
        Err(e) => Some(e),
    }
}

/// The address of the RSDT that a valid RSDP gives.
pub fn check_rsdp(bytes: &[u8]) -> (r: u32)
    requires
        rsdp_valid(bytes@),
    ensures
        r == le32(bytes@, 16),
{
    match rsdp_walk(bytes) {
        Ok(v) => v,
        Err(_) => 0,
    }
}

/// Checks an RSDP as `rsdp_error` says, giving back the address of the RSDT when it is
/// valid.
fn rsdp_walk(bytes: &[u8]) -> (r: Result<u32, AcpiError>)
    ensures
        bytes@.len() < RSDP_SIZE ==> r == Err::<u32, AcpiError>(AcpiError::Truncated),
        bytes@.len() >= RSDP_SIZE ==> {
            let sig_ok = bytes@.take(8) == rsdp_signature();
            let rev = bytes@[15];
            &&& !sig_ok ==> r == Err::<u32, AcpiError>(AcpiError::InvalidSignature)
            &&& sig_ok && rev == 0 && byte_sum(bytes@.take(20)) % 256 != 0 ==> r == Err::<u32, AcpiError>(AcpiError::InvalidChecksum)
            &&& sig_ok && rev == 0 && byte_sum(bytes@.take(20)) % 256 == 0 ==> r == Ok::<u32, AcpiError>(le32(bytes@, 16) as u32)
            &&& sig_ok && rev == 2 && bytes@.len() < RSDP20_SIZE ==> r == Err::<u32, AcpiError>(AcpiError::Truncated)
            &&& sig_ok && rev == 2 && bytes@.len() >= RSDP20_SIZE && byte_sum(bytes@.take(36)) % 256 != 0 ==> r == Err::<u32, AcpiError>(AcpiError::InvalidChecksum)
            &&& sig_ok && rev == 2 && bytes@.len() >= RSDP20_SIZE && byte_sum(bytes@.take(36)) % 256 == 0 ==> r == Err::<u32, AcpiError>(AcpiError::Unsupported)
            &&& sig_ok && rev != 0 && rev != 2 ==> r == Err::<u32, AcpiError>(AcpiError::InvalidRevision(rev))
        },
{
    if bytes.len() < RSDP_SIZE {
        return Err(AcpiError::Truncated);
    }
    let sig: [u8; 8] = [82, 83, 68, 32, 80, 84, 82, 32];
    let mut k: usize = 0;
    while k < 8
        invariant
            k <= 8,
            bytes@.len() >= 20,
            sig@ == rsdp_signature(),
            forall|j: int| 0 <= j < k ==> bytes@[j] == sig@[j],
        decreases 8 - k,
    {
        if bytes[k] != sig[k] {
            proof {
                assert(bytes@.take(8)[k as int] != rsdp_signature()[k as int]);
            }
            return Err(AcpiError::InvalidSignature);
        }
        k = k + 1;
    }
    proof {
        assert(bytes@.take(8) =~= rsdp_signature());
    }
    let rev = bytes[15];
    if rev == 0 {
        let (head, _) = bytes.split_at(RSDP_SIZE);
        proof {
            assert(head@ =~= bytes@.take(20));
        }
        if checksum(head) != 0 {
            return Err(AcpiError::InvalidChecksum);
        }
        Ok(read_u32(bytes, 16))
    } else if rev == 2 {
        if bytes.len() < RSDP20_SIZE {
            return Err(AcpiError::Truncated);
        }
        let (head, _) = bytes.split_at(RSDP20_SIZE);
        proof {
            assert(head@ =~= bytes@.take(36));
        }
        if checksum(head) != 0 {
            return Err(AcpiError::InvalidChecksum);
        }
        Err(AcpiError::Unsupported)
    } else {
        Err(AcpiError::InvalidRevision(rev))
    }
}

/// The table addresses that an RSDT lists: the 32-bit entries after its 36-byte header,
/// as many as its length (`length`) holds.
pub fn rsdt_entries(bytes: &[u8], length: u32) -> (r: Vec<u32>)
    requires
        SDT_HEADER_SIZE <= length <= bytes@.len(),
    ensures
        r@.len() == (length - SDT_HEADER_SIZE) / 4,
        forall|i: int| 0 <= i < r@.len() ==> #[trigger] r@[i] == le32(bytes@, SDT_HEADER_SIZE + 4 * i),
{
    let entries = (length as usize - SDT_HEADER_SIZE) / 4;
    let mut r: Vec<u32> = Vec::new();
    let mut i: usize = 0;
    while i < entries
        invariant
            entries == (length - SDT_HEADER_SIZE) / 4,
            SDT_HEADER_SIZE <= length <= bytes@.len(),
            i <= entries,
            r@.len() == i,
            forall|j: int| 0 <= j < i ==> #[trigger] r@[j] == le32(bytes@, SDT_HEADER_SIZE + 4 * j),
        decreases entries - i,
    {
        let v = read_u32(bytes, SDT_HEADER_SIZE + 4 * i);
        r.push(v);
        i = i + 1;
    }
    r
}


/// The mapping that makes `size` bytes of a table at physical address `ptr` readable:
/// identity, read-only, not executable, over the pages they touch.
pub open spec fn sdt_mapping(ptr: u64, size: u64) -> Mapping {
    Mapping {
        virt: ptr,
        phys: ptr,
        npages: spec_npages(ptr % 4096 + size) as usize,
        global: false,
        ro: true,
        nx: true,
        pcd: false,
    }
}

/// The mapping of the page that holds the RSDP at `ptr`: identity, read-only, not
/// executable.
pub open spec fn rsdp_mapping(ptr: u64) -> Mapping {
    Mapping { virt: ptr, phys: ptr, npages: 1, global: false, ro: true, nx: true, pcd: false }
}

/// Maps the page of the RSDP at `ptr`; the page tables missing for it must be possible
/// to allocate (`Paging::tables_missing`, `Pmm::can_alloc_pages_one_by_one`).
pub fn map_rsdp(pt: &mut Paging, pmm: &mut Pmm, ptr: u64)
    requires
        old(pt).wf(),
        old(pmm).wf(),
        pmm_sane(old(pmm)@),
        old(pt).frames_allocated(old(pmm)@),
        can_alloc_times(old(pmm)@, old(pt).missing_tables(ptr)),
    ensures
        final(pt).wf(),
        final(pmm).wf(),
        pmm_sane(final(pmm)@),
        final(pt).frames_allocated(final(pmm)@),
        final(pt)@ == map_pages(old(pt)@, rsdp_mapping(ptr), 1),
        final(pmm)@ == alloc_times(old(pmm)@, old(pt).missing_tables(ptr)),
{
    let mut m = Paging::newmap(ptr, ptr);
    m.ro = true;
    m.nx = true;
    proof {
        assert(map_pages(pt@, m, 1) == map_pages(pt@, m, 0).insert(
            key_of((m.virt + 0 * PAGE_SIZE) as u64), map_pte(m, (m.phys + 0 * PAGE_SIZE) as u64)));
        assert((m.virt + 0 * PAGE_SIZE) as u64 == m.virt);
        assert((m.phys + 0 * PAGE_SIZE) as u64 == m.phys);
    }
    let _ = pt.map_one(pmm, m);
}

/// The mapping that `map_sdtheader` makes of `size` bytes of the table at `ptr`.
pub fn sdt_request(ptr: u64, size: u64) -> (r: Mapping)
    requires
        ptr <= u32::MAX,
        size <= u32::MAX,
    ensures
        r == sdt_mapping(ptr, size),
        r.virt + r.npages * PAGE_SIZE <= u64::MAX,
        r.phys + r.npages * PAGE_SIZE <= u64::MAX,
{
    let mut m = Paging::newmap(ptr, ptr);
    m.ro = true;
    m.nx = true;
    let np: u64 = (pageoff(ptr) + size + 4095) / 4096;
    proof {
        assert(np <= 0x20_0000);
        assert(np * 4096 <= 0x2_0000_0000) by (nonlinear_arith)
            requires np <= 0x20_0000;
    }
    m.npages = np as usize;
    m
}

/// Maps `size` bytes of the system description table at `ptr` (both below 4 GiB, as the
/// RSDT's 32-bit entries give them): the kernel maps a table's header first, reads its
/// length, then maps the whole table. There must be memory for the page tables of the
/// mapping (`Paging::room_for` on `sdt_request`).
pub fn map_sdtheader(pt: &mut Paging, pmm: &mut Pmm, ptr: u64, size: u64)
    requires
        old(pt).wf(),
        old(pmm).wf(),
        pmm_sane(old(pmm)@),
        old(pt).frames_allocated(old(pmm)@),
        ptr <= u32::MAX,
        size <= u32::MAX,
        map_room(old(pmm)@, old(pt).path_set(), sdt_mapping(ptr, size), sdt_mapping(ptr, size).npages as nat),
    ensures
        final(pt).wf(),
        final(pmm).wf(),
        pmm_sane(final(pmm)@),
        final(pt).frames_allocated(final(pmm)@),
        final(pt)@ == map_pages(old(pt)@, sdt_mapping(ptr, size), sdt_mapping(ptr, size).npages as nat),
        final(pmm)@ == map_run(old(pmm)@, old(pt).path_set(), sdt_mapping(ptr, size), sdt_mapping(ptr, size).npages as nat).0,
{
    let m = sdt_request(ptr, size);
    let _ = pt.map(pmm, m);
}

} // verus!
