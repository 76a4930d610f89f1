//! Structures handed over by the bootloader (stivale2).
use vstd::prelude::*;
use crate::utils::{utf8_str, find_nul, nul_position};

verus! {

/// Identifier of the memory map tag.
pub const MEMORY_MAP_ID: u64 = 0x2187f79e8612de07;
/// Identifier of the modules tag.
pub const MODULES_ID: u64 = 0x4b6fe466aade04ce;

/// Memory that the kernel may use.
pub const STIVALE2_MMAP_USABLE: u32 = 1;
/// Memory used by the bootloader, reclaimable afterwards.
pub const STIVALE2_MMAP_BOOTLOADER_RECLAIMABLE: u32 = 0x1000;
/// Memory that holds the kernel and the modules.
pub const STIVALE2_MMAP_KERNEL_AND_MODULES: u32 = 0x1001;

/// Capacity of the kernel's copy of the memory map: one page of 24-byte entries.
pub const MM_MAXENTRIES: usize = 170;

/// One entry of the bootloader's memory map.
#[derive(Clone, Copy)]
pub struct StivaleMMEntry {
    pub base: u64,
    pub length: u64,
    pub entry_type: u32,
    pub unused: u32,
}

} // verus!

verus! {

/// Size of a memory map entry.
pub const MM_ENTRY_SIZE: usize = 24;
/// Size of a module record: begin, end, and a 128-byte string.
pub const MODULE_SIZE: usize = 144;

/// What stops the parsing of the bootloader's information.
#[derive(Clone, Copy, PartialEq, Eq, Debug)]
pub enum BootError {
    /// The bytes end before the records they should hold.
    Truncated,
    /// A module string is not UTF-8.
    InvalidUtf8,
    /// A module string does not start with a number.
    InvalidId,
    /// A module string has no name after its number.
    NoName,
}

/// The memory map entry whose bytes start at `off`.
pub open spec fn mm_entry_at(b: Seq<u8>, off: int) -> StivaleMMEntry {
    StivaleMMEntry {
        base: crate::bytes::le64(b, off) as u64,
        length: crate::bytes::le64(b, off + 8) as u64,
        entry_type: crate::bytes::le32(b, off + 16) as u32,
        unused: crate::bytes::le32(b, off + 20) as u32,
    }
}

/// The kernel's copy of the memory map: the `nentries` entries that follow the tag, at
/// most `MM_MAXENTRIES` of them (what fits in its page).
pub fn parse_mm(b: &[u8], nentries: u64) -> (r: Result<Vec<StivaleMMEntry>, BootError>)
    requires
        nentries <= MM_MAXENTRIES,
    ensures
        nentries <= MM_MAXENTRIES && b@.len() < nentries * 24 ==> r == Err::<Vec<StivaleMMEntry>, BootError>(BootError::Truncated),
        nentries <= MM_MAXENTRIES && b@.len() >= nentries * 24 ==> {
            &&& r is Ok
            &&& r->Ok_0@.len() == nentries
            &&& forall|i: int| 0 <= i < nentries ==> #[trigger] r->Ok_0@[i] == mm_entry_at(b@, 24 * i)
        },
{
    let n = nentries as usize;
    if b.len() < n * MM_ENTRY_SIZE {
        return Err(BootError::Truncated);
    }
    let mut r: Vec<StivaleMMEntry> = Vec::new();
    let mut i: usize = 0;
    while i < n
        invariant
            n == nentries,
            n <= MM_MAXENTRIES,
            b@.len() >= n * 24,
            i <= n,
            r@.len() == i,
            forall|j: int| 0 <= j < i ==> #[trigger] r@[j] == mm_entry_at(b@, 24 * j),
        decreases n - i,
    {
        let off = i * MM_ENTRY_SIZE;
        let e = StivaleMMEntry {
            base: crate::bytes::read_u64(b, off),
            length: crate::bytes::read_u64(b, off + 8),
            entry_type: crate::bytes::read_u32(b, off + 16),
            unused: crate::bytes::read_u32(b, off + 20),
        };
        r.push(e);
        i = i + 1;
    }
    Ok(r)
}

} // verus!

verus! {

/// ASCII digit.
pub open spec fn is_digit(c: u8) -> bool {
    48 <= c <= 57
}

/// The number that the decimal digits `s` spell.
pub open spec fn digits_value(s: Seq<u8>) -> int
    decreases s.len(),
{
    if s.len() == 0 {
        0
    } else {
        digits_value(s.drop_last()) * 10 + (s.last() - 48)
    }
}

/// The digits of `s`, after an optional leading `+`.
pub open spec fn unsigned_digits(s: Seq<u8>) -> Seq<u8> {
    if s.len() > 0 && s[0] == 43 { s.drop_first() } else { s }
}

/// What parsing `s` as a `usize` gives: an optional `+`, then at least one digit and
/// nothing else, of a value that fits.
pub open spec fn parse_usize_spec(s: Seq<u8>) -> Option<usize> {
    let d = unsigned_digits(s);
    if d.len() > 0 && (forall|i: int| 0 <= i < d.len() ==> #[trigger] is_digit(d[i])) && digits_value(d) <= usize::MAX {
        Some(digits_value(d) as usize)
    } else {
        None
    }
}

proof fn lemma_digits_value_mono(s: Seq<u8>, k: int)
    requires
        0 <= k <= s.len(),
        forall|i: int| 0 <= i < s.len() ==> #[trigger] is_digit(s[i]),
    ensures
        digits_value(s.take(k)) <= digits_value(s),
        digits_value(s) >= 0,
    decreases s.len(),
{
    if s.len() > 0 {
        let p = s.drop_last();
        assert forall|i: int| 0 <= i < p.len() implies #[trigger] is_digit(p[i]) by {
            assert(p[i] == s[i]);
        }
        assert(is_digit(s[s.len() - 1]));
        if k == s.len() {
            assert(s.take(k) =~= s);
            lemma_digits_value_mono(p, 0);
        } else {
            assert(s.take(k) =~= p.take(k));
            lemma_digits_value_mono(p, k);
        }
    } else {
        assert(s.take(k) =~= s);
    }
}

/// Parses `s` as the decimal text of a `usize`, as `str::parse::<usize>` does.
pub fn parse_usize(s: &[u8]) -> (r: Option<usize>)
    ensures
        r == parse_usize_spec(s@),
{
    let n = s.len();
    let mut start: usize = 0;
    if n > 0 && s[0] == 43 {
        start = 1;
    }
    let ghost d = unsigned_digits(s@);
    proof {
        assert(d =~= s@.subrange(start as int, n as int));
    }
    if start == n {
        return None;
    }
    let mut v: usize = 0;
    let mut i: usize = start;
    while i < n
        invariant
            n == s@.len(),
            start <= i <= n,
            start < n,
            d == unsigned_digits(s@),
            d =~= s@.subrange(start as int, n as int),
            forall|j: int| 0 <= j < i - start ==> #[trigger] is_digit(d[j]),
            v == digits_value(d.take(i - start)),
        decreases n - i,
    {
        let c = s[i];
        if c < 48 || c > 57 {
            proof {
                assert(d[i - start] == s@[i as int]);
                assert(!is_digit(d[i - start]));
            }
            return None;
        }
        proof {
            assert(d.take(i - start + 1).drop_last() =~= d.take(i - start));
            assert(d.take(i - start + 1).last() == c);
        }
        let m = v.checked_mul(10);
        let nv = match m {
            Some(m) => m.checked_add((c - 48) as usize),
            None => None,
        };
        match nv {
            Some(x) => {
                v = x;
            },
            None => {
                proof {
                    assert(digits_value(d.take(i - start + 1)) > usize::MAX);
                    let mut k: int = i - start + 1;
                    if forall|j: int| 0 <= j < d.len() ==> #[trigger] is_digit(d[j]) {
                        lemma_digits_value_mono(d, k);
                    }
                }
                return None;
            },
        }
        i = i + 1;
    }
    proof {
        assert(d.take(n - start) =~= d);
    }
    Some(v)
}

/// Index of the first byte `c` in `s`, or the length of `s`.
pub open spec fn index_of(s: Seq<u8>, c: u8) -> int {
    if exists|i: int| 0 <= i < s.len() && s[i] == c {
        choose|i: int| 0 <= i < s.len() && s[i] == c && forall|j: int| 0 <= j < i ==> s[j] != c
    } else {
        s.len() as int
    }
}

/// Index of the first `c` in `s`, or its length.
fn find_byte(s: &[u8], c: u8) -> (r: usize)
    ensures
        r == index_of(s@, c),
        r <= s@.len(),
{
    let n = s.len();
    let mut i: usize = 0;
    while i < n
        invariant
            n == s@.len(),
            i <= n,
            forall|j: int| 0 <= j < i ==> s@[j] != c,
        decreases n - i,
    {
        if s[i] == c {
            proof {
                let w = choose|k: int| 0 <= k < s@.len() && s@[k] == c && forall|j: int| 0 <= j < k ==> s@[j] != c;
                if w < i {
                    assert(s@[w] != c);
                } else if w > i {
                    assert(s@[i as int] != c);
                }
            }
            return i;
        }
        i = i + 1;
    }
    i
}

/// A module handed over by the bootloader: its number, its name and where it is.
pub struct Module {
    pub id: usize,
    pub name: String,
    pub begin: u64,
    pub end: u64,
}

/// The text of a module string: up to its first NUL.
pub open spec fn module_text(string: Seq<u8>) -> Seq<u8> {
    string.take(nul_position(string))
}

/// The first field of the text: up to its first space.
pub open spec fn id_field(t: Seq<u8>) -> Seq<u8> {
    t.take(index_of(t, 32))
}

/// The second field of the text: after the first space, up to the next.
pub open spec fn name_field(t: Seq<u8>) -> Seq<u8> {
    let rest = t.skip(index_of(t, 32) + 1);
    rest.take(index_of(rest, 32))
}

/// What a module record gives: the text must be UTF-8, start with a number, and have a
/// name after a space.
pub open spec fn module_result(string: Seq<u8>) -> Result<(usize, Seq<u8>), BootError> {
    let t = module_text(string);
    if !vstd::utf8::valid_utf8(t) {
        Err(BootError::InvalidUtf8)
    } else if parse_usize_spec(id_field(t)) is None {
        Err(BootError::InvalidId)
    } else if index_of(t, 32) >= t.len() {
        Err(BootError::NoName)
    } else if !vstd::utf8::valid_utf8(name_field(t)) {
        Err(BootError::InvalidUtf8)
    } else {
        Ok((parse_usize_spec(id_field(t))->Some_0, name_field(t)))
    }
}

/// The module described by the string `string` ("<id> <name>") at `begin..end`.
pub fn parse_module(string: &[u8], begin: u64, end: u64) -> (r: Result<Module, BootError>)
    ensures
        match module_result(string@) {
            Ok((id, name)) => r matches Ok(m) && m.id == id && vstd::utf8::encode_utf8(m.name@) == name && m.begin == begin && m.end == end,
            Err(e) => r matches Err(e2) && e2 == e,
        },
{
    let end_text = find_nul(string);
    let (t, _) = string.split_at(end_text);
    proof {
        assert(t@ =~= module_text(string@));
    }
    if utf8_str(t).is_err() {
        return Err(BootError::InvalidUtf8);
    }
    let sp = find_byte(t, 32);
    let (ids, _) = t.split_at(sp);
    proof {
        assert(ids@ =~= id_field(t@));
    }
    let id = match parse_usize(ids) {
        Some(v) => v,
        None => {
            return Err(BootError::InvalidId);
        },
    };
    if sp >= t.len() {
        return Err(BootError::NoName);
    }
    let (_, rest0) = t.split_at(sp + 1);
    let sp2 = find_byte(rest0, 32);
    let (name_bytes, _) = rest0.split_at(sp2);
    proof {
        assert(rest0@ =~= t@.skip(sp + 1));
        assert(name_bytes@ =~= name_field(t@));
    }
    let name = match utf8_str(name_bytes) {
        Ok(s) => s,
        Err(_) => {
            return Err(BootError::InvalidUtf8);
        },
    };
    let owned = name.to_owned();
    Ok(Module { id, name: owned, begin, end })
}

/// `s` is sorted by id.
pub open spec fn sorted_by_id(s: Seq<Module>) -> bool {
    forall|i: int, j: int| 0 <= i < j < s.len() ==> #[trigger] s[i].id <= #[trigger] s[j].id
}

/// `r` is `v` rearranged by `p`: the `k`-th module of `r` is module `p[k]` of `v`, no
/// module of `v` is taken twice, and modules with equal ids keep their order in `v`.
pub open spec fn stable_arrangement(r: Seq<Module>, v: Seq<Module>, p: Seq<int>) -> bool {
    &&& r.len() == v.len()
    &&& p.len() == r.len()
    &&& forall|k: int| 0 <= k < r.len() ==> 0 <= #[trigger] p[k] < v.len() && r[k] == v[p[k]]
    &&& forall|k: int, l: int| 0 <= k < l < r.len() ==> #[trigger] p[k] != #[trigger] p[l]
    &&& forall|k: int, l: int| 0 <= k < l < r.len() && #[trigger] r[k].id == #[trigger] r[l].id ==> p[k] < p[l]
}

/// Sorts the modules by id; modules with the same id keep their order.
pub fn sort_modules(v: Vec<Module>) -> (r: Vec<Module>)
    ensures
        sorted_by_id(r@),
        r@.to_multiset() == v@.to_multiset(),
        exists|p: Seq<int>| stable_arrangement(r@, v@, p),
{
    let mut src = v;
    let mut out: Vec<Module> = Vec::new();
    let ghost orig = src@;
    let ghost mut idx: Seq<int> = Seq::empty();
    proof {
        broadcast use vstd::seq_lib::group_to_multiset_ensures;
        assert(out@.to_multiset() =~= vstd::multiset::Multiset::empty());
        assert(out@.to_multiset().add(src@.to_multiset()) =~= orig.to_multiset());
        assert(src@ =~= orig.skip(0));
    }
    while src.len() > 0
        invariant
            sorted_by_id(out@),
            out@.to_multiset().add(src@.to_multiset()) == orig.to_multiset(),
            out@.len() + src@.len() == orig.len(),
            src@ == orig.skip(out@.len() as int),
            idx.len() == out@.len(),
            forall|k: int| 0 <= k < out@.len() ==> 0 <= #[trigger] idx[k] < out@.len() && out@[k] == orig[idx[k]],
            forall|k: int, l: int| 0 <= k < l < out@.len() ==> #[trigger] idx[k] != #[trigger] idx[l],
            forall|k: int, l: int| 0 <= k < l < out@.len() && #[trigger] out@[k].id == #[trigger] out@[l].id ==> idx[k] < idx[l],
        decreases src@.len(),
    {
        let ghost done = out@.len() as int;
        let m = src.remove(0);
        proof {
            assert(m == orig[done]);
            assert(src@ =~= orig.skip(done + 1));
        }
        let mut pos = out.len();
        while pos > 0 && out[pos - 1].id > m.id
            invariant
                pos <= out@.len(),
                forall|j: int| pos <= j < out@.len() ==> #[trigger] out@[j].id > m.id,
            decreases pos,
        {
            pos = pos - 1;
        }
        let ghost before = out@;
        let ghost idx_before = idx;
        out.insert(pos, m);
        proof {
            idx = idx_before.insert(pos as int, done);
            broadcast use vstd::seq_lib::group_to_multiset_ensures;
            assert forall|i: int, j: int| 0 <= i < j < out@.len() implies #[trigger] out@[i].id <= #[trigger] out@[j].id by {
                if i < pos && j == pos {
                    if pos > 0 {
                        assert(before[pos - 1].id <= m.id);
                        assert(before[i].id <= before[pos - 1].id || i == pos - 1);
                    }
                } else if i == pos && j > pos {
                    assert(out@[j] == before[j - 1]);
                } else if i < pos && j > pos {
                    assert(out@[j] == before[j - 1]);
                } else if j < pos {
                } else {
                    assert(out@[i] == before[i - 1]);
                    assert(out@[j] == before[j - 1]);
                }
            }
            assert forall|k: int| 0 <= k < out@.len() implies 0 <= #[trigger] idx[k] < out@.len() && out@[k] == orig[idx[k]] by {
                if k < pos {
                    assert(idx[k] == idx_before[k]);
                } else if k > pos {
                    assert(idx[k] == idx_before[k - 1]);
                    assert(out@[k] == before[k - 1]);
                }
            }
            assert forall|k: int, l: int| 0 <= k < l < out@.len() implies #[trigger] idx[k] != #[trigger] idx[l] by {
                if k != pos && l != pos {
                    let k0 = if k < pos { k } else { k - 1 };
                    let l0 = if l < pos { l } else { l - 1 };
                    assert(idx[k] == idx_before[k0]);
                    assert(idx[l] == idx_before[l0]);
                } else if k == pos {
                    assert(idx[l] == idx_before[l - 1]);
                } else {
                    assert(idx[k] == idx_before[k]);
                }
            }
            assert forall|k: int, l: int| 0 <= k < l < out@.len() && #[trigger] out@[k].id == #[trigger] out@[l].id implies idx[k] < idx[l] by {
                if k != pos && l != pos {
                    let k0 = if k < pos { k } else { k - 1 };
                    let l0 = if l < pos { l } else { l - 1 };
                    assert(idx[k] == idx_before[k0]);
                    assert(idx[l] == idx_before[l0]);
                    assert(out@[k] == before[k0]);
                    assert(out@[l] == before[l0]);
                } else if k == pos {
                    assert(out@[l] == before[l - 1]);
                    assert(before[l - 1].id > m.id);
                } else {
                    assert(idx[k] == idx_before[k]);
                }
            }
        }
    }
    proof {
        broadcast use vstd::seq_lib::group_to_multiset_ensures;
        assert(src@.to_multiset() =~= vstd::multiset::Multiset::empty());
        assert(stable_arrangement(out@, orig, idx));
    }
    out
}

} // verus!

verus! {

/// Module `m` is what record `i` of `b` describes.
pub open spec fn module_from_record(m: Module, b: Seq<u8>, i: int) -> bool {
    let off = MODULE_SIZE * i;
    let res = module_result(b.subrange(off + 16, off + MODULE_SIZE));
    &&& res is Ok
    &&& m.id == res->Ok_0.0
    &&& vstd::utf8::encode_utf8(m.name@) == res->Ok_0.1
    &&& m.begin == crate::bytes::le64(b, off)
    &&& m.end == crate::bytes::le64(b, off + 8)
}

/// Every one of the `count` records in `b` that the bytes hold describes a module.
pub open spec fn records_valid(b: Seq<u8>, count: u64) -> bool {
    b.len() >= count * MODULE_SIZE ==> forall|i: int| 0 <= i < count
        ==> #[trigger] module_result(b.subrange(MODULE_SIZE * i + 16, MODULE_SIZE * i + MODULE_SIZE)) is Ok
}

/// What is wrong with the `count` module records in `b`, if anything: too few bytes, or
/// the error of the first record that does not describe a module.
pub fn modules_error(b: &[u8], count: u64) -> (r: Option<BootError>)
    ensures
        r is None <==> b@.len() >= count * MODULE_SIZE && records_valid(b@, count),
        b@.len() < count * MODULE_SIZE ==> r == Some(BootError::Truncated),
        r is Some && b@.len() >= count * MODULE_SIZE ==> exists|i: int| 0 <= i < count
            && #[trigger] module_result(b@.subrange(MODULE_SIZE * i + 16, MODULE_SIZE * i + MODULE_SIZE))
                == Err::<(usize, Seq<u8>), BootError>(r->Some_0),
{
    match read_modules(b, count) {
        Ok(_) => None,
        Err(e) => Some(e),
    }
}

/// The modules recorded so far, `recorded`, together with those of the `count` records
/// in `b` (which must all describe modules), sorted by id; modules with equal ids keep
/// their order: the recorded ones first, then the new ones in record order.
pub fn parse_modules(recorded: Vec<Module>, b: &[u8], count: u64) -> (r: Result<Vec<Module>, BootError>)
    requires
        records_valid(b@, count),
        recorded@.len() + count <= usize::MAX,
    ensures
        b@.len() < count * MODULE_SIZE <==> r == Err::<Vec<Module>, BootError>(BootError::Truncated),
        r is Err ==> r->Err_0 == BootError::Truncated,
        r is Ok ==> {
            &&& sorted_by_id(r->Ok_0@)
            &&& exists|u: Seq<Module>| {
                &&& u.len() == count
                &&& (forall|i: int| 0 <= i < count ==> #[trigger] module_from_record(u[i], b@, i))
                &&& r->Ok_0@.to_multiset() == (recorded@ + u).to_multiset()
                &&& exists|p: Seq<int>| stable_arrangement(r->Ok_0@, recorded@ + u, p)
            }
        },
{
    let fresh = match read_modules(b, count) {
        Ok(v) => v,
        Err(e) => {
            return Err(e);
        },
    };
    let ghost u = choose|u: Seq<Module>| {
        &&& u.len() == count
        &&& (forall|i: int| 0 <= i < count ==> #[trigger] module_from_record(u[i], b@, i))
        &&& fresh@ == u
    };
    let mut fresh = fresh;
    let mut all = recorded;
    let ghost rec = all@;
    all.append(&mut fresh);
    let sorted = sort_modules(all);
    proof {
        let p = choose|p: Seq<int>| stable_arrangement(sorted@, rec + u, p);
        assert(stable_arrangement(sorted@, rec + u, p));
        assert(exists|p: Seq<int>| stable_arrangement(sorted@, rec + u, p));
    }
    Ok(sorted)
}

/// The modules of the `count` records in `b`, in record order; the first record that
/// does not describe a module stops the reading with its error.
fn read_modules(b: &[u8], count: u64) -> (r: Result<Vec<Module>, BootError>)
    ensures
        b@.len() < count * MODULE_SIZE ==> r == Err::<Vec<Module>, BootError>(BootError::Truncated),
        r is Ok ==> exists|u: Seq<Module>| {
            &&& u.len() == count
            &&& (forall|i: int| 0 <= i < count ==> #[trigger] module_from_record(u[i], b@, i))
            &&& r->Ok_0@ == u
        },
        b@.len() >= count * MODULE_SIZE && records_valid(b@, count) ==> r is Ok,
        r is Err && b@.len() >= count * MODULE_SIZE ==> exists|i: int| 0 <= i < count && #[trigger] module_result(b@.subrange(MODULE_SIZE * i + 16, MODULE_SIZE * i + MODULE_SIZE)) == Err::<(usize, Seq<u8>), BootError>(r->Err_0),
        r is Err ==> r->Err_0 == BootError::Truncated || b@.len() >= count * MODULE_SIZE,
        r is Ok ==> b@.len() >= count * MODULE_SIZE && records_valid(b@, count),
{
    let n = b.len();
    if (n as u64) / (MODULE_SIZE as u64) < count {
        proof {
            assert(n < count * 144) by (nonlinear_arith)
                requires n / 144 < count;
        }
        return Err(BootError::Truncated);
    }
    proof {
        assert(n >= count * 144) by (nonlinear_arith)
            requires n / 144 >= count;
    }
    let c = count as usize;
    let mut modules: Vec<Module> = Vec::new();
    let mut i: usize = 0;
    while i < c
        invariant
            n == b@.len(),
            c == count,
            n >= c * 144,
            i <= c,
            modules@.len() == i,
            forall|j: int| 0 <= j < i ==> #[trigger] module_from_record(modules@[j], b@, j),
        decreases c - i,
    {
        proof {
            assert(i * 144 + 144 <= c * 144) by (nonlinear_arith)
                requires i < c;
        }
        let off = MODULE_SIZE * i;
        let begin = crate::bytes::read_u64(b, off);
        let end = crate::bytes::read_u64(b, off + 8);
        let string = &b[off + 16..off + MODULE_SIZE];
        let m = match parse_module(string, begin, end) {
            Ok(m) => m,
            Err(e) => {
                proof {
                    assert(string@ =~= b@.subrange(MODULE_SIZE * i + 16, MODULE_SIZE * i + MODULE_SIZE));
                }
                return Err(e);
            },
        };
        proof {
            assert(string@ =~= b@.subrange(MODULE_SIZE * i + 16, MODULE_SIZE * i + MODULE_SIZE));
        }
        modules.push(m);
        i = i + 1;
    }
    proof {
        assert(modules@.len() == count);
        assert forall|i: int| 0 <= i < count implies #[trigger] module_result(b@.subrange(MODULE_SIZE * i + 16, MODULE_SIZE * i + MODULE_SIZE)) is Ok by {
            assert(module_from_record(modules@[i], b@, i));
        }
    }
    Ok(modules)
}


/// The position of the first boot tag whose identifier is `theid`, among the identifiers
/// of the tags in list order; `None` when no tag has it.
pub fn find_tag(ids: &[u64], theid: u64) -> (r: Option<usize>)
    ensures
        r is None <==> forall|i: int| 0 <= i < ids@.len() ==> ids@[i] != theid,
        r matches Some(i) ==> i < ids@.len() && ids@[i as int] == theid
            && forall|j: int| 0 <= j < i ==> ids@[j] != theid,
{
    let n = ids.len();
    let mut i: usize = 0;
    while i < n
        invariant
            n == ids@.len(),
            i <= n,
            forall|j: int| 0 <= j < i ==> ids@[j] != theid,
        decreases n - i,
    {
        if ids[i] == theid {
            return Some(i);
        }
        i = i + 1;
    }
    None
}

} // verus!
