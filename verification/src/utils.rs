//! Helpers on strings held in bytes.
use vstd::prelude::*;
use vstd::string::StringSliceAdditionalSpecFns;

verus! {

/// The error of `std::str::from_utf8`.
#[verifier::external_type_specification]
#[verifier::external_body]
pub struct ExUtf8Error(std::str::Utf8Error);

/// `std::str::from_utf8`: the bytes as a string slice when they are valid UTF-8, an error
/// otherwise.
#[verifier::external_body]
pub(crate) fn utf8_str(v: &[u8]) -> (r: Result<&str, std::str::Utf8Error>)
    ensures
        r is Ok <==> vstd::utf8::valid_utf8(v@),
        r matches Ok(s) ==> s.spec_bytes() == v@,
{
    std::str::from_utf8(v)
}

/// Length of the part of `b` before its first NUL byte (all of it if none).
pub open spec fn nul_position(b: Seq<u8>) -> int {
    if exists|i: int| 0 <= i < b.len() && b[i] == 0 {
        choose|i: int| 0 <= i < b.len() && b[i] == 0 && forall|j: int| 0 <= j < i ==> b[j] != 0
    } else {
        b.len() as int
    }
}

/// Index of the first NUL byte of `b`, or its length.
pub(crate) fn find_nul(b: &[u8]) -> (r: usize)
    ensures
        r <= b@.len(),
        r < b@.len() ==> b@[r as int] == 0,
        forall|j: int| 0 <= j < r ==> b@[j] != 0,
        r == nul_position(b@),
{
    let n = b.len();
    let mut i: usize = 0;
    while i < n
        invariant
            n == b@.len(),
            i <= n,
            forall|j: int| 0 <= j < i ==> b@[j] != 0,
        decreases n - i,
    {
        if b[i] == 0 {
            proof {
                let c = choose|k: int| 0 <= k < b@.len() && b@[k] == 0 && forall|j: int| 0 <= j < k ==> b@[j] != 0;
                if c < i {
                    assert(b@[c] != 0);
                } else if c > i {
                    assert(b@[i as int] != 0);
                }
            }
            return i;
        }
        i = i + 1;
    }
    i
}

/// The string held in `b` up to its first NUL byte (all of `b` without one), when that
/// part is UTF-8.
pub fn str_from_u8_nul_utf8(b: &[u8]) -> (r: Result<&str, std::str::Utf8Error>)
    ensures
        r is Ok <==> vstd::utf8::valid_utf8(b@.take(nul_position(b@))),
        r matches Ok(s) ==> s.spec_bytes() == b@.take(nul_position(b@)),
{
    let end = find_nul(b);
    let (head, _) = b.split_at(end);
    proof {
        assert(head@ =~= b@.take(end as int));
    }
    utf8_str(head)
}

} // verus!
