//! A variable-sized bitmap stored in bytes, least significant bit first.
use vstd::prelude::*;

verus! {

/// Whether bit `off` (0..8) of `byte` is set.
pub open spec fn byte_bit(byte: u8, off: int) -> bool {
    (byte >> (off as u8)) & 1u8 == 1u8
}

/// Whether bit `n` of the byte sequence `bytes` is set (bit `n % 8` of byte `n / 8`).
pub open spec fn bit_of(bytes: Seq<u8>, n: int) -> bool {
    byte_bit(bytes[n / 8], n % 8)
}

proof fn lemma_byte_facts()
    ensures
        forall|b: u8, off: u8| off < 8 ==> #[trigger] byte_bit(b | (1u8 << off), off as int),
        forall|b: u8, off: u8| off < 8 ==> !#[trigger] byte_bit(b & !(1u8 << off), off as int),
        forall|b: u8, off: u8, o: u8|
            off < 8 && o < 8 && o != off ==> #[trigger] byte_bit(b | (1u8 << off), o as int) == byte_bit(b, o as int),
        forall|b: u8, off: u8, o: u8|
            off < 8 && o < 8 && o != off ==> #[trigger] byte_bit(b & !(1u8 << off), o as int) == byte_bit(b, o as int),
        forall|off: u8| off < 8 ==> !#[trigger] byte_bit(0u8, off as int),
        forall|b: u8, off: u8| off < 8 ==> ((#[trigger] (b & (1u8 << off))) != 0u8) == byte_bit(b, off as int),
{
    assert(
        (forall|b: u8, off: u8| off < 8 ==> #[trigger] ((b | (1u8 << off)) >> off) & 1u8 == 1u8)
        && (forall|b: u8, off: u8| off < 8 ==> #[trigger] ((b & !(1u8 << off)) >> off) & 1u8 != 1u8)
        && (forall|b: u8, off: u8, o: u8| off < 8 && o < 8 && o != off ==> #[trigger] ((b | (1u8 << off)) >> o) & 1u8 == (b >> o) & 1u8)
        && (forall|b: u8, off: u8, o: u8| off < 8 && o < 8 && o != off ==> #[trigger] ((b & !(1u8 << off)) >> o) & 1u8 == (b >> o) & 1u8)
        && (forall|off: u8| off < 8 ==> #[trigger] (0u8 >> off) & 1u8 != 1u8)
        && (forall|b: u8, off: u8| off < 8 ==> (#[trigger] (b & (1u8 << off)) != 0u8) == ((b >> off) & 1u8 == 1u8))
    ) by (bit_vector);
}

/// A bitmap of `sz` bits held in bytes.
pub struct Bitmap {
    bytes: Vec<u8>,
    sz: usize,
}

impl Bitmap {
    /// The bytes hold at least `sz` bits.
    pub closed spec fn wf(&self) -> bool {
        self.sz <= self.bytes@.len() * 8
    }

    /// The bits of the bitmap, in order.
    pub closed spec fn view(&self) -> Seq<bool> {
        Seq::new(self.sz as nat, |n: int| bit_of(self.bytes@, n))
    }

    /// The raw bytes of the bitmap.
    pub closed spec fn raw(&self) -> Seq<u8> {
        self.bytes@
    }

    /// A bitmap with the same bytes and bits.
    pub fn duplicate(&self) -> (r: Bitmap)
        requires
            self.wf(),
        ensures
            r.wf(),
            r@ == self@,
            r.raw() == self.raw(),
    {
        let mut bytes: Vec<u8> = Vec::new();
        let n = self.bytes.len();
        let mut i: usize = 0;
        while i < n
            invariant
                n == self.bytes@.len(),
                i <= n,
                bytes@ == self.bytes@.take(i as int),
            decreases n - i,
        {
            bytes.push(self.bytes[i]);
            i = i + 1;
            proof {
                assert(bytes@ =~= self.bytes@.take(i as int));
            }
        }
        proof {
            assert(bytes@ =~= self.bytes@);
        }
        let r = Bitmap { bytes, sz: self.sz };
        assert(r@ =~= self@);
        r
    }

    /// The number of bits.
    pub fn len(&self) -> (r: usize)
        ensures
            r == self@.len(),
    {
        self.sz
    }

    /// A cleared bitmap of `sz` bits, held in `(sz + 7) / 8` bytes.
    pub fn new(sz: usize) -> (r: Bitmap)
        requires
            sz + 7 <= usize::MAX,
        ensures
            r.wf(),
            r@ == Seq::new(sz as nat, |i: int| false),
            r.raw().len() == (sz + 7) / 8,
    {
        let nbytes = (sz + 7) / 8;
        let mut bytes: Vec<u8> = Vec::new();
        let mut i: usize = 0;
        while i < nbytes
            invariant
                i <= nbytes,
                bytes@.len() == i,
                forall|j: int| 0 <= j < i ==> bytes@[j] == 0u8,
            decreases nbytes - i,
        {
            bytes.push(0u8);
            i = i + 1;
        }
        let r = Bitmap { bytes, sz };
        proof {
            lemma_byte_facts();
        }
        assert forall|n: int| 0 <= n < sz implies !bit_of(r.bytes@, n) by {
            assert(!byte_bit(0u8, ((n % 8) as u8) as int));
        }
        assert(r@ =~= Seq::new(sz as nat, |i: int| false));
        r
    }

    /// The value of bit `n`, or an error when `n` is out of range.
    pub fn get(&self, n: usize) -> (r: Result<bool, ()>)
        requires
            self.wf(),
        ensures
            n >= self@.len() <==> r is Err,
            n < self@.len() ==> r == Ok::<bool, ()>(self@[n as int]),
    {
        if n >= self.sz {
            return Err(());
        }
        let byte: u8 = self.bytes[n / 8];
        let off: u8 = (n % 8) as u8;
        let b = byte & (1u8 << off) != 0;
        proof {
            lemma_byte_facts();
        }
        assert(b == byte_bit(byte, off as int));
        Ok(b)
    }

    /// Sets bit `n` to `v`, or returns an error when `n` is out of range.
    pub fn set(&mut self, n: usize, v: bool) -> (r: Result<(), ()>)
        requires
            old(self).wf(),
        ensures
            final(self).wf(),
            final(self).raw().len() == old(self).raw().len(),
            n >= old(self)@.len() <==> r is Err,
            n >= old(self)@.len() ==> *final(self) == *old(self),
            n < old(self)@.len() ==> final(self)@ == old(self)@.update(n as int, v),
    {
        if n >= self.sz {
            return Err(());
        }
        let idx = n / 8;
        let off: u8 = (n % 8) as u8;
        let byte: u8 = self.bytes[idx];
        let nb: u8 = if v { byte | (1u8 << off) } else { byte & !(1u8 << off) };
        proof {
            lemma_byte_facts();
            assert(byte_bit(nb, off as int) == v);
        }
        let ghost old_bytes = self.bytes@;
        self.bytes.set(idx, nb);
        proof {
            assert forall|m: int| 0 <= m < self.sz implies bit_of(self.bytes@, m) == (if m == n { v } else { bit_of(old_bytes, m) }) by {
                if m / 8 == idx as int {
                    let o = (m % 8) as u8;
                    if m != n {
                        assert(o != off);
                        if v {
                            assert(byte_bit(byte | (1u8 << off), o as int) == byte_bit(byte, o as int));
                        } else {
                            assert(byte_bit(byte & !(1u8 << off), o as int) == byte_bit(byte, o as int));
                        }
                    }
                } else {
                    assert(self.bytes@[m / 8] == old_bytes[m / 8]);
                }
            }
            assert(self@ =~= old(self)@.update(n as int, v));
        }
        Ok(())
    }
}

} // verus!
