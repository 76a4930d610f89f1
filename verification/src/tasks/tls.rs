//! Thread-local storage: a task's keys and their values.
use vstd::prelude::*;

verus! {

/// The TLS keys of a task; key `k` is the index of its value.
pub struct TLS {
    keys: Vec<usize>,
}

impl TLS {
    /// The values, indexed by key.
    pub closed spec fn view(&self) -> Seq<usize> {
        self.keys@
    }

    /// No keys.
    pub fn new() -> (r: TLS)
        ensures
            r@.len() == 0,
    {
        TLS { keys: Vec::new() }
    }

    /// The number of keys made so far.
    pub fn len(&self) -> (r: usize)
        ensures
            r == self@.len(),
    {
        self.keys.len()
    }

    /// A new key, whose value is 0 at first.
    pub fn create(&mut self) -> (r: usize)
        ensures
            r == old(self)@.len(),
            final(self)@ == old(self)@.push(0),
    {
        let key = self.keys.len();
        self.keys.push(0);
        key
    }

    /// Sets the value of `key`.
    pub fn set(&mut self, key: usize, val: usize)
        requires
            key < old(self)@.len(),
        ensures
            final(self)@ == old(self)@.update(key as int, val),
    {
        self.keys.set(key, val);
    }

    /// The value of `key`.
    pub fn get(&self, key: usize) -> (r: usize)
        requires
            key < self@.len(),
        ensures
            r == self@[key as int],
    {
        self.keys[key]
    }

    /// Destroys `key`; no destructors run and the key keeps its slot.
    pub fn destroy(&mut self, key: usize)
        ensures
            final(self)@ == old(self)@,
    {
    }
}


/// Reading a key after setting it gives back the value set; the other keys keep theirs.
pub proof fn law_tls_get_after_set(vals: Seq<usize>, key: int, val: usize, other: int)
    requires
        0 <= key < vals.len(),
        0 <= other < vals.len(),
        other != key,
    ensures
        vals.update(key, val)[key] == val,
        vals.update(key, val)[other] == vals[other],
        vals.update(key, val).len() == vals.len(),
{
}

} // verus!
