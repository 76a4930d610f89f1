//! Hash collections of the `hashbrown` crate, held behind trusted wrappers.
//!
//! Each collection sits in a private field of a struct that Verus does not look into;
//! what the collection holds is named by an uninterpreted spec function, and each
//! method used by the kernel gets a wrapper whose contract says, over that name, what
//! `hashbrown`'s source shows the method does.
use vstd::prelude::*;

verus! {

/// A set of PIDs, held in a `hashbrown::HashSet<usize>`.
#[verifier::external_body]
pub struct PidSet {
    inner: hashbrown::HashSet<usize>,
}

/// The PIDs held by a `PidSet`.
pub uninterp spec fn pid_set_view(s: PidSet) -> Set<usize>;

impl PidSet {
    /// `hashbrown::HashSet::new`: an empty set.
    #[verifier::external_body]
    pub fn new() -> (r: PidSet)
        ensures
            pid_set_view(r) == Set::<usize>::empty(),
    {
        PidSet { inner: hashbrown::HashSet::new() }
    }

    /// `hashbrown::HashSet::contains`: whether `v` is in the set.
    #[verifier::external_body]
    pub fn contains(&self, v: usize) -> (r: bool)
        ensures
            r == pid_set_view(*self).contains(v),
    {
        self.inner.contains(&v)
    }

    /// `hashbrown::HashSet::insert`: adds `v`; true when it was not there.
    #[verifier::external_body]
    pub fn insert(&mut self, v: usize) -> (r: bool)
        ensures
            pid_set_view(*final(self)) == pid_set_view(*old(self)).insert(v),
            r == !pid_set_view(*old(self)).contains(v),
    {
        self.inner.insert(v)
    }

    /// `hashbrown::HashSet::remove`: removes `v`; true when it was there.
    #[verifier::external_body]
    pub fn remove(&mut self, v: usize) -> (r: bool)
        ensures
            pid_set_view(*final(self)) == pid_set_view(*old(self)).remove(v),
            r == pid_set_view(*old(self)).contains(v),
    {
        self.inner.remove(&v)
    }
}

/// A map from `usize` to `usize`, held in a `hashbrown::HashMap<usize, usize>`.
#[verifier::external_body]
pub struct UsizeMap {
    inner: hashbrown::HashMap<usize, usize>,
}

/// The pairs held by a `UsizeMap`.
pub uninterp spec fn usize_map_view(m: UsizeMap) -> Map<usize, usize>;

impl UsizeMap {
    /// `hashbrown::HashMap::new`: an empty map.
    #[verifier::external_body]
    pub fn new() -> (r: UsizeMap)
        ensures
            usize_map_view(r).dom().is_empty(),
    {
        UsizeMap { inner: hashbrown::HashMap::new() }
    }

    /// `hashbrown::HashMap::contains_key`: whether `k` has a value.
    #[verifier::external_body]
    pub fn contains_key(&self, k: usize) -> (r: bool)
        ensures
            r == usize_map_view(*self).contains_key(k),
    {
        self.inner.contains_key(&k)
    }

    /// `hashbrown::HashMap::insert`: sets the value of `k` to `v`; gives back the former
    /// value, if any.
    #[verifier::external_body]
    pub fn insert(&mut self, k: usize, v: usize) -> (r: Option<usize>)
        ensures
            usize_map_view(*final(self)) == usize_map_view(*old(self)).insert(k, v),
            r == (if usize_map_view(*old(self)).contains_key(k) {
                Some(usize_map_view(*old(self))[k])
            } else {
                None
            }),
    {
        self.inner.insert(k, v)
    }

    /// `hashbrown::HashMap::get`: the value of `k`, if any.
    #[verifier::external_body]
    pub fn get(&self, k: usize) -> (r: Option<usize>)
        ensures
            r == (if usize_map_view(*self).contains_key(k) {
                Some(usize_map_view(*self)[k])
            } else {
                None
            }),
    {
        self.inner.get(&k).copied()
    }
}

/// A map from names to addresses, held in a `hashbrown::HashMap<String, u64>`.
#[verifier::external_body]
pub struct NameMap {
    inner: hashbrown::HashMap<String, u64>,
}

/// The pairs held by a `NameMap`, each name taken as its characters.
pub uninterp spec fn name_map_view(m: NameMap) -> Map<Seq<char>, u64>;

impl NameMap {
    /// `hashbrown::HashMap::new`: an empty map.
    #[verifier::external_body]
    pub fn new() -> (r: NameMap)
        ensures
            name_map_view(r).dom().is_empty(),
    {
        NameMap { inner: hashbrown::HashMap::new() }
    }

    /// `hashbrown::HashMap::insert`: sets the value of `k` to `v`.
    #[verifier::external_body]
    pub fn insert(&mut self, k: String, v: u64) -> (r: Option<u64>)
        ensures
            name_map_view(*final(self)) == name_map_view(*old(self)).insert(k@, v),
            r == (if name_map_view(*old(self)).contains_key(k@) {
                Some(name_map_view(*old(self))[k@])
            } else {
                None
            }),
    {
        self.inner.insert(k, v)
    }

    /// `hashbrown::HashMap::get`: the value of `k`, if any.
    #[verifier::external_body]
    pub fn get(&self, k: &String) -> (r: Option<u64>)
        ensures
            r == (if name_map_view(*self).contains_key(k@) {
                Some(name_map_view(*self)[k@])
            } else {
                None
            }),
    {
        self.inner.get(k).copied()
    }
}


/// A map from page addresses to page addresses, held in a `hashbrown::HashMap<u64, u64>`.
#[verifier::external_body]
pub struct PageMap {
    inner: hashbrown::HashMap<u64, u64>,
}

/// The pairs held by a `PageMap`.
pub uninterp spec fn page_map_view(m: PageMap) -> Map<u64, u64>;

impl PageMap {
    /// `hashbrown::HashMap::new`: an empty map.
    #[verifier::external_body]
    pub fn new() -> (r: PageMap)
        ensures
            page_map_view(r).dom().is_empty(),
            page_map_view(r).dom().finite(),
    {
        PageMap { inner: hashbrown::HashMap::new() }
    }

    /// `hashbrown::HashMap::contains_key`: whether `k` has a value.
    #[verifier::external_body]
    pub fn contains_key(&self, k: u64) -> (r: bool)
        ensures
            r == page_map_view(*self).contains_key(k),
    {
        self.inner.contains_key(&k)
    }

    /// `hashbrown::HashMap::insert`: sets the value of `k` to `v`; gives back the former
    /// value, if any.
    #[verifier::external_body]
    pub fn insert(&mut self, k: u64, v: u64) -> (r: Option<u64>)
        ensures
            page_map_view(*final(self)) == page_map_view(*old(self)).insert(k, v),
            r == (if page_map_view(*old(self)).contains_key(k) {
                Some(page_map_view(*old(self))[k])
            } else {
                None
            }),
    {
        self.inner.insert(k, v)
    }

    /// `hashbrown::HashMap::get`: the value of `k`, if any.
    #[verifier::external_body]
    pub fn get(&self, k: u64) -> (r: Option<u64>)
        ensures
            r == (if page_map_view(*self).contains_key(k) {
                Some(page_map_view(*self)[k])
            } else {
                None
            }),
    {
        self.inner.get(&k).copied()
    }

    /// `hashbrown::HashMap::iter`, collected: every pair of the map once, in an order
    /// that the map does not promise.
    #[verifier::external_body]
    pub fn entries(&self) -> (r: Vec<(u64, u64)>)
        ensures
            r@.len() == page_map_view(*self).dom().len(),
            forall|i: int| 0 <= i < r@.len() ==> page_map_view(*self).contains_key(#[trigger] r@[i].0)
                && page_map_view(*self)[r@[i].0] == r@[i].1,
            forall|i: int, j: int| 0 <= i < j < r@.len() ==> #[trigger] r@[i].0 != #[trigger] r@[j].0,
            forall|k: u64| page_map_view(*self).contains_key(k) ==> exists|i: int| 0 <= i < r@.len() && #[trigger] r@[i].0 == k,
    {
        self.inner.iter().map(|(k, v)| (*k, *v)).collect()
    }
}

} // verus!
