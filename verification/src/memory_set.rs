//! The user address space of a process, page by page: which virtual pages
//! are mapped, and with which permission bits.
use vstd::prelude::*;
use std::collections::BTreeMap;

verus! {

broadcast use {vstd::std_specs::btree::group_btree_axioms, vstd::laws_cmp::group_laws_cmp};

/// The pages of `m` with those in `[s, e)` added, each with `perm`.
pub open spec fn with_range(m: Map<usize, u8>, s: usize, e: usize, perm: u8) -> Map<usize, u8> {
    Map::new(
        |v: usize| m.contains_key(v) || s <= v < e,
        |v: usize|
            if s <= v < e {
                perm
            } else {
                m[v]
            },
    )
}

/// The pages of `m` without those in `[s, e)`.
pub open spec fn without_range(m: Map<usize, u8>, s: usize, e: usize) -> Map<usize, u8> {
    Map::new(|v: usize| m.contains_key(v) && !(s <= v < e), |v: usize| m[v])
}

/// No page of `[s, e)` is mapped in `m`.
pub open spec fn range_unmapped(m: Map<usize, u8>, s: usize, e: usize) -> bool {
    forall|v: usize| s <= v < e ==> !#[trigger] m.contains_key(v)
}

/// Every page of `[s, e)` is mapped in `m`.
pub open spec fn range_mapped(m: Map<usize, u8>, s: usize, e: usize) -> bool {
    forall|v: usize| s <= v < e ==> #[trigger] m.contains_key(v)
}

/// The mapped pages of an address space, by virtual page number, with their
/// permission bits.
pub struct MemorySet {
    pages: BTreeMap<usize, u8>,
}

impl View for MemorySet {
    type V = Map<usize, u8>;

    closed spec fn view(&self) -> Map<usize, u8> {
        self.pages@
    }
}

impl MemorySet {
    /// An address space with no page mapped.
    pub fn new() -> (ms: Self)
        ensures
            ms@ == Map::<usize, u8>::empty(),
    {
        MemorySet { pages: BTreeMap::new() }
    }

    /// A copy of this address space, as a forked process gets it.
    pub fn from_existed_user(&self) -> (ms: Self)
        ensures
            ms@ == self@,
    {
        MemorySet { pages: self.pages.clone() }
    }

    /// Whether page `vpn` is mapped.
    pub fn is_mapped(&self, vpn: usize) -> (r: bool)
        ensures
            r == self@.contains_key(vpn),
    {
        self.pages.contains_key(&vpn)
    }

    /// The permission bits of page `vpn`, if it is mapped.
    pub fn permission(&self, vpn: usize) -> (r: Option<u8>)
        ensures
            r == if self@.contains_key(vpn) { Some(self@[vpn]) } else { None },
    {
        match self.pages.get(&vpn) {
            Some(p) => Some(*p),
            None => None,
        }
    }

    /// Maps the pages `[start_vpn, end_vpn)` with `perm`: 0, or -1 (and
    /// nothing changes) when one of them is mapped already.
    pub fn mmap(&mut self, start_vpn: usize, end_vpn: usize, perm: u8) -> (r: isize)
        ensures
            range_unmapped(old(self)@, start_vpn, end_vpn) ==> r == 0 && final(self)@ == with_range(
                old(self)@,
                start_vpn,
                end_vpn,
                perm,
            ),
            !range_unmapped(old(self)@, start_vpn, end_vpn) ==> r == -1 && final(self)@ == old(self)@,
    {
        let mut v = start_vpn;
        while v < end_vpn
            invariant
                start_vpn <= v,
                v <= end_vpn || v == start_vpn,
                self@ == old(self)@,
                forall|u: usize| start_vpn <= u < v ==> !#[trigger] self@.contains_key(u),
            decreases end_vpn - v,
        {
            if self.pages.contains_key(&v) {
                return -1;
            }
            v = v + 1;
        }
        let mut v = start_vpn;
        while v < end_vpn
            invariant
                start_vpn <= v,
                v <= end_vpn || v == start_vpn,
                range_unmapped(old(self)@, start_vpn, end_vpn),
                self@ == with_range(old(self)@, start_vpn, v, perm),
            decreases end_vpn - v,
        {
            self.pages.insert(v, perm);
            assert(self@ =~= with_range(old(self)@, start_vpn, (v + 1) as usize, perm));
            v = v + 1;
        }
        assert(self@ =~= with_range(old(self)@, start_vpn, end_vpn, perm));
        0
    }

    /// Unmaps the pages `[start_vpn, end_vpn)`: 0, or -1 (and nothing
    /// changes) when one of them is not mapped.
    pub fn munmap(&mut self, start_vpn: usize, end_vpn: usize) -> (r: isize)
        ensures
            range_mapped(old(self)@, start_vpn, end_vpn) ==> r == 0 && final(self)@ == without_range(
                old(self)@,
                start_vpn,
                end_vpn,
            ),
            !range_mapped(old(self)@, start_vpn, end_vpn) ==> r == -1 && final(self)@ == old(self)@,
            (exists|v: usize| start_vpn <= v < end_vpn && !#[trigger] old(self)@.contains_key(v))
                ==> r == -1 && final(self)@ == old(self)@,
            r == 0 ==> forall|v: usize| start_vpn <= v < end_vpn ==> #[trigger] old(self)@.contains_key(v)
                && !final(self)@.contains_key(v),
    {
        let mut v = start_vpn;
        while v < end_vpn
            invariant
                start_vpn <= v,
                v <= end_vpn || v == start_vpn,
                self@ == old(self)@,
                forall|u: usize| start_vpn <= u < v ==> #[trigger] self@.contains_key(u),
            decreases end_vpn - v,
        {
            if !self.pages.contains_key(&v) {
                return -1;
            }
            v = v + 1;
        }
        let mut v = start_vpn;
        while v < end_vpn
            invariant
                start_vpn <= v,
                v <= end_vpn || v == start_vpn,
                self@ == without_range(old(self)@, start_vpn, v),
            decreases end_vpn - v,
        {
            self.pages.remove(&v);
            assert(self@ =~= without_range(old(self)@, start_vpn, (v + 1) as usize));
            v = v + 1;
        }
        assert(self@ =~= without_range(old(self)@, start_vpn, end_vpn));
        0
    }
}

} // verus!
