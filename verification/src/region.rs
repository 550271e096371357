//! Regions of addresses, and what it means for them to lie apart or inside
//! one another.

use vstd::multiset::Multiset;
use vstd::prelude::*;

verus! {

/// A contiguous range of addresses: `len` bytes that start at `base`.
#[derive(Clone, Copy, Debug, PartialEq, Eq, Structural)]
pub struct Region {
    pub base: usize,
    pub len: usize,
}

impl Region {
    /// The address just past the last byte.
    pub open spec fn end(self) -> int {
        self.base + self.len
    }

    /// Whether `addr` is one of the bytes of this region.
    pub open spec fn has_byte(self, addr: int) -> bool {
        self.base <= addr < self.end()
    }

    /// Whether every byte of `other` is a byte of this region.
    pub open spec fn contains(self, other: Region) -> bool {
        self.base <= other.base && other.end() <= self.end()
    }

    /// Whether the two regions have no byte in common.
    pub open spec fn disjoint(self, other: Region) -> bool {
        self.len == 0 || other.len == 0 || self.end() <= other.base || other.end() <= self.base
    }

    pub fn new(base: usize, len: usize) -> (r: Region)
        ensures
            r.base == base,
            r.len == len,
    {
        Region { base, len }
    }
}

/// Two regions are disjoint exactly when no address is a byte of both.
pub proof fn lemma_disjoint_means_no_shared_byte(a: Region, b: Region)
    ensures
        a.disjoint(b) <==> forall|addr: int| !(#[trigger] a.has_byte(addr) && b.has_byte(addr)),
{
    if !a.disjoint(b) {
        let addr = if a.base <= b.base {
            b.base as int
        } else {
            a.base as int
        };
        assert(a.has_byte(addr) && b.has_byte(addr));
    }
}

/// Whether no two of the regions counted in `regions` share a byte. A region
/// counted twice is held against itself.
pub open spec fn pairwise_disjoint(regions: Multiset<Region>) -> bool {
    forall|a: Region, b: Region|
        #![trigger regions.count(a), regions.count(b)]
        regions.count(a) > 0 && regions.count(b) > 0 && (a != b || regions.count(a) >= 2)
            ==> a.disjoint(b)
}

/// Whether `region` lies inside one region of `pool`.
pub open spec fn within(region: Region, pool: Set<Region>) -> bool {
    exists|d: Region| #[trigger] pool.contains(d) && d.contains(region)
}

/// Whether each of the regions counted in `regions` lies inside one region of `pool`.
pub open spec fn all_within(regions: Multiset<Region>, pool: Set<Region>) -> bool {
    forall|r: Region| #[trigger] regions.count(r) > 0 ==> within(r, pool)
}

} // verus!
