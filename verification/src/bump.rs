//! The bump allocator.

use vstd::arithmetic::power2::is_pow2;
use vstd::multiset::Multiset;
use vstd::prelude::*;

use crate::layout::Layout;
use crate::ptr_ext::{is_aligned, lemma_round_up_is_least, round_up, PtrExt};
use crate::region::{pairwise_disjoint, within, Region};
use crate::Allocator as _;

verus! {

/// Hands out memory from one region by moving a tip forward. Memory comes
/// back only when every allocation has been returned.
pub struct Allocator {
    region: Region,
    tip: usize,
    allocations: u64,
    live: Ghost<Multiset<Region>>,
}

impl Allocator {
    /// The region the allocator was made with.
    pub closed spec fn region(&self) -> Region {
        self.region
    }

    /// The next address that was not handed out.
    pub closed spec fn tip(&self) -> usize {
        self.tip
    }

    /// How many allocations were handed out and not yet returned.
    pub closed spec fn outstanding(&self) -> u64 {
        self.allocations
    }

    /// What `allocate` returns for `layout` in this state.
    pub open spec fn next_alloc(&self, layout: Layout) -> Option<Region> {
        let start = round_up(self.tip() as int, layout.align as int);
        if start + layout.size <= self.region().end() && self.outstanding() < u64::MAX {
            Some(Region { base: start as usize, len: layout.size })
        } else {
            None
        }
    }

    /// The counter counts the live allocations.
    pub proof fn lemma_outstanding_counts_live(&self)
        requires
            self.wf(),
        ensures
            self.outstanding() == self.live().len(),
    {
    }

    /// Every live allocation lies between the region's base and the tip, and
    /// the tip lies inside the region.
    pub proof fn lemma_live_below_tip(&self)
        requires
            self.wf(),
        ensures
            self.region().end() <= usize::MAX,
            self.region().base <= self.tip() <= self.region().end(),
            forall|r: Region| #[trigger]
                self.live().count(r) > 0 ==> self.region().base <= r.base && r.end() <= self.tip(),
    {
    }

    /// Once every allocation has been returned, the tip is back at the
    /// region's base: the next allocation starts at the base rounded up to
    /// its alignment, and at the base itself where the base is so aligned.
    pub proof fn lemma_reset(&self, layout: Layout)
        requires
            self.wf(),
            layout.wf(),
            self.outstanding() == 0,
        ensures
            self.tip() == self.region().base,
            self.next_alloc(layout) matches Some(r) ==> r.base == round_up(
                self.region().base as int,
                layout.align as int,
            ),
            is_aligned(self.region().base as int, layout.align as int) ==> self.next_alloc(layout)
                == if layout.size <= self.region().len {
                Some(Region { base: self.region().base, len: layout.size })
            } else {
                None
            },
    {
        reveal(is_pow2);
        lemma_round_up_is_least(self.tip() as int, layout.align as int);
    }

    /// An allocator over `region` with nothing handed out.
    pub fn new(region: Region) -> (r: Allocator)
        requires
            region.end() <= usize::MAX,
        ensures
            r.wf(),
            r.region() == region,
            r.tip() == region.base,
            r.outstanding() == 0,
            r.live() == Multiset::<Region>::empty(),
    {
        Allocator { region, tip: region.base, allocations: 0, live: Ghost(Multiset::empty()) }
    }

    /// How many allocations were handed out and not yet returned.
    pub fn allocations(&self) -> (r: u64)
        ensures
            r == self.outstanding(),
    {
        self.allocations
    }
}

impl crate::Allocator for Allocator {
    closed spec fn wf(&self) -> bool {
        &&& self.region.end() <= usize::MAX
        &&& self.region.base <= self.tip <= self.region.end()
        &&& self.allocations == self.live@.len()
        &&& self.allocations == 0 ==> self.tip == self.region.base
        &&& forall|r: Region| #[trigger]
            self.live@.count(r) > 0 ==> self.region.base <= r.base && r.end() <= self.tip
        &&& pairwise_disjoint(self.live@)
    }

    closed spec fn live(&self) -> Multiset<Region> {
        self.live@
    }

    open spec fn pool(&self) -> Set<Region> {
        set![self.region()]
    }

    open spec fn granted(layout: Layout) -> Option<usize> {
        Some(layout.size)
    }

    proof fn lemma_live_disjoint(&self) {
    }

    proof fn lemma_live_within_pool(&self) {
        assert forall|r: Region| #[trigger] self.live().count(r) > 0 implies within(
            r,
            self.pool(),
        ) by {
            assert(self.pool().contains(self.region()) && self.region().contains(r));
        }
    }

    fn allocate(&mut self, layout: Layout) -> (r: Option<Region>)
        ensures
            r == old(self).next_alloc(layout),
            final(self).region() == old(self).region(),
            match r {
                Some(region) => final(self).tip() == region.end() && final(self).outstanding()
                    == old(self).outstanding() + 1,
                None => final(self).tip() == old(self).tip() && final(self).outstanding() == old(
                    self,
                ).outstanding(),
            },
    {
        let alloc_start: usize = match self.tip.try_align_up(layout.align) {
            Some(start) => start,
            None => { return None; },
        };
        let alloc_end: usize = match alloc_start.checked_add(layout.size) {
            Some(end) => end,
            None => { return None; },
        };
        if alloc_end > self.region.base + self.region.len {
            return None;
        }
        let allocations: u64 = match self.allocations.checked_add(1) {
            Some(n) => n,
            None => { return None; },
        };
        let region = Region { base: alloc_start, len: layout.size };
        proof {
            reveal(is_pow2);
            lemma_round_up_is_least(self.tip as int, layout.align as int);
        }
        self.allocations = allocations;
        self.tip = alloc_end;
        self.live = Ghost(self.live@.insert(region));
        Some(region)
    }

    fn dealloc(&mut self, ptr: usize, layout: Layout)
        ensures
            final(self).region() == old(self).region(),
            final(self).outstanding() == old(self).outstanding() - 1,
            final(self).tip() == if final(self).outstanding() == 0 {
                old(self).region().base
            } else {
                old(self).tip()
            },
    {
        let ghost freed = Region { base: ptr, len: layout.size };
        self.allocations -= 1;
        self.live = Ghost(self.live@.remove(freed));
        if self.allocations == 0 {
            self.tip = self.region.base;
        }
    }
}

} // verus!
