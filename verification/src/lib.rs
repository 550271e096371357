//! Allocators for memory that the caller provides.
//!
//! An allocator is given regions of addresses and hands out parts of them
//! for requests of a size and an alignment. It works on addresses alone and
//! never touches the memory behind them. Two allocators are here: a bump
//! allocator, which moves a tip through one region and takes everything back
//! at once, and a linked-list allocator, which keeps a list of free regions,
//! serves a request from the first that fits and takes allocations back one
//! by one.

use vstd::multiset::Multiset;
use vstd::prelude::*;

pub mod bump;
pub mod free_list;
pub mod layout;
pub mod linked_list;
pub mod linked_list_allocator;
pub mod ptr_ext;
pub mod region;

use crate::layout::Layout;
use crate::ptr_ext::is_aligned;
use crate::region::{all_within, pairwise_disjoint, Region};

verus! {

/// What every allocator of this crate offers: it hands out regions of the
/// memory donated to it and takes them back.
pub trait Allocator {
    /// The invariant that every operation keeps.
    spec fn wf(&self) -> bool;

    /// The regions that were handed out and not yet returned.
    spec fn live(&self) -> Multiset<Region>;

    /// The regions that were donated to the allocator.
    spec fn pool(&self) -> Set<Region>;

    /// How many bytes a region handed out for `layout` has, where the
    /// allocator can serve such a request at all.
    spec fn granted(layout: Layout) -> Option<usize>;

    /// No two live allocations share a byte.
    proof fn lemma_live_disjoint(&self)
        requires
            self.wf(),
        ensures
            pairwise_disjoint(self.live()),
    ;

    /// Every live allocation lies inside a donated region.
    proof fn lemma_live_within_pool(&self)
        requires
            self.wf(),
        ensures
            all_within(self.live(), self.pool()),
    ;

    /// Hands out a region for `layout`, or reports that nothing fits.
    fn allocate(&mut self, layout: Layout) -> (r: Option<Region>)
        requires
            old(self).wf(),
            layout.wf(),
        ensures
            final(self).wf(),
            final(self).pool() == old(self).pool(),
            match r {
                Some(region) => {
                    &&& is_aligned(region.base as int, layout.align as int)
                    &&& Self::granted(layout) == Some(region.len)
                    &&& region.len >= layout.size
                    &&& region.end() <= usize::MAX
                    &&& forall|other: Region| #[trigger]
                        old(self).live().count(other) > 0 ==> region.disjoint(other)
                    &&& final(self).live() == old(self).live().insert(region)
                },
                None => final(self).live() == old(self).live(),
            },
    ;

    /// Takes back the region at `ptr` that was handed out for `layout`.
    fn dealloc(&mut self, ptr: usize, layout: Layout)
        requires
            old(self).wf(),
            layout.wf(),
            Self::granted(layout) matches Some(len) && old(self).live().count(
                (Region { base: ptr, len }),
            ) > 0,
        ensures
            final(self).wf(),
            final(self).pool() == old(self).pool(),
            final(self).live() == old(self).live().remove(
                (Region { base: ptr, len: Self::granted(layout).unwrap() }),
            ),
    ;
}

} // verus!
