//! The free list of the linked-list allocator as a sequence of regions:
//! what a request takes from it, what a returned allocation adds to it, and
//! the laws that follow.

use vstd::arithmetic::power2::is_pow2;
use vstd::prelude::*;

use crate::layout::Layout;
use crate::ptr_ext::{
    is_aligned, lemma_aligned_to_divisor, lemma_pow2_divides, lemma_round_up_is_least, round_up,
};
use crate::region::Region;

verus! {

/// The bytes that the header of a free region takes: a length and a link.
pub const NODE_SIZE: usize = 16;

/// The alignment of the header of a free region.
pub const NODE_ALIGN: usize = 8;

/// Whether `region` can stand on the free list: its base can hold a header,
/// it is long enough for one, and it ends inside the address space.
pub open spec fn can_hold_node(region: Region) -> bool {
    &&& is_aligned(region.base as int, NODE_ALIGN as int)
    &&& region.len >= NODE_SIZE
    &&& region.end() <= usize::MAX
}

/// Whether every region of `free` can stand on the free list.
pub open spec fn all_hold_nodes(free: Seq<Region>) -> bool {
    forall|i: int| 0 <= i < free.len() ==> can_hold_node(#[trigger] free[i])
}

/// The layout that a request for `layout` is served with: the alignment is
/// raised to that of a header, the size is padded to a multiple of the
/// alignment and then raised to the size of a header. There is none where
/// the padded size does not fit a `usize`.
pub open spec fn adjusted(layout: Layout) -> Option<Layout> {
    let align = if layout.align < NODE_ALIGN {
        NODE_ALIGN
    } else {
        layout.align
    };
    let padded = round_up(layout.size as int, align as int);
    if padded > usize::MAX {
        None
    } else if padded < NODE_SIZE {
        Some(Layout { size: NODE_SIZE, align })
    } else {
        Some(Layout { size: padded as usize, align })
    }
}

/// The alignment of a header is a power of two.
pub proof fn lemma_node_align_is_pow2()
    ensures
        is_pow2(NODE_ALIGN as int),
{
    reveal_with_fuel(is_pow2, 4);
}

/// What adjustment gives: a well-formed layout that is no smaller and no
/// less aligned than the request, whose alignment is a multiple of both the
/// requested one and that of a header, and whose size is a multiple of the
/// alignment of a header and at least the size of one. It pads by less than
/// the alignment, unless it raises the size to that of a header. It leaves
/// a layout as it is exactly where the layout has all this already.
pub proof fn lemma_adjusted(layout: Layout)
    requires
        layout.wf(),
    ensures
        adjusted(layout) matches Some(adj) ==> {
            &&& adj.wf()
            &&& adj.size >= layout.size
            &&& adj.size >= NODE_SIZE
            &&& adj.size < layout.size + adj.align || adj.size == NODE_SIZE
            &&& adj.align >= layout.align
            &&& adj.align >= NODE_ALIGN
            &&& is_aligned(adj.align as int, layout.align as int)
            &&& is_aligned(adj.align as int, NODE_ALIGN as int)
            &&& is_aligned(adj.size as int, NODE_ALIGN as int)
        },
        adjusted(layout) == Some(layout) <==> layout.align >= NODE_ALIGN && layout.size >= NODE_SIZE
            && is_aligned(layout.size as int, layout.align as int),
{
    lemma_node_align_is_pow2();
    let align: int = if layout.align < NODE_ALIGN {
        NODE_ALIGN as int
    } else {
        layout.align as int
    };
    lemma_pow2_divides(layout.align as int, layout.align as int);
    if layout.align < NODE_ALIGN {
        lemma_pow2_divides(layout.align as int, NODE_ALIGN as int);
    } else {
        lemma_pow2_divides(NODE_ALIGN as int, layout.align as int);
    }
    lemma_round_up_is_least(layout.size as int, align);
    let padded = round_up(layout.size as int, align);
    if NODE_SIZE <= padded <= usize::MAX {
        lemma_aligned_to_divisor(padded, align, NODE_ALIGN as int);
    }
}

/// The allocation that the free region `free` gives for `layout`: it starts
/// at the first aligned address of the region, and what is left behind it is
/// nothing or enough for a header.
pub open spec fn fit(free: Region, layout: Layout) -> Option<Region> {
    let start = round_up(free.base as int, layout.align as int);
    let excess = free.end() - (start + layout.size);
    if excess == 0 || excess >= NODE_SIZE {
        Some(Region { base: start as usize, len: layout.size })
    } else {
        None
    }
}

/// The allocation that a region gives lies inside the region, is aligned
/// and as long as asked, and what is left behind it is nothing or can hold a
/// header: no sliver is ever cut off.
pub proof fn lemma_fit(free: Region, layout: Layout)
    requires
        layout.wf(),
        free.end() <= usize::MAX,
    ensures
        fit(free, layout) matches Some(region) ==> {
            &&& free.contains(region)
            &&& is_aligned(region.base as int, layout.align as int)
            &&& region.base == round_up(free.base as int, layout.align as int)
            &&& region.len == layout.size
            &&& region.end() == free.end() || region.end() + NODE_SIZE <= free.end()
        },
{
    lemma_pow2_divides(layout.align as int, layout.align as int);
    lemma_round_up_is_least(free.base as int, layout.align as int);
}

/// The index of the first region of `free` that gives an allocation for
/// `layout`, or the length of `free` where none does.
pub open spec fn first_fit(free: Seq<Region>, layout: Layout) -> int
    decreases free.len(),
{
    if free.len() == 0 || fit(free[0], layout).is_some() {
        0
    } else {
        1 + first_fit(free.skip(1), layout)
    }
}

/// `first_fit` is the least index whose region fits.
pub proof fn lemma_first_fit(free: Seq<Region>, layout: Layout)
    ensures
        0 <= first_fit(free, layout) <= free.len(),
        forall|j: int|
            0 <= j < first_fit(free, layout) ==> (#[trigger] fit(free[j], layout)).is_none(),
        first_fit(free, layout) < free.len() ==> fit(
            free[first_fit(free, layout)],
            layout,
        ).is_some(),
    decreases free.len(),
{
    if free.len() > 0 && fit(free[0], layout).is_none() {
        let tail = free.skip(1);
        lemma_first_fit(tail, layout);
        assert forall|j: int| 0 <= j < first_fit(free, layout) implies (#[trigger] fit(
            free[j],
            layout,
        )).is_none() by {
            if j > 0 {
                assert(free[j] == tail[j - 1]);
            }
        }
    }
}

/// The free list `free` with `region` put in front of it.
pub open spec fn pushed(free: Seq<Region>, region: Region) -> Seq<Region> {
    seq![region].add(free)
}

/// What a request for `layout` gets from the free list `free`, and the free
/// list that it leaves. The request is served with the adjusted layout by the
/// first region that fits; that region leaves the list, and what lies behind
/// the allocation in it goes to the front of the list.
pub open spec fn served(free: Seq<Region>, layout: Layout) -> (Option<Region>, Seq<Region>) {
    match adjusted(layout) {
        None => (None, free),
        Some(adj) => {
            let i = first_fit(free, adj);
            if i < free.len() {
                let region = fit(free[i], adj).unwrap();
                let tail = Region {
                    base: region.end() as usize,
                    len: (free[i].end() - region.end()) as usize,
                };
                (
                    Some(region),
                    if tail.len > 0 {
                        pushed(free.remove(i), tail)
                    } else {
                        free.remove(i)
                    },
                )
            } else {
                (None, free)
            }
        },
    }
}

/// Serving a request keeps the free list able to hold its headers, and the
/// allocation can hold one too, so that it can come back. The allocation is
/// aligned as asked, has the adjusted size, which is at least the size
/// asked for, and lies inside the region that served it.
pub proof fn lemma_served(free: Seq<Region>, layout: Layout)
    requires
        layout.wf(),
        all_hold_nodes(free),
    ensures
        match served(free, layout) {
            (Some(region), after) => {
                let adj = adjusted(layout).unwrap();
                let source = free[first_fit(free, adj)];
                &&& all_hold_nodes(after)
                &&& can_hold_node(region)
                &&& source.contains(region)
                &&& region.base == round_up(source.base as int, adj.align as int)
                &&& is_aligned(region.base as int, layout.align as int)
                &&& region.len == adj.size
                &&& region.len >= layout.size
            },
            (None, after) => after == free,
        },
{
    if let Some(adj) = adjusted(layout) {
        lemma_adjusted(layout);
        lemma_first_fit(free, adj);
        let i = first_fit(free, adj);
        if i < free.len() {
            let source = free[i];
            lemma_fit(source, adj);
            let region = fit(source, adj).unwrap();
            lemma_pow2_divides(layout.align as int, layout.align as int);
            lemma_aligned_to_divisor(region.base as int, adj.align as int, NODE_ALIGN as int);
            lemma_aligned_to_divisor(region.base as int, adj.align as int, layout.align as int);
            let tail = Region {
                base: region.end() as usize,
                len: (source.end() - region.end()) as usize,
            };
            let rest = free.remove(i);
            if tail.len > 0 {
                let after = pushed(rest, tail);
                assert forall|j: int| 0 <= j < after.len() implies can_hold_node(
                    #[trigger] after[j],
                ) by {
                    if j > 0 {
                        assert(after[j] == rest[j - 1]);
                    }
                }
            }
        }
    }
}

/// The number of bytes on the free list `free`.
pub open spec fn free_bytes(free: Seq<Region>) -> nat
    decreases free.len(),
{
    if free.len() == 0 {
        0
    } else {
        free[0].len as nat + free_bytes(free.skip(1))
    }
}

/// A region put in front of the list adds its bytes to the free ones.
pub proof fn lemma_free_bytes_pushed(free: Seq<Region>, region: Region)
    ensures
        free_bytes(pushed(free, region)) == free_bytes(free) + region.len,
{
    assert(pushed(free, region).skip(1) =~= free);
}

/// A region that leaves the list takes its bytes from the free ones.
pub proof fn lemma_free_bytes_remove(free: Seq<Region>, i: int)
    requires
        0 <= i < free.len(),
    ensures
        free_bytes(free.remove(i)) + free[i].len == free_bytes(free),
    decreases i,
{
    if i == 0 {
        assert(free.remove(0) =~= free.skip(1));
    } else {
        lemma_free_bytes_remove(free.skip(1), i - 1);
        assert(free.remove(i).skip(1) =~= free.skip(1).remove(i - 1));
    }
}

/// What a served request does to the free bytes: they lose the allocation
/// and the gap between the start of the region that served it and the
/// allocation. When the allocation comes back, only the gap is missing.
pub proof fn lemma_served_accounting(free: Seq<Region>, layout: Layout)
    requires
        layout.wf(),
        all_hold_nodes(free),
    ensures
        served(free, layout) matches (Some(region), after) ==> {
            let source = free[first_fit(free, adjusted(layout).unwrap())];
            let gap = region.base - source.base;
            &&& gap >= 0
            &&& free_bytes(after) + region.len + gap == free_bytes(free)
            &&& free_bytes(pushed(after, region)) + gap == free_bytes(free)
        },
{
    if let Some(adj) = adjusted(layout) {
        lemma_served(free, layout);
        lemma_first_fit(free, adj);
        let i = first_fit(free, adj);
        if i < free.len() {
            let region = fit(free[i], adj).unwrap();
            let tail = Region {
                base: region.end() as usize,
                len: (free[i].end() - region.end()) as usize,
            };
            lemma_free_bytes_remove(free, i);
            lemma_free_bytes_pushed(free.remove(i), tail);
            lemma_free_bytes_pushed(served(free, layout).1, region);
        }
    }
}

/// A region that matches a request is handed out whole and comes back
/// whole. Where `region` is donated and then asked for with a layout whose
/// adjusted size is the region's length and whose adjusted alignment the
/// region's base has, the allocation is the region and the list is as
/// before the donation. Returning the allocation gives the list as it was
/// after the donation, with the same free bytes.
pub proof fn lemma_round_trip(free: Seq<Region>, region: Region, layout: Layout)
    requires
        layout.wf(),
        can_hold_node(region),
        adjusted(layout) matches Some(adj) && adj.size == region.len && is_aligned(
            region.base as int,
            adj.align as int,
        ),
    ensures
        served(pushed(free, region), layout) == (Some(region), free),
        pushed(
            served(pushed(free, region), layout).1,
            (Region { base: region.base, len: adjusted(layout).unwrap().size }),
        ) == pushed(free, region),
        free_bytes(
            pushed(
                served(pushed(free, region), layout).1,
                (Region { base: region.base, len: adjusted(layout).unwrap().size }),
            ),
        ) == free_bytes(pushed(free, region)),
{
    let adj = adjusted(layout).unwrap();
    let donated = pushed(free, region);
    assert(fit(region, adj) == Some(region));
    assert(first_fit(donated, adj) == 0);
    assert(donated.remove(0) =~= free);
}

/// A region that is longer than a request by less than a header is handed
/// out whole or not at all. A request of `layout.size` bytes to a list that
/// holds only a region of `layout.size + NODE_SIZE - 1` bytes either empties
/// the list, with an allocation that ends where the region ends, or leaves
/// the list as it was. Where adjustment leaves the layout as it is and the
/// region's base is aligned as asked, the request is not served.
pub proof fn lemma_sliver_rejected(region: Region, layout: Layout)
    requires
        layout.wf(),
        can_hold_node(region),
        layout.size >= NODE_SIZE,
        region.len == layout.size + NODE_SIZE - 1,
    ensures
        match served(seq![region], layout) {
            (Some(piece), after) => after == Seq::<Region>::empty() && piece.end() == region.end(),
            (None, after) => after == seq![region],
        },
        adjusted(layout) == Some(layout) && is_aligned(region.base as int, layout.align as int)
            ==> served(seq![region], layout).0.is_none(),
{
    let free = seq![region];
    if let Some(adj) = adjusted(layout) {
        lemma_adjusted(layout);
        lemma_first_fit(free, adj);
        lemma_fit(region, adj);
        assert(free.remove(0) =~= Seq::<Region>::empty());
    }
}

/// A request that is larger than every free region is not served, however
/// the free regions lie to each other.
pub proof fn lemma_larger_than_each_fails(free: Seq<Region>, layout: Layout)
    requires
        layout.wf(),
        forall|i: int| 0 <= i < free.len() ==> (#[trigger] free[i]).len < layout.size,
    ensures
        served(free, layout) == (None::<Region>, free),
{
    if let Some(adj) = adjusted(layout) {
        lemma_adjusted(layout);
        lemma_first_fit(free, adj);
        let i = first_fit(free, adj);
        if i < free.len() {
            lemma_pow2_divides(adj.align as int, adj.align as int);
            lemma_round_up_is_least(free[i].base as int, adj.align as int);
        }
    }
}

/// Regions are not merged. Two regions donated one after the other stand
/// on the list as two entries, the later one first, also where the second
/// begins where the first ends; and a request larger than each of them is
/// not served, though the two together would hold it.
pub proof fn lemma_no_coalescing(first: Region, second: Region, layout: Layout)
    requires
        layout.wf(),
        second.base == first.end(),
        first.len < layout.size,
        second.len < layout.size,
    ensures
        pushed(pushed(Seq::empty(), first), second) == seq![second, first],
        served(seq![second, first], layout) == (None::<Region>, seq![second, first]),
{
    lemma_larger_than_each_fails(seq![second, first], layout);
}

} // verus!
