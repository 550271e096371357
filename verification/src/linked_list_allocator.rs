//! The linked-list allocator on its own. It keeps the free list and leaves
//! the account of what is handed out to its caller.

use vstd::arithmetic::power2::is_pow2;
use vstd::prelude::*;

use crate::free_list::{
    adjusted, all_hold_nodes, can_hold_node, first_fit, fit, lemma_adjusted, lemma_first_fit,
    lemma_fit, lemma_node_align_is_pow2, lemma_served, pushed, served, NODE_ALIGN, NODE_SIZE,
};
use crate::layout::Layout;
use crate::ptr_ext::{
    is_aligned, lemma_mask_is_mod, lemma_pow2_divides, lemma_round_up_is_least,
    lemma_round_up_overflow, round_up, PtrExt,
};
use crate::region::Region;

verus! {

/// A free region: where it starts, how long it is, and the free region
/// that follows it on the list.
pub struct Node {
    base: usize,
    size: usize,
    next: Option<Box<Node>>,
}

/// The regions of the nodes from `link` on, in list order.
spec fn chain(link: Option<Box<Node>>) -> Seq<Region>
    decreases link,
{
    match link {
        None => Seq::empty(),
        Some(node) => seq![node.region()].add(chain(node.next)),
    }
}

impl Node {
    /// The region that the node stands for.
    pub closed spec fn region(&self) -> Region {
        Region { base: self.base, len: self.size }
    }

    /// A node for `region` that no node follows.
    pub fn new(region: Region) -> (r: Node)
        ensures
            r.region() == region,
    {
        Node { base: region.base, size: region.len, next: None }
    }

    /// The address of the first byte of the region.
    pub fn start(&self) -> (r: usize)
        ensures
            r == self.region().base,
    {
        self.base
    }

    /// The address just past the region.
    pub fn end(&self) -> (r: usize)
        requires
            self.region().end() <= usize::MAX,
        ensures
            r == self.region().end(),
    {
        self.base + self.size
    }

    /// The allocation for `layout` that this region gives, if it gives one.
    pub fn alloc_from_region(&self, layout: Layout) -> (r: Option<Region>)
        requires
            self.region().end() <= usize::MAX,
            layout.wf(),
        ensures
            r == fit(self.region(), layout),
    {
        proof {
            lemma_pow2_divides(layout.align as int, layout.align as int);
            lemma_round_up_is_least(self.base as int, layout.align as int);
            lemma_round_up_overflow(self.base, layout.align);
        }
        if self.start() > usize::MAX - (layout.align - 1) {
            return None;
        }
        let alloc_start: usize = align_up(self.start(), layout.align);
        let alloc_end: usize = match alloc_start.checked_add(layout.size) {
            Some(end) => end,
            None => { return None; },
        };
        if alloc_end > self.end() {
            return None;
        }
        let excess_size: usize = self.end() - alloc_end;
        if 0 < excess_size && excess_size < NODE_SIZE {
            return None;
        }
        Some(Region { base: alloc_start, len: layout.size })
    }
}

/// Aligns the given address `addr` upwards to alignment `align`.
pub fn align_up(addr: usize, align: usize) -> (r: usize)
    requires
        is_pow2(align as int),
        addr + align - 1 <= usize::MAX,
    ensures
        r == round_up(addr as int, align as int),
{
    proof {
        lemma_pow2_divides(align as int, align as int);
    }
    let mask: usize = align - 1;
    let raised: usize = addr + mask;
    let r: usize = raised & !mask;
    proof {
        let low: usize = raised & mask;
        assert(r == raised - low) by (bit_vector)
            requires
                r == raised & !mask,
                low == raised & mask,
        ;
        lemma_mask_is_mod(raised, align);
        lemma_round_up_is_least(addr as int, align as int);
        let up = round_up(addr as int, align as int);
        vstd::arithmetic::div_mod::lemma_fundamental_div_mod(raised as int, align as int);
        vstd::arithmetic::div_mod::lemma_fundamental_div_mod(up, align as int);
        let a = up / (align as int);
        let b = (raised as int) / (align as int);
        assert(a == b) by (nonlinear_arith)
            requires
                align > 0,
                up == align * a,
                r == align * b,
                -align < r - up < align,
        ;
    }
    r
}

/// A list of free regions that serves a request from the first region that
/// fits, and puts what is left behind the allocation back on the list.
///
/// The list keeps no account of what it handed out. That a region given to
/// `add_free_region` or to `dealloc` is free to use is for the caller to
/// know; `crate::linked_list::Allocator` keeps that account.
pub struct LinkedListAllocator {
    head: Node,
}

impl LinkedListAllocator {
    /// The free regions, in the order in which a search meets them.
    pub closed spec fn free_list(&self) -> Seq<Region> {
        chain(self.head.next)
    }

    /// The head of the list stands for no region, and every free region can
    /// hold a header.
    pub closed spec fn wf(&self) -> bool {
        &&& self.head.region() == Region { base: 0, len: 0 }
        &&& all_hold_nodes(self.free_list())
    }

    /// Every free region can hold a header.
    pub proof fn lemma_free_regions_hold_nodes(&self)
        requires
            self.wf(),
        ensures
            all_hold_nodes(self.free_list()),
    {
    }

    /// Creates an empty LinkedListAllocator.
    pub fn new() -> (r: LinkedListAllocator)
        ensures
            r.wf(),
            r.free_list() == Seq::<Region>::empty(),
    {
        LinkedListAllocator { head: Node { base: 0, size: 0, next: None } }
    }

    /// The free regions, in the order in which a search meets them.
    pub fn free_regions(&self) -> (r: Vec<Region>)
        ensures
            r@ == self.free_list(),
    {
        let mut regions: Vec<Region> = Vec::new();
        let mut curr: &Option<Box<Node>> = &self.head.next;
        loop
            invariant
                self.free_list() == regions@.add(chain(*curr)),
            ensures
                regions@ == self.free_list(),
            decreases chain(*curr).len(),
        {
            match curr {
                None => {
                    break ;
                },
                Some(node) => {
                    assert(regions@.push(node.region()).add(chain(node.next)) =~= regions@.add(
                        chain(*curr),
                    ));
                    regions.push(Region { base: node.base, len: node.size });
                    curr = &node.next;
                },
            }
        }
        regions
    }

    /// Adds the given memory region to the front of the list.
    pub fn add_free_region(&mut self, range: Region)
        requires
            old(self).wf(),
            can_hold_node(range),
        ensures
            final(self).wf(),
            final(self).free_list() == pushed(old(self).free_list(), range),
    {
        let next = self.head.next.take();
        self.head.next = Some(Box::new(Node { base: range.base, size: range.len, next }));
        proof {
            let before = old(self).free_list();
            let after = self.free_list();
            assert forall|i: int| 0 <= i < after.len() implies can_hold_node(#[trigger] after[i]) by {
                if i > 0 {
                    assert(after[i] == before[i - 1]);
                }
            }
        }
    }

    /// Looks for the first free region that gives an allocation for `layout`
    /// and removes it from the list.
    ///
    /// Returns the removed region and the allocation inside it.
    fn find_region(&mut self, layout: Layout) -> (r: Option<(Region, Region)>)
        requires
            layout.wf(),
            all_hold_nodes(old(self).free_list()),
        ensures
            final(self).head.region() == old(self).head.region(),
            ({
                let free = old(self).free_list();
                let i = first_fit(free, layout);
                if i < free.len() {
                    &&& r == Some((free[i], fit(free[i], layout).unwrap()))
                    &&& final(self).free_list() == free.remove(i)
                } else {
                    &&& r.is_none()
                    &&& final(self).free_list() == free
                }
            }),
    {
        let ghost free = self.free_list();
        let ghost mut passed: Seq<Region> = Seq::empty();
        let mut curr: &mut Option<Box<Node>> = &mut self.head.next;
        let mut found: Option<(Region, Region)> = None;
        proof {
            lemma_first_fit(free, layout);
        }
        loop
            invariant_except_break
                found.is_none(),
                free == passed.add(chain(*curr)),
                first_fit(free, layout) == passed.len() + first_fit(chain(*curr), layout),
                chain(after_borrow(self).head.next) == passed.add(chain(*final(curr))),
            invariant
                layout.wf(),
                after_borrow(self).head.region() == old(self).head.region(),
                free == old(self).free_list(),
                all_hold_nodes(free),
            ensures
                ({
                    let i = first_fit(free, layout);
                    if i < free.len() {
                        &&& found == Some((free[i], fit(free[i], layout).unwrap()))
                        &&& chain(after_borrow(self).head.next) == free.remove(i)
                    } else {
                        &&& found.is_none()
                        &&& chain(after_borrow(self).head.next) == free
                    }
                }),
            decreases chain(*curr).len(),
        {
            let fits = match curr {
                None => { break ; },
                Some(node) => {
                    assert(node.region() == free[passed.len() as int]);
                    node.alloc_from_region(layout)
                },
            };
            if let Some(alloc) = fits {
                let mut node = curr.take().unwrap();
                found = Some((Region { base: node.base, len: node.size }, alloc));
                *curr = node.next.take();
                break ;
            }
            match curr {
                None => { break ; },
                Some(node) => {
                    proof {
                        let rest = chain(Some(*node));
                        assert(rest.skip(1) =~= chain(node.next));
                        passed = passed.push(node.region());
                        assert(free =~= passed.add(chain(node.next)));
                    }
                    curr = &mut node.next;
                },
            }
        }
        found
    }

    /// Hands out a region for `layout` from the first free region that fits,
    /// or reports that nothing fits.
    pub fn allocate(&mut self, layout: Layout) -> (r: Option<Region>)
        requires
            old(self).wf(),
            layout.wf(),
        ensures
            final(self).wf(),
            (r, final(self).free_list()) == served(old(self).free_list(), layout),
            r matches Some(region) ==> {
                &&& is_aligned(region.base as int, layout.align as int)
                &&& region.len == adjusted(layout).unwrap().size
                &&& region.len >= layout.size
                &&& can_hold_node(region)
            },
    {
        proof {
            lemma_adjusted(layout);
            lemma_served(self.free_list(), layout);
        }
        let layout = match LinkedListAllocator::adjust(layout) {
            Some(adj) => adj,
            None => { return None; },
        };
        let (region, alloc) = match self.find_region(layout) {
            Some(found) => found,
            None => { return None; },
        };
        proof {
            lemma_first_fit(old(self).free_list(), layout);
            lemma_fit(region, layout);
        }
        let alloc_end: usize = alloc.base + alloc.len;
        let excess_size: usize = region.base + region.len - alloc_end;
        if excess_size > 0 {
            self.add_free_region(Region { base: alloc_end, len: excess_size });
        }
        Some(alloc)
    }

    /// Takes back the region at `ptr` that was handed out for `layout`: it
    /// goes to the front of the list with its adjusted size.
    pub fn dealloc(&mut self, ptr: usize, layout: Layout)
        requires
            old(self).wf(),
            layout.wf(),
            adjusted(layout) matches Some(adj) && can_hold_node(
                (Region { base: ptr, len: adj.size }),
            ),
        ensures
            final(self).wf(),
            final(self).free_list() == pushed(
                old(self).free_list(),
                (Region { base: ptr, len: adjusted(layout).unwrap().size }),
            ),
    {
        if let Some(layout) = LinkedListAllocator::adjust(layout) {
            self.add_free_region(Region { base: ptr, len: layout.size });
        }
    }

    /// Adjusts the given layout so that the allocated region can hold a
    /// header once it is free again.
    pub fn adjust(layout: Layout) -> (r: Option<Layout>)
        requires
            layout.wf(),
        ensures
            r == adjusted(layout),
    {
        let align: usize = if layout.align < NODE_ALIGN {
            NODE_ALIGN
        } else {
            layout.align
        };
        proof {
            lemma_node_align_is_pow2();
        }
        match layout.size.try_align_up(align) {
            None => None,
            Some(padded) => Some(
                Layout {
                    size: if padded < NODE_SIZE {
                        NODE_SIZE
                    } else {
                        padded
                    },
                    align,
                },
            ),
        }
    }
}

} // verus!
