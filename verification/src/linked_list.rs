//! The linked-list allocator together with the account of what it handed
//! out and what was donated to it.

use vstd::multiset::Multiset;
use vstd::prelude::*;

use crate::free_list::{
    adjusted, can_hold_node, first_fit, fit, lemma_adjusted, lemma_first_fit, lemma_fit,
    lemma_served, pushed, served,
};
use crate::layout::Layout;
use crate::linked_list_allocator::LinkedListAllocator;
use crate::region::{all_within, pairwise_disjoint, within, Region};
use crate::Allocator as _;

verus! {

/// What holds of the regions `owned` that an allocator answers for, given
/// the regions `pool` that were donated to it: each can stand on the free
/// list, each lies inside a donated region, and no two share a byte.
pub open spec fn sound(owned: Multiset<Region>, pool: Set<Region>) -> bool {
    &&& forall|r: Region| #[trigger] owned.count(r) > 0 ==> can_hold_node(r)
    &&& all_within(owned, pool)
    &&& pairwise_disjoint(owned)
}

/// A region that is counted among sound regions is counted once.
pub proof fn lemma_sound_counts_once(owned: Multiset<Region>, pool: Set<Region>, region: Region)
    requires
        sound(owned, pool),
        owned.count(region) > 0,
    ensures
        owned.count(region) == 1,
{
    if owned.count(region) >= 2 {
        assert(region.disjoint(region));
    }
}

/// A donated region that shares no byte with the earlier donations keeps
/// the owned regions sound.
pub proof fn lemma_donated_sound(owned: Multiset<Region>, pool: Set<Region>, region: Region)
    requires
        sound(owned, pool),
        can_hold_node(region),
        forall|d: Region| #[trigger] pool.contains(d) ==> d.disjoint(region),
    ensures
        sound(owned.insert(region), pool.insert(region)),
{
    let owned2 = owned.insert(region);
    let pool2 = pool.insert(region);
    assert forall|r: Region| #[trigger] owned2.count(r) > 0 implies within(r, pool2) by {
        if r == region {
            assert(pool2.contains(region) && region.contains(r));
        } else {
            let d = choose|d: Region| #[trigger] pool.contains(d) && d.contains(r);
            assert(pool2.contains(d) && d.contains(r));
        }
    }
    assert forall|r: Region| #[trigger] owned.count(r) > 0 implies r.disjoint(region) by {
        let d = choose|d: Region| #[trigger] pool.contains(d) && d.contains(r);
        assert(d.disjoint(region));
    }
    assert(owned.count(region) == 0) by {
        if owned.count(region) > 0 {
            assert(region.disjoint(region));
        }
    }
    assert forall|a: Region, b: Region|
        #![trigger owned2.count(a), owned2.count(b)]
        owned2.count(a) > 0 && owned2.count(b) > 0 && (a != b || owned2.count(a)
            >= 2) implies a.disjoint(b) by {
        if a != region && b != region {
            assert(owned.count(a) > 0 && owned.count(b) > 0);
        }
    }
}

/// Where an owned region is taken away and regions inside it, which share
/// no byte with each other, are put in its place, the owned regions stay
/// sound.
pub proof fn lemma_carved_sound(
    owned: Multiset<Region>,
    pool: Set<Region>,
    whole: Region,
    parts: Multiset<Region>,
)
    requires
        sound(owned, pool),
        owned.count(whole) > 0,
        pairwise_disjoint(parts),
        forall|p: Region| #[trigger] parts.count(p) > 0 ==> can_hold_node(p) && whole.contains(p),
    ensures
        sound(owned.remove(whole).add(parts), pool),
{
    let rest = owned.remove(whole);
    let owned2 = rest.add(parts);
    lemma_sound_counts_once(owned, pool, whole);
    assert forall|r: Region| #[trigger] rest.count(r) > 0 implies owned.count(r) > 0 && r != whole
        && r.disjoint(whole) by {}
    assert forall|r: Region| #[trigger] owned2.count(r) > 0 implies can_hold_node(r) && within(
        r,
        pool,
    ) by {
        if parts.count(r) > 0 {
            let d = choose|d: Region| #[trigger] pool.contains(d) && d.contains(whole);
            assert(pool.contains(d) && d.contains(r));
        } else {
            assert(rest.count(r) > 0);
        }
    }
    assert forall|a: Region, b: Region|
        #![trigger owned2.count(a), owned2.count(b)]
        owned2.count(a) > 0 && owned2.count(b) > 0 && (a != b || owned2.count(a)
            >= 2) implies a.disjoint(b) by {
        if parts.count(a) > 0 && parts.count(b) > 0 {
            if a == b && rest.count(a) == 0 {
                assert(parts.count(a) >= 2);
            }
        } else if parts.count(a) > 0 {
            assert(rest.count(b) > 0);
        } else if parts.count(b) > 0 {
            assert(rest.count(a) > 0);
        } else {
            assert(owned.count(a) > 0 && owned.count(b) > 0);
        }
    }
}

/// Putting a region in front of a list counts it once more.
pub proof fn lemma_pushed_to_multiset(free: Seq<Region>, region: Region)
    ensures
        pushed(free, region).to_multiset() == free.to_multiset().insert(region),
{
    broadcast use vstd::seq_lib::group_to_multiset_ensures;

    vstd::seq_lib::lemma_multiset_commutative(seq![region], free);
    assert(seq![region] =~= Seq::<Region>::empty().push(region));
    assert(seq![region].add(free).to_multiset() =~= free.to_multiset().insert(region));
}

/// Serving a request keeps the owned regions sound. Where `free` and
/// `live` are the free and the live regions before the request, the
/// allocation shares no byte with a region that was live before; with it
/// among the live regions, and the free list that the request leaves, the
/// owned regions are sound again.
pub proof fn lemma_served_sound(
    free: Seq<Region>,
    live: Multiset<Region>,
    pool: Set<Region>,
    layout: Layout,
)
    requires
        layout.wf(),
        sound(free.to_multiset().add(live), pool),
    ensures
        served(free, layout) matches (Some(region), after) ==> {
            &&& forall|other: Region| #[trigger] live.count(other) > 0 ==> region.disjoint(other)
            &&& sound(after.to_multiset().add(live.insert(region)), pool)
        },
{
    let owned = free.to_multiset().add(live);
    if let Some(adj) = adjusted(layout) {
        lemma_adjusted(layout);
        lemma_first_fit(free, adj);
        let i = first_fit(free, adj);
        if i < free.len() {
            let source = free[i];
            free.to_multiset_ensures();
            lemma_sound_counts_once(owned, pool, source);
            assert forall|j: int| 0 <= j < free.len() implies can_hold_node(#[trigger] free[j]) by {
                assert(owned.count(free[j]) > 0);
            }
            lemma_served(free, layout);
            lemma_fit(source, adj);
            let region = fit(source, adj).unwrap();
            let tail = Region {
                base: region.end() as usize,
                len: (source.end() - region.end()) as usize,
            };
            let after = served(free, layout).1;
            let parts = if tail.len > 0 {
                Multiset::<Region>::empty().insert(region).insert(tail)
            } else {
                Multiset::<Region>::empty().insert(region)
            };
            lemma_carved_sound(owned, pool, source, parts);
            lemma_pushed_to_multiset(free.remove(i), tail);
            assert(after.to_multiset().add(live.insert(region)) =~= owned.remove(source).add(parts));
            assert forall|other: Region| #[trigger] live.count(other) > 0 implies region.disjoint(
                other,
            ) by {
                assert(owned.count(other) > 0);
            }
        }
    }
}

/// Returning a live allocation keeps the owned regions as they are: the
/// allocation goes from the live regions to the front of the free list.
pub proof fn lemma_released_sound(
    free: Seq<Region>,
    live: Multiset<Region>,
    pool: Set<Region>,
    region: Region,
)
    requires
        sound(free.to_multiset().add(live), pool),
        live.count(region) > 0,
    ensures
        can_hold_node(region),
        pushed(free, region).to_multiset().add(live.remove(region)) == free.to_multiset().add(live),
{
    lemma_pushed_to_multiset(free, region);
    assert(free.to_multiset().add(live).count(region) > 0);
    assert(pushed(free, region).to_multiset().add(live.remove(region)) =~= free.to_multiset().add(
        live,
    ));
}

/// Hands out memory from a list of free regions and keeps account of what
/// it handed out: no two live allocations share a byte, and each lies in a
/// region that was donated.
pub struct Allocator {
    list: LinkedListAllocator,
    live: Ghost<Multiset<Region>>,
    pool: Ghost<Set<Region>>,
}

impl Allocator {
    /// The free regions, in the order in which a search meets them.
    pub closed spec fn free_list(&self) -> Seq<Region> {
        self.list.free_list()
    }

    /// The regions that the allocator answers for: the free ones and the
    /// live allocations.
    pub open spec fn owned(&self) -> Multiset<Region> {
        self.free_list().to_multiset().add(self.live())
    }

    /// The free regions and the live allocations can each hold a header,
    /// lie each inside a donated region, and no two of them share a byte.
    pub proof fn lemma_owned_sound(&self)
        requires
            self.wf(),
        ensures
            sound(self.owned(), self.pool()),
    {
    }

    /// No free region shares a byte with another free region or with a
    /// live allocation.
    pub proof fn lemma_free_regions_apart(&self)
        requires
            self.wf(),
        ensures
            forall|i: int, j: int|
                0 <= i < j < self.free_list().len() ==> (#[trigger] self.free_list()[i]).disjoint(
                    #[trigger] self.free_list()[j],
                ),
            forall|i: int, r: Region|
                0 <= i < self.free_list().len() && #[trigger] self.live().count(r) > 0 ==> (
                #[trigger] self.free_list()[i]).disjoint(r),
    {
        let free = self.free_list();
        let owned = self.owned();
        free.to_multiset_ensures();
        assert forall|i: int, j: int| 0 <= i < j < free.len() implies (#[trigger] free[i]).disjoint(
            #[trigger] free[j],
        ) by {
            assert(owned.count(free[i]) > 0 && owned.count(free[j]) > 0);
            if free[i] == free[j] {
                let once = free.remove(i);
                assert(once[j - 1] == free[j]);
                once.to_multiset_ensures();
                vstd::seq_lib::to_multiset_remove(free, i);
                assert(once.to_multiset().count(free[i]) > 0);
                assert(owned.count(free[i]) >= 2);
            }
        }
        assert forall|i: int, r: Region|
            0 <= i < free.len() && #[trigger] self.live().count(r) > 0 implies (
        #[trigger] free[i]).disjoint(r) by {
            assert(owned.count(free[i]) > 0 && owned.count(r) > 0);
            if free[i] == r {
                assert(owned.count(r) >= 2);
            }
        }
    }

    /// Creates an empty Allocator.
    pub fn new() -> (r: Allocator)
        ensures
            r.wf(),
            r.free_list() == Seq::<Region>::empty(),
            r.live() == Multiset::<Region>::empty(),
            r.pool() == Set::<Region>::empty(),
    {
        let r = Allocator {
            list: LinkedListAllocator::new(),
            live: Ghost(Multiset::empty()),
            pool: Ghost(Set::empty()),
        };
        proof {
            r.free_list().to_multiset_ensures();
            assert(r.owned() =~= Multiset::<Region>::empty());
        }
        r
    }

    /// Adds the given memory region to the front of the list.
    ///
    /// The region must be able to hold a header and must not share a byte
    /// with a region that was donated before.
    pub fn add_free_region(&mut self, region: Region)
        requires
            old(self).wf(),
            can_hold_node(region),
            forall|d: Region| #[trigger] old(self).pool().contains(d) ==> d.disjoint(region),
        ensures
            final(self).wf(),
            final(self).free_list() == pushed(old(self).free_list(), region),
            final(self).live() == old(self).live(),
            final(self).pool() == old(self).pool().insert(region),
    {
        self.list.add_free_region(region);
        self.pool = Ghost(self.pool@.insert(region));
        proof {
            lemma_pushed_to_multiset(old(self).free_list(), region);
            lemma_donated_sound(old(self).owned(), old(self).pool(), region);
            assert(self.owned() =~= old(self).owned().insert(region));
        }
    }

    /// The free regions, in the order in which a search meets them.
    pub fn free_regions(&self) -> (r: Vec<Region>)
        ensures
            r@ == self.free_list(),
    {
        self.list.free_regions()
    }

    /// Adjusts the given layout so that the allocated region can hold a
    /// header once it is free again.
    pub fn adjust(layout: Layout) -> (r: Option<Layout>)
        requires
            layout.wf(),
        ensures
            r == adjusted(layout),
    {
        LinkedListAllocator::adjust(layout)
    }
}

impl crate::Allocator for Allocator {
    closed spec fn wf(&self) -> bool {
        &&& self.list.wf()
        &&& sound(self.owned(), self.pool@)
    }

    closed spec fn live(&self) -> Multiset<Region> {
        self.live@
    }

    closed spec fn pool(&self) -> Set<Region> {
        self.pool@
    }

    open spec fn granted(layout: Layout) -> Option<usize> {
        match adjusted(layout) {
            Some(adj) => Some(adj.size),
            None => None,
        }
    }

    proof fn lemma_live_disjoint(&self) {
        let owned = self.owned();
        let live = self.live();
        assert forall|a: Region, b: Region|
            #![trigger live.count(a), live.count(b)]
            live.count(a) > 0 && live.count(b) > 0 && (a != b || live.count(a)
                >= 2) implies a.disjoint(b) by {
            assert(owned.count(a) >= live.count(a) && owned.count(b) >= live.count(b));
        }
    }

    proof fn lemma_live_within_pool(&self) {
        let owned = self.owned();
        let live = self.live();
        assert forall|r: Region| #[trigger] live.count(r) > 0 implies within(r, self.pool()) by {
            assert(owned.count(r) >= live.count(r));
        }
    }

    fn allocate(&mut self, layout: Layout) -> (r: Option<Region>)
        ensures
            (r, final(self).free_list()) == served(old(self).free_list(), layout),
    {
        proof {
            self.list.lemma_free_regions_hold_nodes();
            lemma_served(self.free_list(), layout);
            lemma_served_sound(self.free_list(), self.live(), self.pool(), layout);
        }
        let r = self.list.allocate(layout);
        if let Some(region) = r {
            self.live = Ghost(self.live@.insert(region));
        }
        r
    }

    fn dealloc(&mut self, ptr: usize, layout: Layout)
        ensures
            final(self).free_list() == pushed(
                old(self).free_list(),
                (Region { base: ptr, len: adjusted(layout).unwrap().size }),
            ),
    {
        let ghost region = Region { base: ptr, len: adjusted(layout).unwrap().size };
        proof {
            lemma_released_sound(self.free_list(), self.live(), self.pool(), region);
        }
        self.list.dealloc(ptr, layout);
        self.live = Ghost(self.live@.remove(region));
    }
}

} // verus!
