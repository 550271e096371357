use allocator::free_list::{NODE_ALIGN, NODE_SIZE};
use allocator::layout::Layout;
use allocator::linked_list::Allocator;
use allocator::region::Region;
use allocator::Allocator as _;

const B1: usize = 0x10000;
const B2: usize = 0x20000;

fn layout(size: usize, align: usize) -> Layout {
    Layout::from_size_align(size, align).unwrap()
}

#[test]
fn linked_list_test() {
    const HEAP_SIZE: usize = 1 << 12;
    let mut alloc = Allocator::new();
    alloc.add_free_region(Region::new(B1, HEAP_SIZE));
    alloc.add_free_region(Region::new(B2, HEAP_SIZE));
    let l1 = layout(HEAP_SIZE, 1);
    let l2 = layout(8, 8);
    let l3 = layout(8, 8);
    let p1 = alloc.allocate(l1).unwrap();
    let p2 = alloc.allocate(l2).unwrap();
    let p3 = alloc.allocate(l3).unwrap();
    alloc.dealloc(p1.base, l1);
    alloc.dealloc(p3.base, l2);
    alloc.dealloc(p2.base, l2);
}

#[test]
fn linked_list_two_pools() {
    let mut alloc = Allocator::new();
    alloc.add_free_region(Region::new(B1, 4096));
    alloc.add_free_region(Region::new(B2, 4096));
    let whole = layout(4096, 1);
    let word = layout(8, 8);
    assert_eq!(
        alloc.free_regions(),
        vec![Region { base: B2, len: 4096 }, Region { base: B1, len: 4096 }]
    );
    // the pool donated last is searched first
    assert_eq!(alloc.allocate(whole), Some(Region { base: B2, len: 4096 }));
    assert_eq!(alloc.free_regions(), vec![Region { base: B1, len: 4096 }]);
    assert_eq!(alloc.allocate(word), Some(Region { base: B1, len: NODE_SIZE }));
    assert_eq!(alloc.allocate(word), Some(Region { base: B1 + 16, len: NODE_SIZE }));
    assert_eq!(alloc.free_regions(), vec![Region { base: B1 + 32, len: 4064 }]);
    assert_eq!(alloc.allocate(whole), None);
    alloc.dealloc(B2, whole);
    alloc.dealloc(B1 + 16, word);
    alloc.dealloc(B1, word);
    assert_eq!(
        alloc.free_regions(),
        vec![
            Region { base: B1, len: 16 },
            Region { base: B1 + 16, len: 16 },
            Region { base: B2, len: 4096 },
            Region { base: B1 + 32, len: 4064 },
        ]
    );
    assert_eq!(alloc.allocate(whole), Some(Region { base: B2, len: 4096 }));
}

#[test]
fn linked_list_tail_split() {
    let mut alloc = Allocator::new();
    alloc.add_free_region(Region::new(B1, 4096));
    assert_eq!(
        alloc.allocate(layout(64, 8)),
        Some(Region { base: B1, len: 64 })
    );
    // the tail [B1 + 64, B1 + 4096) is the only free region now
    assert_eq!(alloc.free_regions(), vec![Region { base: B1 + 64, len: 4096 - 64 }]);
    assert_eq!(alloc.allocate(layout(4096 - 64 + 8, 8)), None);
    assert_eq!(
        alloc.allocate(layout(4096 - 64, 8)),
        Some(Region { base: B1 + 64, len: 4096 - 64 })
    );
    assert_eq!(alloc.allocate(layout(1, 1)), None);
}

#[test]
fn linked_list_head_gap() {
    let base = B1 + 8;
    let mut alloc = Allocator::new();
    alloc.add_free_region(Region::new(base, 4096));
    let l = layout(16, 64);
    let served = alloc.allocate(l);
    assert_eq!(served, Some(Region { base: B1 + 64, len: 64 }));
    // the tail behind the allocation is free, the gap in front of it is not
    assert_eq!(alloc.free_regions(), vec![Region { base: B1 + 128, len: 4096 - 56 - 64 }]);
    assert_eq!(
        alloc.allocate(layout(4096 - 56 - 64, 8)),
        Some(Region { base: B1 + 128, len: 4096 - 56 - 64 })
    );
    assert_eq!(alloc.free_regions(), vec![]);
    assert_eq!(alloc.allocate(layout(16, 8)), None);
    alloc.dealloc(B1 + 64, l);
    // what comes back is the allocation, without the gap
    assert_eq!(alloc.free_regions(), vec![Region { base: B1 + 64, len: 64 }]);
    assert_eq!(alloc.allocate(layout(72, 8)), None);
    assert_eq!(
        alloc.allocate(layout(64, 8)),
        Some(Region { base: B1 + 64, len: 64 })
    );
}

#[test]
fn linked_list_overflow_is_no_fit() {
    let mut alloc = Allocator::new();
    alloc.add_free_region(Region::new(B1, 4096));
    assert_eq!(alloc.allocate(layout(usize::MAX, 1)), None);
    assert_eq!(alloc.allocate(layout(usize::MAX - 7, 8)), None);
    assert_eq!(alloc.allocate(layout(usize::MAX - 8, 8)), None);
    assert_eq!(alloc.free_regions(), vec![Region { base: B1, len: 4096 }]);
    assert_eq!(
        alloc.allocate(layout(4096, 8)),
        Some(Region { base: B1, len: 4096 })
    );
}

#[test]
fn linked_list_empty_allocator() {
    let mut alloc = Allocator::new();
    assert_eq!(alloc.free_regions(), vec![]);
    assert_eq!(alloc.allocate(layout(1, 1)), None);
    assert_eq!(alloc.allocate(layout(0, 1)), None);
    assert_eq!(alloc.free_regions(), vec![]);
}

#[test]
fn linked_list_round_trip() {
    let mut alloc = Allocator::new();
    alloc.add_free_region(Region::new(B2, 64));
    alloc.add_free_region(Region::new(B1, 256));
    let l = layout(256, 8);
    let donated = alloc.free_regions();
    assert_eq!(donated, vec![Region { base: B1, len: 256 }, Region { base: B2, len: 64 }]);
    for _ in 0..3 {
        assert_eq!(alloc.allocate(l), Some(Region { base: B1, len: 256 }));
        assert_eq!(alloc.free_regions(), vec![Region { base: B2, len: 64 }]);
        assert_eq!(alloc.allocate(l), None);
        alloc.dealloc(B1, l);
        assert_eq!(alloc.free_regions(), donated);
    }
    let small = layout(64, 8);
    assert_eq!(
        alloc.allocate(small),
        Some(Region { base: B1, len: 64 })
    );
}

#[test]
fn linked_list_sliver_is_rejected() {
    let mut alloc = Allocator::new();
    alloc.add_free_region(Region::new(B1, 64 + NODE_SIZE - 1));
    assert_eq!(alloc.allocate(layout(64, 8)), None);
    assert_eq!(alloc.free_regions(), vec![Region { base: B1, len: 64 + NODE_SIZE - 1 }]);
    // the region is still whole
    assert_eq!(
        alloc.allocate(layout(64 + NODE_SIZE - 8, 8)),
        None
    );
    assert_eq!(
        alloc.allocate(layout(48, 8)),
        Some(Region { base: B1, len: 48 })
    );
}

#[test]
fn linked_list_exact_tail_of_one_header() {
    let mut alloc = Allocator::new();
    alloc.add_free_region(Region::new(B1, 64 + NODE_SIZE));
    assert_eq!(
        alloc.allocate(layout(64, 8)),
        Some(Region { base: B1, len: 64 })
    );
    assert_eq!(
        alloc.allocate(layout(1, 1)),
        Some(Region { base: B1 + 64, len: NODE_SIZE })
    );
    assert_eq!(alloc.allocate(layout(1, 1)), None);
}

#[test]
fn linked_list_no_coalescing() {
    let mut alloc = Allocator::new();
    alloc.add_free_region(Region::new(B1, 64));
    alloc.add_free_region(Region::new(B1 + 64, 64));
    assert_eq!(
        alloc.free_regions(),
        vec![Region { base: B1 + 64, len: 64 }, Region { base: B1, len: 64 }]
    );
    assert_eq!(alloc.allocate(layout(128, 8)), None);
    assert_eq!(alloc.allocate(layout(72, 8)), None);
    assert_eq!(
        alloc.allocate(layout(64, 8)),
        Some(Region { base: B1 + 64, len: 64 })
    );
    assert_eq!(
        alloc.allocate(layout(64, 8)),
        Some(Region { base: B1, len: 64 })
    );
    alloc.dealloc(B1, layout(64, 8));
    alloc.dealloc(B1 + 64, layout(64, 8));
    assert_eq!(alloc.allocate(layout(128, 8)), None);
}

#[test]
fn linked_list_first_fit_skips_short_regions() {
    let mut alloc = Allocator::new();
    alloc.add_free_region(Region::new(B2, 1024));
    alloc.add_free_region(Region::new(B1, 32));
    assert_eq!(
        alloc.allocate(layout(64, 8)),
        Some(Region { base: B2, len: 64 })
    );
    // the tail of the second pool went to the front
    assert_eq!(
        alloc.allocate(layout(32, 8)),
        Some(Region { base: B2 + 64, len: 32 })
    );
    alloc.dealloc(B2, layout(64, 8));
    assert_eq!(
        alloc.allocate(layout(16, 8)),
        Some(Region { base: B2, len: 16 })
    );
}

#[test]
fn linked_list_allocations_are_widened() {
    let mut alloc = Allocator::new();
    alloc.add_free_region(Region::new(B1, 4096));
    assert_eq!(
        alloc.allocate(layout(1, 1)),
        Some(Region { base: B1, len: NODE_SIZE })
    );
    assert_eq!(
        alloc.allocate(layout(17, 2)),
        Some(Region { base: B1 + 16, len: 24 })
    );
    assert_eq!(
        alloc.allocate(layout(0, 1)),
        Some(Region { base: B1 + 40, len: NODE_SIZE })
    );
    assert_eq!(
        alloc.allocate(layout(33, 32)),
        Some(Region { base: B1 + 64, len: 64 })
    );
}

#[test]
fn linked_list_adjust() {
    assert_eq!(Allocator::adjust(layout(1, 1)), Some(layout(NODE_SIZE, NODE_ALIGN)));
    assert_eq!(Allocator::adjust(layout(0, 1)), Some(layout(NODE_SIZE, NODE_ALIGN)));
    assert_eq!(Allocator::adjust(layout(8, 8)), Some(layout(16, 8)));
    assert_eq!(Allocator::adjust(layout(16, 8)), Some(layout(16, 8)));
    assert_eq!(Allocator::adjust(layout(17, 8)), Some(layout(24, 8)));
    assert_eq!(Allocator::adjust(layout(17, 4)), Some(layout(24, 8)));
    assert_eq!(Allocator::adjust(layout(16, 64)), Some(layout(64, 64)));
    assert_eq!(Allocator::adjust(layout(0, 64)), Some(layout(16, 64)));
    assert_eq!(Allocator::adjust(layout(4096, 1)), Some(layout(4096, 8)));
    assert_eq!(Allocator::adjust(layout(usize::MAX, 1)), None);
    assert_eq!(
        Allocator::adjust(layout(usize::MAX - 7, 1)),
        Some(layout(usize::MAX - 7, 8))
    );
}

#[test]
fn linked_list_live_allocations_do_not_overlap() {
    let mut alloc = Allocator::new();
    alloc.add_free_region(Region::new(B1 + 8, 512));
    alloc.add_free_region(Region::new(B2, 512));
    let requests = [(3usize, 1usize), (8, 8), (1, 64), (24, 4), (200, 128), (16, 16), (100, 8)];
    let mut live: Vec<(Region, Layout)> = Vec::new();
    for (size, align) in requests {
        let l = layout(size, align);
        let r = alloc.allocate(l).unwrap();
        assert_eq!(r.base % align, 0);
        assert!(r.len >= size);
        assert!(
            (B1 + 8 <= r.base && r.base + r.len <= B1 + 8 + 512)
                || (B2 <= r.base && r.base + r.len <= B2 + 512)
        );
        for (other, _) in &live {
            assert!(other.base + other.len <= r.base || r.base + r.len <= other.base);
        }
        live.push((r, l));
    }
    for (r, l) in live {
        alloc.dealloc(r.base, l);
    }
}
