use allocator::bump::Allocator;
use allocator::layout::Layout;
use allocator::region::Region;
use allocator::Allocator as _;

const BASE: usize = 0x1000;

fn layout(size: usize, align: usize) -> Layout {
    Layout::from_size_align(size, align).unwrap()
}

#[test]
fn bump_test() {
    const HEAP_SIZE: usize = 1 << 4;
    let mut alloc = Allocator::new(Region::new(BASE, HEAP_SIZE));
    let l1 = layout(8, 8);
    let l2 = layout(8, 8);
    let l3 = layout(8, 8);
    let p1 = alloc.allocate(l1).unwrap();
    let p2 = alloc.allocate(l2).unwrap();
    assert!(alloc.allocate(l3).is_none());
    alloc.dealloc(p1.base, l1);
    alloc.dealloc(p2.base, l2);
    alloc.allocate(l3).unwrap();
}

#[test]
fn bump_exhaust_and_reset() {
    let mut alloc = Allocator::new(Region::new(BASE, 16));
    let l = layout(8, 8);
    let a = alloc.allocate(l);
    assert_eq!(a, Some(Region { base: BASE, len: 8 }));
    let b = alloc.allocate(l);
    assert_eq!(b, Some(Region { base: BASE + 8, len: 8 }));
    let c = alloc.allocate(l);
    assert_eq!(c, None);
    alloc.dealloc(a.unwrap().base, l);
    alloc.dealloc(b.unwrap().base, l);
    assert_eq!(alloc.allocate(l), Some(Region { base: BASE, len: 8 }));
}

#[test]
fn bump_single_free_resets() {
    let mut alloc = Allocator::new(Region::new(BASE, 16));
    let l = layout(8, 8);
    let a = alloc.allocate(l).unwrap();
    alloc.dealloc(a.base, l);
    assert_eq!(alloc.allocate(l), Some(Region { base: BASE, len: 8 }));
}

#[test]
fn bump_partial_free_does_not_reset() {
    let mut alloc = Allocator::new(Region::new(BASE, 16));
    let l = layout(8, 8);
    let a = alloc.allocate(l).unwrap();
    let _b = alloc.allocate(l).unwrap();
    alloc.dealloc(a.base, l);
    assert_eq!(alloc.allocate(l), None);
}

#[test]
fn bump_aligns_each_allocation() {
    let mut alloc = Allocator::new(Region::new(BASE + 1, 64));
    assert_eq!(
        alloc.allocate(layout(1, 1)),
        Some(Region { base: BASE + 1, len: 1 })
    );
    assert_eq!(
        alloc.allocate(layout(4, 16)),
        Some(Region { base: BASE + 16, len: 4 })
    );
    assert_eq!(
        alloc.allocate(layout(2, 2)),
        Some(Region { base: BASE + 20, len: 2 })
    );
    assert_eq!(
        alloc.allocate(layout(8, 32)),
        Some(Region { base: BASE + 32, len: 8 })
    );
}

#[test]
fn bump_zero_size_counts_as_allocation() {
    let mut alloc = Allocator::new(Region::new(BASE, 16));
    let zero = layout(0, 1);
    let l = layout(16, 8);
    let z = alloc.allocate(zero);
    assert_eq!(z, Some(Region { base: BASE, len: 0 }));
    let a = alloc.allocate(l);
    assert_eq!(a, Some(Region { base: BASE, len: 16 }));
    // the zero-sized allocation is still out, so nothing comes back yet
    alloc.dealloc(BASE, l);
    assert_eq!(alloc.allocate(layout(1, 1)), None);
    alloc.dealloc(BASE, zero);
    assert_eq!(alloc.allocate(l), Some(Region { base: BASE, len: 16 }));
}

#[test]
fn bump_too_large_leaves_state() {
    let mut alloc = Allocator::new(Region::new(BASE, 16));
    assert_eq!(alloc.allocate(layout(17, 1)), None);
    assert_eq!(
        alloc.allocate(layout(16, 1)),
        Some(Region { base: BASE, len: 16 })
    );
}

#[test]
fn bump_overflow_is_no_fit() {
    let mut alloc = Allocator::new(Region::new(BASE, 16));
    let first = alloc.allocate(layout(4, 4)).unwrap();
    assert_eq!(first, Region { base: BASE, len: 4 });
    assert_eq!(alloc.allocate(layout(usize::MAX, 1)), None);
    assert_eq!(
        alloc.allocate(layout(4, 4)),
        Some(Region { base: BASE + 4, len: 4 })
    );
}

#[test]
fn bump_alignment_overflow_is_no_fit() {
    let top = usize::MAX - 15;
    let mut alloc = Allocator::new(Region::new(top + 1, 14));
    assert_eq!(alloc.allocate(layout(1, 32)), None);
    assert_eq!(
        alloc.allocate(layout(2, 1)),
        Some(Region { base: top + 1, len: 2 })
    );
}

#[test]
fn bump_empty_region() {
    let mut alloc = Allocator::new(Region::new(BASE, 0));
    assert_eq!(alloc.allocate(layout(1, 1)), None);
    assert_eq!(
        alloc.allocate(layout(0, 8)),
        Some(Region { base: BASE, len: 0 })
    );
}

#[test]
fn bump_live_allocations_do_not_overlap() {
    let mut alloc = Allocator::new(Region::new(BASE + 3, 256));
    let requests = [(3usize, 1usize), (8, 8), (1, 64), (24, 4), (0, 2), (16, 16)];
    let mut live: Vec<Region> = Vec::new();
    for (size, align) in requests {
        let r = alloc.allocate(layout(size, align)).unwrap();
        assert_eq!(r.base % align, 0);
        assert_eq!(r.len, size);
        assert!(BASE + 3 <= r.base && r.base + r.len <= BASE + 3 + 256);
        for other in &live {
            assert!(
                r.len == 0
                    || other.len == 0
                    || other.base + other.len <= r.base
                    || r.base + r.len <= other.base
            );
        }
        live.push(r);
    }
}
