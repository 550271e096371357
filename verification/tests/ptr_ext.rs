use allocator::layout::Layout;
use allocator::linked_list_allocator::align_up;
use allocator::ptr_ext::{is_power_of_two, PtrExt};

#[test]
fn try_align_up_keeps_aligned_address() {
    assert_eq!(0x1000usize.try_align_up(8), Some(0x1000));
    assert_eq!(0usize.try_align_up(4096), Some(0));
    assert_eq!(7usize.try_align_up(1), Some(7));
    assert_eq!(usize::MAX.try_align_up(1), Some(usize::MAX));
}

#[test]
fn try_align_up_rounds_to_next_multiple() {
    assert_eq!(0x1001usize.try_align_up(8), Some(0x1008));
    assert_eq!(0x1007usize.try_align_up(8), Some(0x1008));
    assert_eq!(1usize.try_align_up(4096), Some(4096));
    assert_eq!(65usize.try_align_up(64), Some(128));
    assert_eq!(3usize.try_align_up(2), Some(4));
}

#[test]
fn try_align_up_rejects_other_alignments() {
    assert_eq!(16usize.try_align_up(0), None);
    assert_eq!(16usize.try_align_up(3), None);
    assert_eq!(16usize.try_align_up(12), None);
    assert_eq!(16usize.try_align_up(usize::MAX), None);
}

#[test]
fn try_align_up_fails_on_overflow() {
    assert_eq!(usize::MAX.try_align_up(2), None);
    assert_eq!((usize::MAX - 6).try_align_up(8), None);
    assert_eq!((usize::MAX - 7).try_align_up(8), Some(usize::MAX - 7));
    assert_eq!((usize::MAX - 8).try_align_up(8), Some(usize::MAX - 7));
    let top = 1usize << (usize::BITS - 1);
    assert_eq!(top.try_align_up(top), Some(top));
    assert_eq!((top + 1).try_align_up(top), None);
}

#[test]
fn align_up_values() {
    assert_eq!(align_up(0x1000, 8), 0x1000);
    assert_eq!(align_up(0x1001, 8), 0x1008);
    assert_eq!(align_up(0x1007, 8), 0x1008);
    assert_eq!(align_up(5, 1), 5);
    assert_eq!(align_up(1, 4096), 4096);
    assert_eq!(align_up(usize::MAX - 7, 8), usize::MAX - 7);
}

#[test]
fn align_up_agrees_with_try_align_up() {
    for addr in 0usize..200 {
        for shift in 0..7 {
            let align = 1usize << shift;
            let up = align_up(addr, align);
            assert_eq!(addr.try_align_up(align), Some(up));
            assert_eq!(up % align, 0);
            assert!(addr <= up && up < addr + align);
        }
    }
}

#[test]
fn power_of_two_check() {
    assert!(!is_power_of_two(0));
    assert!(is_power_of_two(1));
    assert!(is_power_of_two(2));
    assert!(!is_power_of_two(3));
    assert!(is_power_of_two(4096));
    assert!(!is_power_of_two(4097));
    assert!(is_power_of_two(1usize << (usize::BITS - 1)));
    assert!(!is_power_of_two(usize::MAX));
    for n in 0usize..1000 {
        assert_eq!(is_power_of_two(n), n.is_power_of_two());
    }
}

#[test]
fn layout_from_size_align() {
    let l = Layout::from_size_align(24, 8).unwrap();
    assert_eq!(l.size, 24);
    assert_eq!(l.align, 8);
    assert_eq!(l, Layout { size: 24, align: 8 });
    assert_eq!(Layout::from_size_align(24, 0), None);
    assert_eq!(Layout::from_size_align(24, 6), None);
    assert_eq!(
        Layout::from_size_align(usize::MAX, 1),
        Some(Layout { size: usize::MAX, align: 1 })
    );
}
