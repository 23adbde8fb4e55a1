use mongo_os::allocator::align_up;
use mongo_os::allocator::layout::{Layout, LayoutError};
use mongo_os::allocator::power::{buddy_of, is_pow2, order_of, pow2_word};

#[test]
fn align_up_rounds_to_the_next_multiple() {
    assert_eq!(align_up(0, 8), 0);
    assert_eq!(align_up(1, 8), 8);
    assert_eq!(align_up(8, 8), 8);
    assert_eq!(align_up(9, 8), 16);
    assert_eq!(align_up(0x4444_4444_0001, 4096), 0x4444_4444_1000);
    assert_eq!(align_up(17, 1), 17);
    assert_eq!(align_up(usize::MAX - 7, 8), usize::MAX - 7);
}

#[test]
fn powers_of_two_are_recognised() {
    assert!(!is_pow2(0));
    assert!(is_pow2(1));
    assert!(is_pow2(2));
    assert!(!is_pow2(3));
    assert!(is_pow2(4096));
    assert!(!is_pow2(4097));
    assert!(is_pow2(1 << (usize::BITS - 1)));
    assert!(!is_pow2(usize::MAX));
}

#[test]
fn orders_and_buddies() {
    assert_eq!(pow2_word(0), 1);
    assert_eq!(pow2_word(20), 0x10_0000);
    assert_eq!(order_of(0), 0);
    assert_eq!(order_of(1), 0);
    assert_eq!(order_of(2), 1);
    assert_eq!(order_of(3), 2);
    assert_eq!(order_of(64), 6);
    assert_eq!(order_of(65), 7);
    assert_eq!(buddy_of(0x1000, 6), 0x1040);
    assert_eq!(buddy_of(0x1040, 6), 0x1000);
    assert_eq!(buddy_of(0x1000, 12), 0);
    assert_eq!(buddy_of(0, 12), 0x1000);
}

#[test]
fn layouts_are_checked() {
    assert_eq!(Layout::from_size_align(8, 0).err(), Some(LayoutError));
    assert_eq!(Layout::from_size_align(8, 3).err(), Some(LayoutError));
    assert!(Layout::from_size_align(0, 1).is_ok());
    let max = isize::MAX as usize;
    assert!(Layout::from_size_align(max, 1).is_ok());
    assert!(Layout::from_size_align(max + 1, 1).is_err());
    assert!(Layout::from_size_align(max - 7, 8).is_ok());
    assert!(Layout::from_size_align(max - 6, 8).is_err());
    let l = Layout::from_size_align(13, 4).unwrap();
    assert_eq!((l.size(), l.align()), (13, 4));
}

#[test]
fn layouts_are_raised_and_padded() {
    let l = Layout::from_size_align(13, 4).unwrap();
    let raised = l.align_to(8).unwrap();
    assert_eq!((raised.size(), raised.align()), (13, 8));
    let kept = l.align_to(2).unwrap();
    assert_eq!((kept.size(), kept.align()), (13, 4));
    assert!(l.align_to(12).is_err());
    let padded = raised.pad_to_align();
    assert_eq!((padded.size(), padded.align()), (16, 8));
    let exact = Layout::from_size_align(32, 16).unwrap().pad_to_align();
    assert_eq!((exact.size(), exact.align()), (32, 16));
}
