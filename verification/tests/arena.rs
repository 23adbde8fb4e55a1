use mongo_os::allocator::arena::{Arena, NIL};
use mongo_os::allocator::buddy::list::LinkedList;
use mongo_os::allocator::buddy::BuddyAllocator;
use mongo_os::allocator::fixed_size_block::FixedSizeBlock;
use mongo_os::allocator::layout::Layout;
use mongo_os::allocator::linked_list::LinkedListAllocator;

fn layout(size: usize, align: usize) -> Layout {
    Layout::from_size_align(size, align).unwrap()
}

#[test]
fn arena_words_are_read_back() {
    let empty = Arena::empty();
    assert_eq!((empty.start_addr(), empty.end_addr()), (0, 0));
    // Only whole words are covered.
    let mut arena = Arena::new(0x1000, 0x2C);
    assert_eq!((arena.start_addr(), arena.end_addr()), (0x1000, 0x1028));
    for addr in (0x1000..0x1028).step_by(8) {
        assert_eq!(arena.read(addr), 0);
    }
    arena.write(0x1008, 7);
    arena.write(0x1020, usize::MAX);
    assert_eq!(arena.read(0x1000), 0);
    assert_eq!(arena.read(0x1008), 7);
    assert_eq!(arena.read(0x1010), 0);
    assert_eq!(arena.read(0x1020), usize::MAX);
    arena.write(0x1008, 9);
    assert_eq!(arena.read(0x1008), 9);
}

#[test]
fn a_new_list_is_empty() {
    let list = LinkedList::new();
    assert!(list.is_empty());
    assert_eq!(list.head(), NIL);
    assert_eq!(NIL, usize::MAX);
}

#[test]
fn buddy_allocator_says_which_heaps_it_takes() {
    assert!(BuddyAllocator::<21>::accepts_heap(0x4444_4444_0000, 0x10_0000));
    // A heap may start at the lowest address.
    assert!(BuddyAllocator::<21>::accepts_heap(0, 0x1000));
    // Two blocks of the largest bucket are one bucket too many.
    assert!(!BuddyAllocator::<21>::accepts_heap(0x10_0000, 0x20_0000));
    assert!(BuddyAllocator::<21>::accepts_heap(0x10_0000, 0x1F_FFFF));
    // A heap must have room for one block of the minimum size.
    assert!(!BuddyAllocator::<21>::accepts_heap(0x1000, 0));
    assert!(!BuddyAllocator::<21>::accepts_heap(0x10_0000, 8));
    assert!(!BuddyAllocator::<21>::accepts_heap(0x1000, 15));
    assert!(BuddyAllocator::<21>::accepts_heap(0x1000, 16));
    // Rounded inward, these sixteen bytes hold no aligned block.
    assert!(!BuddyAllocator::<21>::accepts_heap(0x1008, 16));
    assert!(BuddyAllocator::<21>::accepts_heap(0x1008, 24));
    assert!(!BuddyAllocator::<21>::accepts_heap(0x1008, 7));
    assert!(!BuddyAllocator::<21>::accepts_heap(usize::MAX - 7, 1));
    assert!(!BuddyAllocator::<21>::accepts_heap(0x1000, usize::MAX));
    assert!(BuddyAllocator::<64>::accepts_heap(0x1000, 0x100_0000));
    assert!(!BuddyAllocator::<4>::accepts_heap(0x1000, 16));
    assert!(BuddyAllocator::<5>::accepts_heap(0x1000, 16));
}

#[test]
fn buddy_allocator_knows_its_blocks() {
    let mut heap: BuddyAllocator<21> = BuddyAllocator::new();
    heap.init(0x10_0000, 0x1000);
    assert!(heap.holds_block(0x10_0000, &layout(64, 8)));
    assert!(heap.holds_block(0x10_0FC0, &layout(64, 8)));
    // Not aligned to the block's size.
    assert!(!heap.holds_block(0x10_0020, &layout(64, 8)));
    // Outside the heap, at either end.
    assert!(!heap.holds_block(0x10_1000, &layout(64, 8)));
    assert!(!heap.holds_block(0x0F_F000, &layout(64, 8)));
    assert!(!heap.holds_block(0x10_0000, &layout(0x2000, 8)));
    // No bucket for the block.
    let small: BuddyAllocator<6> = BuddyAllocator::new();
    assert!(!small.holds_block(0x40, &layout(64, 8)));
}

#[test]
fn list_allocator_says_which_heaps_and_blocks_are_its_own() {
    assert!(LinkedListAllocator::accepts_heap(0x1000, 16));
    assert!(!LinkedListAllocator::accepts_heap(0x1000, 15));
    assert!(!LinkedListAllocator::accepts_heap(0x1004, 64));
    assert!(LinkedListAllocator::accepts_heap(0, 64));
    assert!(!LinkedListAllocator::accepts_heap(usize::MAX - 7, 16));
    let mut heap = LinkedListAllocator::new();
    heap.init(0x1000, 0x100);
    assert!(heap.holds_block(0x1000, &layout(0x100, 8)));
    assert!(heap.holds_block(0x10F0, &layout(1, 1)));
    assert!(!heap.holds_block(0x10F8, &layout(1, 1)));
    assert!(!heap.holds_block(0x1004, &layout(8, 4)));
    assert!(!heap.holds_block(0x0FF8, &layout(8, 8)));
    assert!(!heap.holds_block(0x1000, &layout(isize::MAX as usize - 3, 1)));
}

#[test]
fn block_allocator_knows_its_blocks() {
    let mut blocks = FixedSizeBlock::new();
    blocks.init(0x1000, 0x1000);
    assert!(blocks.holds_block(0x1000, &layout(2048, 8)));
    assert!(blocks.holds_block(0x1FF8, &layout(8, 8)));
    assert!(!blocks.holds_block(0x1FF8, &layout(9, 8)));
    assert!(!blocks.holds_block(0x1004, &layout(4, 4)));
    assert!(!blocks.holds_block(0x1000, &layout(4096, 8)));
    assert!(!blocks.holds_block(0, &layout(8, 8)));
}

#[test]
fn arena_grows_and_keeps_its_words() {
    let mut arena = Arena::empty();
    arena.cover(0x2000, 0x2010);
    assert_eq!((arena.start_addr(), arena.end_addr()), (0x2000, 0x2010));
    arena.write(0x2000, 1);
    arena.write(0x2008, 2);
    // Covered already: nothing changes.
    arena.cover(0x2008, 0x2010);
    assert_eq!((arena.start_addr(), arena.end_addr()), (0x2000, 0x2010));
    // Upward, with a gap between.
    arena.cover(0x2020, 0x2030);
    assert_eq!((arena.start_addr(), arena.end_addr()), (0x2000, 0x2030));
    // Downward.
    arena.cover(0x1FF0, 0x2000);
    assert_eq!((arena.start_addr(), arena.end_addr()), (0x1FF0, 0x2030));
    assert_eq!(arena.read(0x2000), 1);
    assert_eq!(arena.read(0x2008), 2);
    for addr in [0x1FF0, 0x1FF8, 0x2010, 0x2018, 0x2020, 0x2028] {
        assert_eq!(arena.read(addr), 0);
    }
}
