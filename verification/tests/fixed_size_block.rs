use mongo_os::allocator::fixed_size_block::{block_size, Allocation, Disposal, FixedSizeBlock};
use mongo_os::allocator::layout::Layout;
use mongo_os::allocator::linked_list::LinkedListAllocator;

const BASE: usize = 0x20_0000;
const SIZE: usize = 0x2000;

fn layout(size: usize, align: usize) -> Layout {
    Layout::from_size_align(size, align).unwrap()
}

fn same(a: &Layout, b: &Layout) -> bool {
    a.size() == b.size() && a.align() == b.align()
}

/// Runs one allocation with a first-fit allocator as the general allocator.
fn allocate(blocks: &mut FixedSizeBlock, general: &mut LinkedListAllocator, l: Layout) -> Option<usize> {
    match blocks.allocate(l) {
        Allocation::Block(addr) => Some(addr),
        Allocation::Fallback(l) => general.allocate(l).ok(),
    }
}

/// Runs one deallocation with a first-fit allocator as the general allocator.
fn deallocate(blocks: &mut FixedSizeBlock, general: &mut LinkedListAllocator, addr: usize, l: Layout) {
    match blocks.deallocate(addr, l) {
        Disposal::Kept => {}
        Disposal::Fallback(l) => general.deallocate(addr, l),
    }
}

fn fresh() -> (FixedSizeBlock, LinkedListAllocator) {
    let mut blocks = FixedSizeBlock::new();
    blocks.init(BASE, SIZE);
    let mut general = LinkedListAllocator::new();
    general.init(BASE, SIZE);
    (blocks, general)
}

#[test]
fn block_sizes_are_powers_of_two_from_8_to_2048() {
    let sizes: Vec<usize> = (0..9).map(block_size).collect();
    assert_eq!(sizes, vec![8, 16, 32, 64, 128, 256, 512, 1024, 2048]);
}

#[test]
fn class_is_the_smallest_that_holds_size_and_align() {
    let blocks = FixedSizeBlock::new();
    assert_eq!(blocks.find_block_index(&layout(0, 1)), Some(0));
    assert_eq!(blocks.find_block_index(&layout(1, 1)), Some(0));
    assert_eq!(blocks.find_block_index(&layout(8, 8)), Some(0));
    assert_eq!(blocks.find_block_index(&layout(9, 1)), Some(1));
    assert_eq!(blocks.find_block_index(&layout(16, 64)), Some(3));
    assert_eq!(blocks.find_block_index(&layout(100, 4)), Some(4));
    assert_eq!(blocks.find_block_index(&layout(2048, 8)), Some(8));
    assert_eq!(blocks.find_block_index(&layout(2049, 8)), None);
    assert_eq!(blocks.find_block_index(&layout(8, 4096)), None);
}

#[test]
fn empty_class_asks_the_general_allocator_for_a_whole_block() {
    let (mut blocks, _) = fresh();
    match blocks.allocate(layout(20, 4)) {
        Allocation::Fallback(l) => assert!(same(&l, &layout(32, 32))),
        Allocation::Block(_) => panic!("the free lists are empty"),
    }
    let large = layout(5000, 8);
    match blocks.allocate(large) {
        Allocation::Fallback(l) => assert!(same(&l, &large)),
        Allocation::Block(_) => panic!("no class serves 5000 bytes"),
    }
}

#[test]
fn freed_blocks_are_reused_last_in_first_out() {
    let (mut blocks, mut general) = fresh();
    let l = layout(24, 8);
    let a = allocate(&mut blocks, &mut general, l).unwrap();
    let b = allocate(&mut blocks, &mut general, l).unwrap();
    assert_eq!((a, b), (BASE, BASE + 32));
    deallocate(&mut blocks, &mut general, a, l);
    deallocate(&mut blocks, &mut general, b, l);
    assert_eq!(blocks.free_blocks(2), vec![b, a]);
    // Blocks of a class are not merged and do not go back to the general allocator.
    assert_eq!(general.free_regions().len(), 1);
    assert_eq!(allocate(&mut blocks, &mut general, layout(32, 1)), Some(b));
    assert_eq!(allocate(&mut blocks, &mut general, l), Some(a));
    assert!(blocks.free_blocks(2).is_empty());
    assert!(blocks.free_blocks(9).is_empty());
}

#[test]
fn large_blocks_go_to_the_general_allocator_both_ways() {
    let (mut blocks, mut general) = fresh();
    let l = layout(4096, 8);
    let a = allocate(&mut blocks, &mut general, l).unwrap();
    assert_eq!(a, BASE);
    assert_eq!(general.free_regions().len(), 1);
    assert_eq!(general.free_regions()[0].start, BASE + 4096);
    match blocks.deallocate(a, l) {
        Disposal::Fallback(back) => {
            assert!(same(&back, &l));
            general.deallocate(a, back);
        }
        Disposal::Kept => panic!("no class serves 4096 bytes"),
    }
    assert_eq!(general.free_regions()[0].start, BASE);
    assert_eq!(general.free_regions()[0].size, SIZE);
    for i in 0..9 {
        assert!(blocks.free_blocks(i).is_empty());
    }
}
