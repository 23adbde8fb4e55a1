use mongo_os::allocator::arena::NIL;
use mongo_os::allocator::layout::Layout;
use mongo_os::allocator::linked_list::{LinkedListAllocator, ListNode};
use mongo_os::allocator::linked_list::model::Region;

const BASE: usize = 0x10_0000;
const SIZE: usize = 0x1000;

fn layout(size: usize, align: usize) -> Layout {
    Layout::from_size_align(size, align).unwrap()
}

fn fresh() -> LinkedListAllocator {
    let mut heap = LinkedListAllocator::new();
    heap.init(BASE, SIZE);
    heap
}

fn region(start: usize, size: usize) -> Region {
    Region { start, size }
}

#[test]
fn new_list_allocator_is_empty() {
    let mut heap = LinkedListAllocator::new();
    assert!(heap.free_regions().is_empty());
    assert_eq!(heap.allocate(layout(1, 1)), Err(()));
}

#[test]
fn init_gives_one_region() {
    let heap = fresh();
    assert_eq!(heap.free_regions(), vec![region(BASE, SIZE)]);
}

#[test]
fn size_align_raises_to_a_region() {
    assert_eq!(LinkedListAllocator::size_align(layout(1, 1)), (16, 8));
    assert_eq!(LinkedListAllocator::size_align(layout(17, 4)), (24, 8));
    assert_eq!(LinkedListAllocator::size_align(layout(33, 32)), (64, 32));
    assert_eq!(LinkedListAllocator::size_align(layout(0, 8)), (16, 8));
}

#[test]
fn alloc_from_region_checks_the_remainder() {
    let node = ListNode::new(BASE, 64);
    assert_eq!(node.start_addr(), BASE);
    assert_eq!(node.end_addr(), BASE + 64);
    // Exact fit.
    assert_eq!(LinkedListAllocator::alloc_from_region(&node, 64, 8), Ok(BASE));
    // Remainder of 16 bytes can hold a header.
    assert_eq!(LinkedListAllocator::alloc_from_region(&node, 48, 8), Ok(BASE));
    // Remainder of 8 bytes cannot.
    assert_eq!(LinkedListAllocator::alloc_from_region(&node, 56, 8), Err(()));
    // Too large.
    assert_eq!(LinkedListAllocator::alloc_from_region(&node, 72, 8), Err(()));
    // Alignment moves the start.
    let odd = ListNode::new(BASE + 8, 56);
    assert_eq!(LinkedListAllocator::alloc_from_region(&odd, 16, 32), Ok(BASE + 32));
    assert_eq!(LinkedListAllocator::alloc_from_region(&odd, 32, 32), Ok(BASE + 32));
    assert_eq!(LinkedListAllocator::alloc_from_region(&odd, 24, 32), Err(()));
    // The end of the allocation does not fit the address space.
    let top = ListNode::new(usize::MAX - 63, 63);
    assert_eq!(LinkedListAllocator::alloc_from_region(&top, 64, 8), Err(()));
}

#[test]
fn first_fit_takes_the_lowest_region_and_returns_the_excess() {
    let mut heap = fresh();
    let a = heap.allocate(layout(100, 8)).unwrap();
    assert_eq!(a, BASE);
    assert_eq!(heap.free_regions(), vec![region(BASE + 104, SIZE - 104)]);
    let b = heap.allocate(layout(16, 16)).unwrap();
    // The start of the region is aligned up; the bytes before it are not free.
    assert_eq!(b, BASE + 112);
    assert_eq!(heap.free_regions(), vec![region(BASE + 128, SIZE - 128)]);
}

#[test]
fn freed_regions_merge_with_both_neighbours() {
    let mut heap = fresh();
    let l = layout(64, 8);
    let a = heap.allocate(l).unwrap();
    let b = heap.allocate(l).unwrap();
    let c = heap.allocate(l).unwrap();
    assert_eq!((a, b, c), (BASE, BASE + 64, BASE + 128));
    assert_eq!(heap.free_regions(), vec![region(BASE + 192, SIZE - 192)]);
    heap.deallocate(a, l);
    assert_eq!(heap.free_regions(), vec![region(BASE, 64), region(BASE + 192, SIZE - 192)]);
    heap.deallocate(c, l);
    assert_eq!(heap.free_regions(), vec![region(BASE, 64), region(BASE + 128, SIZE - 128)]);
    heap.deallocate(b, l);
    assert_eq!(heap.free_regions(), vec![region(BASE, SIZE)]);
}

#[test]
fn a_region_that_would_leave_a_sliver_is_passed_over() {
    let mut heap = fresh();
    let small = layout(24, 8);
    let a = heap.allocate(small).unwrap();
    let keep = heap.allocate(layout(64, 8)).unwrap();
    heap.deallocate(a, small);
    assert_eq!(heap.free_regions(), vec![region(BASE, 24), region(BASE + 88, SIZE - 88)]);
    // 16 bytes would leave 8 of the first region, too few for a header.
    let b = heap.allocate(layout(16, 8)).unwrap();
    assert_eq!(b, BASE + 88);
    // 24 bytes fit the first region exactly.
    let c = heap.allocate(small).unwrap();
    assert_eq!(c, BASE);
    assert_eq!(heap.free_regions(), vec![region(BASE + 104, SIZE - 104)]);
    assert_eq!(keep, BASE + 24);
}

#[test]
fn exhaustion_is_reported() {
    let mut heap = fresh();
    assert_eq!(heap.allocate(layout(SIZE + 8, 8)), Err(()));
    assert_eq!(heap.allocate(layout(SIZE, 8)), Ok(BASE));
    assert!(heap.free_regions().is_empty());
    assert_eq!(heap.allocate(layout(1, 1)), Err(()));
    heap.deallocate(BASE, layout(SIZE, 8));
    assert_eq!(heap.free_regions(), vec![region(BASE, SIZE)]);
}

#[test]
fn add_free_region_keeps_address_order() {
    let mut heap = fresh();
    let l = layout(32, 8);
    let mut blocks = Vec::new();
    for _ in 0..6 {
        blocks.push(heap.allocate(l).unwrap());
    }
    heap.add_free_region(blocks[4], 32);
    heap.add_free_region(blocks[0], 32);
    heap.add_free_region(blocks[2], 32);
    assert_eq!(
        heap.free_regions(),
        vec![
            region(BASE, 32),
            region(BASE + 64, 32),
            region(BASE + 128, 32),
            region(BASE + 192, SIZE - 192)
        ]
    );
    heap.add_free_region(blocks[1], 32);
    assert_eq!(
        heap.free_regions(),
        vec![region(BASE, 96), region(BASE + 128, 32), region(BASE + 192, SIZE - 192)]
    );
    heap.add_free_region(blocks[5], 32);
    assert_eq!(heap.free_regions(), vec![region(BASE, 96), region(BASE + 128, SIZE - 128)]);
    heap.add_free_region(blocks[3], 32);
    assert_eq!(heap.free_regions(), vec![region(BASE, SIZE)]);
}

#[test]
fn live_blocks_never_overlap_one_another_or_a_free_region() {
    let mut heap = LinkedListAllocator::new();
    heap.init(BASE, 0x10000);
    let mut live: Vec<(usize, usize, Layout)> = Vec::new();
    let mut seed: u64 = 0x9E37_79B9_7F4A_7C15;
    for _ in 0..1500 {
        seed ^= seed << 13;
        seed ^= seed >> 7;
        seed ^= seed << 17;
        if seed % 3 == 0 && !live.is_empty() {
            let i = (seed >> 8) as usize % live.len();
            let (addr, _, l) = live.swap_remove(i);
            heap.deallocate(addr, l);
        } else {
            let size = 1 + (seed >> 16) as usize % 700;
            let align = 1usize << ((seed >> 40) % 7);
            let l = layout(size, align);
            if let Ok(addr) = heap.allocate(l) {
                let (granted, served_align) = LinkedListAllocator::size_align(l);
                assert_eq!(addr % served_align, 0);
                assert!(BASE <= addr && addr + granted <= BASE + 0x10000);
                for (other, other_size, _) in &live {
                    assert!(addr + granted <= *other || *other + *other_size <= addr);
                }
                live.push((addr, granted, l));
            }
        }
        let regions = heap.free_regions();
        for pair in regions.windows(2) {
            assert!(pair[0].start + pair[0].size < pair[1].start);
        }
        for r in &regions {
            assert!(r.size >= 16 && r.start % 8 == 0);
            for (addr, size, _) in &live {
                assert!(r.start + r.size <= *addr || *addr + *size <= r.start);
            }
        }
    }
}

#[test]
fn regions_added_to_an_allocator_without_heap_merge_in_either_order() {
    let mut heap = LinkedListAllocator::new();
    heap.add_free_region(0x1000, 0x100);
    assert_eq!(heap.free_regions(), vec![region(0x1000, 0x100)]);
    heap.add_free_region(0x1100, 0x100);
    assert_eq!(heap.free_regions(), vec![region(0x1000, 0x200)]);

    let mut heap = LinkedListAllocator::new();
    heap.add_free_region(0x1100, 0x100);
    assert_eq!(heap.free_regions(), vec![region(0x1100, 0x100)]);
    heap.add_free_region(0x1000, 0x100);
    assert_eq!(heap.free_regions(), vec![region(0x1000, 0x200)]);
    assert_eq!(heap.allocate(layout(0x200, 8)), Ok(0x1000));
    assert!(heap.free_regions().is_empty());
}

#[test]
fn regions_apart_stay_apart() {
    let mut heap = LinkedListAllocator::new();
    heap.add_free_region(0x3000, 0x40);
    heap.add_free_region(0x1000, 0x40);
    heap.add_free_region(0x2000, 0x44);
    assert_eq!(
        heap.free_regions(),
        vec![region(0x1000, 0x40), region(0x2000, 0x44), region(0x3000, 0x40)]
    );
    assert!(heap.holds_block(0x3000, &layout(0x40, 8)));
    assert!(!heap.holds_block(0x3008, &layout(0x40, 8)));
    assert!(!heap.holds_block(0x0FF8, &layout(8, 8)));
    heap.add_free_region(0x1040, 0xFC0);
    assert_eq!(heap.free_regions(), vec![region(0x1000, 0x1044), region(0x3000, 0x40)]);
}

#[test]
fn regions_given_back_in_either_order_leave_the_same_list() {
    let blocks = [layout(64, 8), layout(200, 8), layout(32, 8), layout(512, 8)];
    let orders: [[usize; 4]; 4] = [[0, 1, 2, 3], [3, 2, 1, 0], [1, 3, 0, 2], [2, 0, 3, 1]];
    for first in 0..4 {
        for second in 0..4 {
            if first == second {
                continue;
            }
            let mut one = fresh();
            let mut other = fresh();
            let mut at = Vec::new();
            for block in blocks {
                let addr = one.allocate(block).unwrap();
                assert_eq!(other.allocate(block), Ok(addr));
                at.push(addr);
            }
            one.deallocate(at[first], blocks[first]);
            one.deallocate(at[second], blocks[second]);
            other.deallocate(at[second], blocks[second]);
            other.deallocate(at[first], blocks[first]);
            assert_eq!(one.free_regions(), other.free_regions());
        }
    }
    for order in orders {
        let mut heap = fresh();
        let mut at = Vec::new();
        for block in blocks {
            at.push(heap.allocate(block).unwrap());
        }
        for i in order {
            heap.deallocate(at[i], blocks[i]);
        }
        assert_eq!(heap.free_regions(), vec![region(BASE, SIZE)]);
    }
}

#[test]
fn the_headers_of_free_regions_lie_in_their_first_two_words() {
    let mut heap = fresh();
    assert_eq!(heap.read_word(BASE), Some(SIZE));
    assert_eq!(heap.read_word(BASE + 8), Some(NIL));
    let a = heap.allocate(layout(64, 8)).unwrap();
    let b = heap.allocate(layout(64, 8)).unwrap();
    assert_eq!((a, b), (BASE, BASE + 64));
    heap.deallocate(a, layout(64, 8));
    assert_eq!(heap.free_regions(), vec![region(BASE, 64), region(BASE + 128, SIZE - 128)]);
    assert_eq!(heap.read_word(BASE), Some(64));
    assert_eq!(heap.read_word(BASE + 8), Some(BASE + 128));
    assert_eq!(heap.read_word(BASE + 128), Some(SIZE - 128));
    assert_eq!(heap.read_word(BASE + 136), Some(NIL));
    assert!(heap.is_header_word(BASE));
    assert!(heap.is_header_word(BASE + 8));
    assert!(!heap.is_header_word(BASE + 16));
    assert!(!heap.is_header_word(b));
    assert!(heap.is_header_word(BASE + 128));
}

#[test]
fn a_live_block_keeps_its_words_while_regions_come_and_go() {
    let mut heap = fresh();
    let a = heap.allocate(layout(64, 8)).unwrap();
    let b = heap.allocate(layout(96, 8)).unwrap();
    let c = heap.allocate(layout(64, 8)).unwrap();
    for i in 0..12 {
        assert!(heap.write_word(b + 8 * i, 0xB0B0_0000 + i));
    }
    heap.deallocate(a, layout(64, 8));
    heap.deallocate(c, layout(64, 8));
    let d = heap.allocate(layout(256, 8)).unwrap();
    assert!(d + 256 <= b || b + 96 <= d);
    let e = heap.allocate(layout(16, 8)).unwrap();
    assert_eq!(e, a);
    heap.deallocate(d, layout(256, 8));
    heap.deallocate(e, layout(16, 8));
    for i in 0..12 {
        assert_eq!(heap.read_word(b + 8 * i), Some(0xB0B0_0000 + i));
    }
    heap.deallocate(b, layout(96, 8));
    assert_eq!(heap.free_regions(), vec![region(BASE, SIZE)]);
}

#[test]
fn header_words_of_free_regions_are_not_written() {
    let mut heap = fresh();
    assert!(!heap.write_word(BASE, 1));
    assert!(!heap.write_word(BASE + 8, 1));
    assert!(heap.write_word(BASE + 16, 1));
    assert!(!heap.write_word(BASE - 8, 1));
    assert!(!heap.write_word(BASE + SIZE, 1));
    assert!(!heap.write_word(BASE + 20, 1));
    assert_eq!(heap.read_word(BASE + 16), Some(1));
    assert_eq!(heap.read_word(BASE + SIZE), None);
    assert_eq!(heap.read_word(BASE + 4), None);
    assert_eq!(heap.free_regions(), vec![region(BASE, SIZE)]);
    let a = heap.allocate(layout(32, 8)).unwrap();
    assert_eq!(a, BASE);
    assert!(heap.write_word(BASE, 5));
    assert!(heap.write_word(BASE + 8, 6));
    assert!(!heap.write_word(BASE + 32, 7));
    heap.deallocate(a, layout(32, 8));
    assert_eq!(heap.free_regions(), vec![region(BASE, SIZE)]);
}

#[test]
fn a_first_fit_heap_may_start_at_the_lowest_address() {
    assert!(LinkedListAllocator::accepts_heap(0, SIZE));
    let mut heap = LinkedListAllocator::new();
    heap.init(0, SIZE);
    assert_eq!(heap.free_regions(), vec![region(0, SIZE)]);
    let a = heap.allocate(layout(64, 8)).unwrap();
    let b = heap.allocate(layout(64, 8)).unwrap();
    assert_eq!((a, b), (0, 64));
    assert!(heap.holds_block(0, &layout(64, 8)));
    heap.deallocate(a, layout(64, 8));
    assert_eq!(heap.free_regions(), vec![region(0, 64), region(128, SIZE - 128)]);
    heap.deallocate(b, layout(64, 8));
    assert_eq!(heap.free_regions(), vec![region(0, SIZE)]);
}
