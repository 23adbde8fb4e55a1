use mongo_os::allocator::{HEAP_BOTTOM, HEAP_SIZE};
use mongo_os::allocator::arena::NIL;
use mongo_os::allocator::buddy::BuddyAllocator;
use mongo_os::allocator::layout::Layout;

const BASE: usize = 0x4444_4440_0000;
const MIB: usize = 0x10_0000;

fn layout(size: usize, align: usize) -> Layout {
    Layout::from_size_align(size, align).unwrap()
}

fn fresh() -> BuddyAllocator<21> {
    let mut heap: BuddyAllocator<21> = BuddyAllocator::new();
    heap.init(BASE, MIB);
    heap
}

fn free_bytes(heap: &BuddyAllocator<21>) -> usize {
    let mut total = 0;
    for k in 0..21 {
        total += heap.bucket(k).len() << k;
    }
    total
}

#[test]
fn new_allocator_has_no_memory() {
    let mut heap: BuddyAllocator<21> = BuddyAllocator::new();
    for k in 0..21 {
        assert!(heap.bucket(k).is_empty());
    }
    assert_eq!(heap.allocate(layout(8, 8)), Err(()));
}

#[test]
fn kernel_heap_splits_at_its_alignment() {
    // The kernel heap starts on a 256 KiB boundary that is no 512 KiB boundary, so
    // it is made of a quarter, a half and a quarter.
    let bottom = HEAP_BOTTOM as usize;
    assert_eq!(HEAP_SIZE as usize, MIB);
    assert_eq!(bottom.trailing_zeros(), 18);
    let mut heap: BuddyAllocator<21> = BuddyAllocator::new();
    heap.init(bottom, MIB);
    let quarter = MIB / 4;
    assert_eq!(heap.bucket(18), vec![bottom + 3 * quarter, bottom]);
    assert_eq!(heap.bucket(19), vec![bottom + quarter]);
    assert!(heap.bucket(20).is_empty());
    assert_eq!(free_bytes(&heap), MIB);
    let a = heap.allocate(layout(32, 8)).unwrap();
    assert_eq!(a, bottom + 3 * quarter);
    assert_eq!(free_bytes(&heap), MIB - 32);
    heap.deallocate(a, layout(32, 8));
    assert_eq!(heap.bucket(18), vec![bottom + 3 * quarter, bottom]);
    assert_eq!(heap.bucket(19), vec![bottom + quarter]);
    for k in 0..18 {
        assert!(heap.bucket(k).is_empty());
    }
}

#[test]
fn init_yields_one_block_of_the_whole_heap() {
    let heap = fresh();
    for k in 0..20 {
        assert!(heap.bucket(k).is_empty());
    }
    assert_eq!(heap.bucket(20), vec![BASE]);
    assert_eq!(heap.bucket(21), Vec::<usize>::new());
}

#[test]
fn four_small_blocks_then_free_all() {
    let mut heap = fresh();
    let l = layout(64, 64);
    let a = heap.allocate(l).unwrap();
    let b = heap.allocate(l).unwrap();
    let c = heap.allocate(l).unwrap();
    let d = heap.allocate(l).unwrap();
    assert_eq!(a, BASE);
    assert_eq!(b, BASE + 64);
    assert_eq!(c, BASE + 128);
    assert_eq!(d, BASE + 192);
    for x in [a, b, c, d] {
        assert_eq!(x % 64, 0);
    }
    assert_eq!(free_bytes(&heap), MIB - 256);

    // b and c are not buddies: b pairs with a, c with d.
    assert_ne!(b ^ c, 64);
    heap.deallocate(b, l);
    heap.deallocate(c, l);
    assert_eq!(heap.bucket(6), vec![c, b]);
    assert!(heap.bucket(7).is_empty());

    heap.deallocate(a, l);
    assert_eq!(heap.bucket(6), vec![c]);
    assert_eq!(heap.bucket(7), vec![a]);

    heap.deallocate(d, l);
    for k in 0..20 {
        assert!(heap.bucket(k).is_empty());
    }
    assert_eq!(heap.bucket(20), vec![BASE]);
    assert_eq!(free_bytes(&heap), MIB);
}

#[test]
fn buddies_merge_one_bucket_up() {
    let mut heap = fresh();
    let l = layout(64, 8);
    let a = heap.allocate(l).unwrap();
    let b = heap.allocate(l).unwrap();
    assert_eq!(a ^ b, 64);
    let keep = heap.allocate(layout(128, 8)).unwrap();
    assert_eq!(keep, BASE + 128);
    assert!(heap.bucket(6).is_empty());
    assert!(heap.bucket(7).is_empty());
    heap.deallocate(a, l);
    assert_eq!(heap.bucket(6), vec![a]);
    heap.deallocate(b, l);
    assert!(heap.bucket(6).is_empty());
    assert_eq!(heap.bucket(7), vec![a]);
}

#[test]
fn request_larger_than_heap_fails() {
    let mut heap = fresh();
    assert_eq!(heap.allocate(layout(2 * MIB, 8)), Err(()));
    assert_eq!(heap.allocate(layout(MIB + 1, 8)), Err(()));
    assert_eq!(heap.bucket(20), vec![BASE]);
    assert_eq!(heap.allocate(layout(MIB, 8)), Ok(BASE));
    assert_eq!(heap.allocate(layout(16, 8)), Err(()));
}

#[test]
fn smallest_blocks_fill_the_heap_exactly() {
    let mut heap = fresh();
    let l = layout(16, 8);
    let mut blocks = Vec::new();
    while let Ok(a) = heap.allocate(l) {
        blocks.push(a);
    }
    assert_eq!(blocks.len(), MIB / 16);
    assert_eq!(free_bytes(&heap), 0);
    assert_eq!(heap.allocate(layout(1, 1)), Err(()));
    // Every block is a minimum block of its own.
    let mut sorted = blocks.clone();
    sorted.sort();
    for (i, a) in sorted.iter().enumerate() {
        assert_eq!(*a, BASE + 16 * i);
    }
    // One block back, one allocation possible again, and no more.
    let last = blocks.pop().unwrap();
    heap.deallocate(last, l);
    assert_eq!(heap.allocate(l), Ok(last));
    assert_eq!(heap.allocate(l), Err(()));
    blocks.push(last);
    for a in blocks {
        heap.deallocate(a, l);
    }
    assert_eq!(heap.bucket(20), vec![BASE]);
    assert_eq!(free_bytes(&heap), MIB);
}

#[test]
fn reallocation_does_not_touch_live_blocks() {
    let mut heap = fresh();
    // A shadow of the heap's bytes: what the owners of the blocks have written.
    let mut bytes = vec![0u8; MIB];
    let first = layout(200, 8);
    let a = heap.allocate(first).unwrap();
    for i in 0..200 {
        bytes[a - BASE + i] = 0xAA;
    }
    let between_layout = layout(300, 16);
    let between = heap.allocate(between_layout).unwrap();
    for i in 0..300 {
        bytes[between - BASE + i] = 0xBB;
    }
    heap.deallocate(a, first);
    let second = layout(1000, 64);
    let b = heap.allocate(second).unwrap();
    assert!(b + 1000 <= between || between + 300 <= b);
    for i in 0..1000 {
        bytes[b - BASE + i] = 0xCC;
    }
    for i in 0..300 {
        assert_eq!(bytes[between - BASE + i], 0xBB);
    }
    heap.deallocate(between, between_layout);
    heap.deallocate(b, second);
    assert_eq!(heap.bucket(20), vec![BASE]);
}

#[test]
fn live_blocks_never_overlap_and_bytes_are_conserved() {
    let mut heap = fresh();
    let mut live: Vec<(usize, usize, Layout)> = Vec::new();
    let mut seed: u64 = 0x2545_F491_4F6C_DD1D;
    for _ in 0..2000 {
        seed ^= seed << 13;
        seed ^= seed >> 7;
        seed ^= seed << 17;
        let free_one = seed % 3 == 0 && !live.is_empty();
        if free_one {
            let i = (seed >> 8) as usize % live.len();
            let (addr, _, l) = live.swap_remove(i);
            heap.deallocate(addr, l);
        } else {
            let size = 1 + (seed >> 16) as usize % 5000;
            let align = 1usize << ((seed >> 40) % 8);
            let l = layout(size, align);
            if let Ok(addr) = heap.allocate(l) {
                let granted = size.next_power_of_two().max(16).max(align);
                assert_eq!(addr % granted, 0);
                assert!(BASE <= addr && addr + granted <= BASE + MIB);
                for (other, other_size, _) in &live {
                    assert!(addr + granted <= *other || *other + *other_size <= addr);
                }
                live.push((addr, granted, l));
            }
        }
        let held: usize = live.iter().map(|(_, size, _)| *size).sum();
        assert_eq!(free_bytes(&heap) + held, MIB);
    }
    for (addr, _, l) in live {
        heap.deallocate(addr, l);
    }
    assert_eq!(heap.bucket(20), vec![BASE]);
}

#[test]
fn regions_are_cut_into_aligned_blocks() {
    let mut heap: BuddyAllocator<21> = BuddyAllocator::new();
    // Neither end is a multiple of the minimum block size: both are rounded inward.
    heap.init(0x1008, 0x1F0);
    // [0x1010, 0x11F0): 16 + 32 + 64 + 128 up to 0x1100, then 128 + 64 + 32 + 16.
    assert_eq!(heap.bucket(4), vec![0x11E0, 0x1010]);
    assert_eq!(heap.bucket(5), vec![0x11C0, 0x1020]);
    assert_eq!(heap.bucket(6), vec![0x1180, 0x1040]);
    assert_eq!(heap.bucket(7), vec![0x1100, 0x1080]);
    assert!(heap.bucket(8).is_empty());
    assert_eq!(BuddyAllocator::<21>::prev_power_of_two(1), 1);
    assert_eq!(BuddyAllocator::<21>::prev_power_of_two(0x1E0), 0x100);
    assert_eq!(BuddyAllocator::<21>::prev_power_of_two(0x10_0000), 0x10_0000);
    assert_eq!(BuddyAllocator::<21>::bucket_of(&layout(1, 1)), 4);
    assert_eq!(BuddyAllocator::<21>::bucket_of(&layout(17, 1)), 5);
    assert_eq!(BuddyAllocator::<21>::bucket_of(&layout(17, 256)), 8);
}

#[test]
fn add_free_region_extends_the_free_lists() {
    let mut heap: BuddyAllocator<21> = BuddyAllocator::new();
    heap.init(0x1000, 0x1000);
    assert_eq!(heap.bucket(12), vec![0x1000]);
    let l = layout(0x800, 8);
    let a = heap.allocate(l).unwrap();
    let b = heap.allocate(l).unwrap();
    assert_eq!((a, b), (0x1000, 0x1800));
    // Handing a region over is not a deallocation: nothing is merged.
    heap.add_free_region(0x1000, 0x1400);
    assert_eq!(heap.bucket(10), vec![0x1000]);
    heap.add_free_region(0x1400, 0x1800);
    assert_eq!(heap.bucket(10), vec![0x1400, 0x1000]);
    assert!(heap.bucket(11).is_empty());
    heap.deallocate(b, l);
    assert_eq!(heap.bucket(11), vec![0x1800]);
}

#[test]
fn regions_can_be_handed_to_an_allocator_without_heap() {
    let mut heap: BuddyAllocator<21> = BuddyAllocator::new();
    // 0x100010 is a multiple of sixteen and of no more: no block of 32 bytes starts there.
    heap.add_free_region(0x10_0010, 0x10_0030);
    assert_eq!(heap.bucket(4), vec![0x10_0020, 0x10_0010]);
    for k in 0..21 {
        if k != 4 {
            assert!(heap.bucket(k).is_empty());
        }
    }
    assert!(heap.holds_block(0x10_0010, &layout(16, 8)));
    assert!(!heap.holds_block(0x10_0000, &layout(16, 8)));
    assert!(!heap.holds_block(0x10_0030, &layout(16, 8)));

    let mut heap: BuddyAllocator<21> = BuddyAllocator::new();
    // Both ends are rounded inward: no byte outside the region becomes free.
    heap.add_free_region(0x10_0001, 0x10_002F);
    assert_eq!(heap.bucket(4), vec![0x10_0010]);
    for k in 0..21 {
        if k != 4 {
            assert!(heap.bucket(k).is_empty());
        }
    }
    assert_eq!(heap.allocate(layout(16, 16)), Ok(0x10_0010));
    assert_eq!(heap.allocate(layout(16, 16)), Err(()));
}

#[test]
fn a_heap_can_be_made_of_several_regions() {
    let mut heap: BuddyAllocator<21> = BuddyAllocator::new();
    heap.add_free_region(0x2000, 0x2100);
    heap.add_free_region(0x1000, 0x1040);
    heap.add_free_region(0x3000, 0x3020);
    // A region too small for a block adds nothing.
    heap.add_free_region(0x5008, 0x5018);
    assert_eq!(heap.bucket(8), vec![0x2000]);
    assert_eq!(heap.bucket(6), vec![0x1000]);
    assert_eq!(heap.bucket(5), vec![0x3000]);
    assert_eq!(free_bytes(&heap), 0x100 + 0x40 + 0x20);
    assert!(!heap.holds_block(0x5000, &layout(16, 8)));
    let a = heap.allocate(layout(64, 64)).unwrap();
    let b = heap.allocate(layout(64, 64)).unwrap();
    assert_eq!((a, b), (0x1000, 0x2000));
    heap.deallocate(b, layout(64, 64));
    heap.deallocate(a, layout(64, 64));
    assert_eq!(heap.bucket(8), vec![0x2000]);
    assert_eq!(heap.bucket(6), vec![0x1000]);
    assert_eq!(heap.bucket(5), vec![0x3000]);
}

#[test]
fn a_live_block_keeps_its_words_while_others_come_and_go() {
    let mut heap = fresh();
    let small = layout(64, 64);
    let a = heap.allocate(small).unwrap();
    let b = heap.allocate(small).unwrap();
    let c = heap.allocate(small).unwrap();
    let d = heap.allocate(small).unwrap();
    for i in 0..8 {
        assert!(heap.write_word(b + 8 * i, 0xA5A5_0000 + i));
        assert!(heap.write_word(d + 8 * i, 0x5A5A_0000 + i));
    }
    heap.deallocate(a, small);
    heap.deallocate(c, small);
    let e = heap.allocate(layout(16, 16)).unwrap();
    let f = heap.allocate(layout(4096, 4096)).unwrap();
    heap.deallocate(e, layout(16, 16));
    heap.deallocate(d, small);
    heap.deallocate(f, layout(4096, 4096));
    for i in 0..8 {
        assert_eq!(heap.read_word(b + 8 * i), Some(0xA5A5_0000 + i));
    }
    // The block given back keeps all but its two link words.
    for i in 2..8 {
        assert_eq!(heap.read_word(d + 8 * i), Some(0x5A5A_0000 + i));
    }
    heap.deallocate(b, small);
    assert_eq!(heap.bucket(20), vec![BASE]);
}

#[test]
fn the_links_of_free_blocks_lie_in_their_first_two_words() {
    let mut heap = fresh();
    assert_eq!(heap.read_word(BASE), Some(NIL));
    assert_eq!(heap.read_word(BASE + 8), Some(NIL));
    let small = layout(16, 16);
    let a = heap.allocate(small).unwrap();
    let b = heap.allocate(small).unwrap();
    let c = heap.allocate(small).unwrap();
    let d = heap.allocate(small).unwrap();
    assert_eq!((a, b, c, d), (BASE, BASE + 16, BASE + 32, BASE + 48));
    heap.deallocate(a, small);
    assert_eq!(heap.read_word(a), Some(NIL));
    assert_eq!(heap.read_word(a + 8), Some(NIL));
    heap.deallocate(c, small);
    // Bucket 4 holds `c` and behind it `a`.
    assert_eq!(heap.bucket(4), vec![c, a]);
    assert_eq!(heap.read_word(c), Some(a));
    assert_eq!(heap.read_word(c + 8), Some(NIL));
    assert_eq!(heap.read_word(a), Some(NIL));
    assert_eq!(heap.read_word(a + 8), Some(c));
    // `b` merges with `a`, which leaves its bucket.
    heap.deallocate(b, small);
    assert_eq!(heap.bucket(4), vec![c]);
    assert_eq!(heap.bucket(5), vec![BASE]);
    assert_eq!(heap.read_word(c), Some(NIL));
    assert_eq!(heap.read_word(c + 8), Some(NIL));
    assert_eq!(heap.read_word(BASE + 8), Some(NIL));
}

#[test]
fn words_are_read_and_written_within_the_heap_only() {
    let mut heap = fresh();
    assert_eq!(heap.read_word(BASE - 8), None);
    assert_eq!(heap.read_word(BASE + MIB), None);
    assert_eq!(heap.read_word(BASE + MIB - 8), Some(0));
    assert_eq!(heap.read_word(BASE + 4), None);
    assert!(!heap.write_word(BASE - 8, 1));
    assert!(!heap.write_word(BASE + MIB, 1));
    assert!(!heap.write_word(BASE + 12, 1));
    let block = heap.allocate(layout(64, 8)).unwrap();
    assert!(heap.write_word(block, 7));
    assert!(heap.write_word(block + 56, 9));
    assert_eq!(heap.read_word(block), Some(7));
    assert_eq!(heap.read_word(block + 56), Some(9));
    assert_eq!(heap.read_word(block + 8), Some(NIL));
}

#[test]
fn link_words_of_free_blocks_are_not_written() {
    let mut heap = fresh();
    assert!(heap.is_link_word(BASE));
    assert!(heap.is_link_word(BASE + 8));
    assert!(!heap.is_link_word(BASE + 16));
    assert!(!heap.write_word(BASE, 1));
    assert!(!heap.write_word(BASE + 8, 1));
    assert_eq!(heap.read_word(BASE), Some(NIL));
    assert_eq!(heap.bucket(20), vec![BASE]);
    let block = heap.allocate(layout(16, 16)).unwrap();
    assert_eq!(block, BASE);
    assert!(!heap.is_link_word(BASE));
    assert!(heap.is_link_word(BASE + 16));
    assert!(heap.write_word(BASE, 1));
    assert!(!heap.write_word(BASE + 16, 1));
    heap.deallocate(block, layout(16, 16));
    assert_eq!(heap.bucket(20), vec![BASE]);
}

#[test]
fn a_pattern_written_across_a_live_block_outlives_a_round_trip() {
    let mut heap = fresh();
    let first = layout(200, 8);
    let a = heap.allocate(first).unwrap();
    for i in 0..25 {
        assert!(heap.write_word(a + 8 * i, 0xAAAA_AAAA));
    }
    let between_layout = layout(300, 16);
    let between = heap.allocate(between_layout).unwrap();
    for i in 0..37 {
        assert!(heap.write_word(between + 8 * i, 0xBBBB_0000 + i));
    }
    heap.deallocate(a, first);
    let second = layout(1000, 64);
    let b = heap.allocate(second).unwrap();
    assert!(b + 1000 <= between || between + 300 <= b);
    for i in 0..125 {
        assert!(heap.write_word(b + 8 * i, 0xCCCC_CCCC));
    }
    for i in 0..37 {
        assert_eq!(heap.read_word(between + 8 * i), Some(0xBBBB_0000 + i));
    }
    heap.deallocate(between, between_layout);
    heap.deallocate(b, second);
    assert_eq!(heap.bucket(20), vec![BASE]);
}

#[test]
fn buddies_merge_whichever_is_given_back_first() {
    let small = layout(64, 64);
    let mut one = fresh();
    let a = one.allocate(small).unwrap();
    let b = one.allocate(small).unwrap();
    let keep = one.allocate(layout(128, 128)).unwrap();
    assert_eq!(a ^ b, 64);
    one.deallocate(a, small);
    one.deallocate(b, small);
    let mut other = fresh();
    assert_eq!(other.allocate(small), Ok(a));
    assert_eq!(other.allocate(small), Ok(b));
    assert_eq!(other.allocate(layout(128, 128)), Ok(keep));
    other.deallocate(b, small);
    other.deallocate(a, small);
    for k in 0..21 {
        assert_eq!(one.bucket(k), other.bucket(k));
    }
    assert!(one.bucket(6).is_empty());
    assert_eq!(one.bucket(7), vec![a.min(b)]);
}

fn sorted_buckets(heap: &BuddyAllocator<21>) -> Vec<Vec<usize>> {
    (0..21)
        .map(|k| {
            let mut blocks = heap.bucket(k);
            blocks.sort();
            blocks
        })
        .collect()
}

#[test]
fn blocks_given_back_in_any_order_leave_the_same_blocks_free() {
    let blocks = [layout(16, 16), layout(64, 64), layout(16, 8), layout(200, 8), layout(64, 16)];
    let orders: [[usize; 5]; 4] =
        [[0, 1, 2, 3, 4], [4, 3, 2, 1, 0], [2, 0, 4, 1, 3], [3, 1, 4, 0, 2]];
    for first in 0..5 {
        for second in 0..5 {
            if first == second {
                continue;
            }
            let mut one = fresh();
            let mut other = fresh();
            let mut at = Vec::new();
            for block in blocks {
                let addr = one.allocate(block).unwrap();
                assert_eq!(other.allocate(block), Ok(addr));
                at.push(addr);
            }
            one.deallocate(at[first], blocks[first]);
            one.deallocate(at[second], blocks[second]);
            other.deallocate(at[second], blocks[second]);
            other.deallocate(at[first], blocks[first]);
            assert_eq!(sorted_buckets(&one), sorted_buckets(&other));
        }
    }
    let start = sorted_buckets(&fresh());
    for order in orders {
        let mut heap = fresh();
        let mut at = Vec::new();
        for block in blocks {
            at.push(heap.allocate(block).unwrap());
        }
        for i in order {
            heap.deallocate(at[i], blocks[i]);
        }
        assert_eq!(sorted_buckets(&heap), start);
    }
}

#[test]
fn a_kernel_heap_given_back_whole_is_as_at_its_start() {
    let bottom = HEAP_BOTTOM as usize;
    let mut heap: BuddyAllocator<21> = BuddyAllocator::new();
    heap.init(bottom, MIB);
    let start = sorted_buckets(&heap);
    let sizes = [4096usize, 16, 128, 65536, 32, 1024];
    let mut at = Vec::new();
    for size in sizes {
        at.push(heap.allocate(layout(size, 16)).unwrap());
    }
    for i in [3usize, 0, 5, 1, 4, 2] {
        heap.deallocate(at[i], layout(sizes[i], 16));
    }
    assert_eq!(sorted_buckets(&heap), start);
    assert_eq!(free_bytes(&heap), MIB);
}

#[test]
fn a_heap_may_start_at_the_lowest_address() {
    assert!(BuddyAllocator::<21>::accepts_heap(0, MIB));
    let mut heap: BuddyAllocator<21> = BuddyAllocator::new();
    heap.init(0, MIB);
    assert_eq!(heap.bucket(20), vec![0]);
    assert_eq!(free_bytes(&heap), MIB);
    let small = layout(16, 16);
    let a = heap.allocate(small).unwrap();
    let b = heap.allocate(small).unwrap();
    assert_eq!((a, b), (0, 16));
    assert!(heap.holds_block(0, &small));
    assert_eq!(free_bytes(&heap), MIB - 32);
    heap.deallocate(b, small);
    assert_eq!(heap.bucket(4), vec![16]);
    heap.deallocate(a, small);
    assert_eq!(heap.bucket(20), vec![0]);
    for k in 0..20 {
        assert!(heap.bucket(k).is_empty());
    }
}

#[test]
fn the_free_blocks_after_init_are_the_heap_and_nothing_else() {
    for (start, size) in [(0usize, 0x1000usize), (0x1008, 0x1F0), (0x30, 0xFD0), (BASE, MIB)] {
        let mut heap: BuddyAllocator<21> = BuddyAllocator::new();
        heap.init(start, size);
        let lo = (start + 15) / 16 * 16;
        let hi = (start + size) / 16 * 16;
        let mut blocks = Vec::new();
        for k in 0..21 {
            for a in heap.bucket(k) {
                assert_eq!(a % (1 << k), 0);
                blocks.push((a, a + (1usize << k)));
            }
        }
        blocks.sort();
        assert_eq!(blocks.first().unwrap().0, lo);
        assert_eq!(blocks.last().unwrap().1, hi);
        for pair in blocks.windows(2) {
            assert_eq!(pair[0].1, pair[1].0);
        }
        assert_eq!(free_bytes(&heap), hi - lo);
    }
}

#[test]
fn only_the_buddy_leaves_the_bucket_of_a_block_given_back() {
    let mut heap = fresh();
    let small = layout(16, 16);
    let blocks: Vec<usize> = (0..6).map(|_| heap.allocate(small).unwrap()).collect();
    assert_eq!(blocks, (0..6).map(|i| BASE + 16 * i).collect::<Vec<_>>());
    heap.deallocate(blocks[0], small);
    heap.deallocate(blocks[3], small);
    heap.deallocate(blocks[5], small);
    assert_eq!(heap.bucket(4), vec![blocks[5], blocks[3], blocks[0]]);
    // The buddy of the third block is the fourth: it leaves, the others stay, and
    // the third does not enter.
    assert_eq!(blocks[2] ^ blocks[3], 16);
    heap.deallocate(blocks[2], small);
    assert_eq!(heap.bucket(4), vec![blocks[5], blocks[0]]);
    assert_eq!(heap.bucket(5), vec![blocks[2], BASE + 96]);
    // The buddy of the fifth block is the sixth.
    heap.deallocate(blocks[4], small);
    assert_eq!(heap.bucket(4), vec![blocks[0]]);
}

#[test]
fn a_block_without_a_free_buddy_goes_to_the_front_of_its_bucket() {
    let mut heap = fresh();
    let small = layout(16, 16);
    let blocks: Vec<usize> = (0..4).map(|_| heap.allocate(small).unwrap()).collect();
    let before = sorted_buckets(&heap);
    heap.deallocate(blocks[1], small);
    assert_eq!(heap.bucket(4), vec![blocks[1]]);
    heap.deallocate(blocks[2], small);
    assert_eq!(heap.bucket(4), vec![blocks[2], blocks[1]]);
    let after = sorted_buckets(&heap);
    for k in 0..21 {
        if k != 4 {
            assert_eq!(before[k], after[k]);
        }
    }
}

#[test]
fn buddies_of_the_largest_bucket_stay_apart() {
    // Two regions make a heap of two blocks of the largest bucket: no bucket above
    // could hold them as one.
    let mut heap: BuddyAllocator<5> = BuddyAllocator::new();
    heap.init(0x100, 16);
    heap.add_free_region(0x110, 0x120);
    assert_eq!(heap.bucket(4), vec![0x110, 0x100]);
    let small = layout(16, 16);
    assert_eq!(heap.allocate(small), Ok(0x110));
    assert_eq!(heap.bucket(4), vec![0x100]);
    heap.deallocate(0x110, small);
    assert_eq!(heap.bucket(4), vec![0x110, 0x100]);
    assert_eq!(heap.allocate(small), Ok(0x110));
    assert_eq!(heap.allocate(small), Ok(0x100));
    assert_eq!(heap.allocate(small), Err(()));
}
