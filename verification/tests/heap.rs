use mongo_os::allocator::{BUDDY_ALLOCATOR_ORDER, HEAP_BOTTOM, heap_pages, HEAP_SIZE};
use mongo_os::mem::{usable_frame, BootInfoFrameAllocator, MemoryRegion};

#[test]
fn kernel_heap_constants() {
    assert_eq!(HEAP_BOTTOM, 0x4444_4444_0000);
    assert_eq!(HEAP_SIZE, 1024 * 1024);
    assert_eq!(BUDDY_ALLOCATOR_ORDER, HEAP_SIZE.trailing_zeros() as usize + 1);
}

#[test]
fn kernel_heap_is_backed_by_256_pages() {
    let pages = heap_pages(HEAP_BOTTOM, HEAP_SIZE);
    assert_eq!(pages.len(), 256);
    assert_eq!(pages[0], HEAP_BOTTOM);
    assert_eq!(pages[255], HEAP_BOTTOM + HEAP_SIZE - 4096);
    for i in 1..pages.len() {
        assert_eq!(pages[i], pages[i - 1] + 4096);
    }
}

#[test]
fn pages_cover_a_heap_that_is_not_page_aligned() {
    // The first page starts below the heap: the page, not the address, is named.
    assert_eq!(heap_pages(0x1234, 1), vec![0x1000]);
    assert_eq!(heap_pages(0x1FFF, 2), vec![0x1000, 0x2000]);
    assert_eq!(heap_pages(0x1800, 0x1000), vec![0x1000, 0x2000]);
    assert_eq!(heap_pages(0x1000, 0x1000), vec![0x1000]);
    assert_eq!(heap_pages(0x1000, 0x1001), vec![0x1000, 0x2000]);
}

fn map() -> Vec<MemoryRegion> {
    vec![
        MemoryRegion { start: 0x0, end: 0x1000, usable: false },
        MemoryRegion { start: 0x1000, end: 0x3000, usable: true },
        MemoryRegion { start: 0x3000, end: 0x3000, usable: true },
        MemoryRegion { start: 0x8000, end: 0x9000, usable: false },
        MemoryRegion { start: 0x10_0800, end: 0x10_2000, usable: true },
    ]
}

#[test]
fn usable_frames_come_in_map_order() {
    let regions = map();
    assert_eq!(usable_frame(&regions, 0), Some(0x1000));
    assert_eq!(usable_frame(&regions, 1), Some(0x2000));
    // The region starts in the middle of a frame: the frame that holds each step.
    assert_eq!(usable_frame(&regions, 2), Some(0x10_0000));
    assert_eq!(usable_frame(&regions, 3), Some(0x10_1000));
    assert_eq!(usable_frame(&regions, 4), None);
    assert_eq!(usable_frame(&regions, usize::MAX), None);
    assert_eq!(usable_frame(&Vec::new(), 0), None);
}

#[test]
fn frame_allocator_hands_out_each_frame_once() {
    let mut frames = BootInfoFrameAllocator::init(map());
    assert_eq!(frames.allocate_frame(), Some(0x1000));
    assert_eq!(frames.allocate_frame(), Some(0x2000));
    assert_eq!(frames.allocate_frame(), Some(0x10_0000));
    assert_eq!(frames.allocate_frame(), Some(0x10_1000));
    assert_eq!(frames.allocate_frame(), None);
    assert_eq!(frames.allocate_frame(), None);
}
