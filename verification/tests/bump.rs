use mongo_os::allocator::bump::BumpAllocator;
use mongo_os::allocator::layout::Layout;

fn layout(size: usize, align: usize) -> Layout {
    Layout::from_size_align(size, align).unwrap()
}

#[test]
fn bump_moves_up_and_resets_when_all_is_freed() {
    let mut heap = BumpAllocator::new();
    assert_eq!(heap.allocate(layout(1, 1)), Err(()));
    heap.init(0x1000, 0x100);
    let a = heap.allocate(layout(10, 1)).unwrap();
    let b = heap.allocate(layout(8, 8)).unwrap();
    let c = heap.allocate(layout(1, 64)).unwrap();
    assert_eq!((a, b, c), (0x1000, 0x1010, 0x1040));
    let s = heap.state();
    assert_eq!((s.next, s.allocations), (0x1041, 3));
    heap.deallocate(b, layout(8, 8));
    assert_eq!(heap.state().next, 0x1041);
    heap.deallocate(a, layout(10, 1));
    assert_eq!(heap.state().next, 0x1041);
    assert_eq!(heap.state().allocations, 1);
    heap.deallocate(c, layout(1, 64));
    let s = heap.state();
    assert_eq!((s.heap_start, s.heap_end, s.next, s.allocations), (0x1000, 0x1100, 0x1000, 0));
}

#[test]
fn bump_reports_exhaustion_and_changes_nothing() {
    let mut heap = BumpAllocator::new();
    heap.init(0x1000, 0x100);
    assert_eq!(heap.allocate(layout(0x101, 1)), Err(()));
    assert_eq!(heap.allocate(layout(0x100, 1)), Ok(0x1000));
    assert_eq!(heap.allocate(layout(1, 1)), Err(()));
    let s = heap.state();
    assert_eq!((s.next, s.allocations), (0x1100, 1));
    // A block of no bytes still fits at the end.
    assert_eq!(heap.allocate(layout(0, 1)), Ok(0x1100));
    assert_eq!(heap.allocate(layout(0, 0x200)), Err(()));
}
