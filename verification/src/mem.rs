//! Physical frames for the heap's page tables, taken in order from the usable
//! regions of the boot-time memory map.

use vstd::prelude::*;

verus! {

/// Size of a physical frame, in bytes.
pub const FRAME_SIZE: u64 = 4096;

/// One past the largest physical address.
pub const PHYS_ADDR_END: u64 = 0x10_0000_0000_0000;

/// One entry of the memory map: the physical addresses `[start, end)` and whether
/// they may be used.
#[derive(Debug, Clone, Copy)]
pub struct MemoryRegion {
    pub start: u64,
    pub end: u64,
    pub usable: bool,
}

/// Start of the frame that holds `addr`.
pub open spec fn frame_floor(addr: int) -> int {
    addr - addr % 4096
}

/// Number of frames a region yields: one for every step of a frame's size from its
/// start that stays below its end, if the region is usable.
pub open spec fn region_frames(r: MemoryRegion) -> nat {
    if r.usable && r.start < r.end {
        ((r.end - r.start - 1) / 4096 + 1) as nat
    } else {
        0
    }
}

/// Number of frames the regions yield together.
pub open spec fn total_frames(regions: Seq<MemoryRegion>) -> nat
    decreases regions.len(),
{
    if regions.len() == 0 {
        0
    } else {
        region_frames(regions[0]) + total_frames(regions.drop_first())
    }
}

/// The `n`-th frame, counted from zero, that the regions yield, by its start
/// address; `None` where they yield no more than `n`.
pub open spec fn nth_frame(regions: Seq<MemoryRegion>, n: nat) -> Option<u64>
    decreases regions.len(),
{
    if regions.len() == 0 {
        None
    } else if n < region_frames(regions[0]) {
        Some(frame_floor(regions[0].start + n * 4096) as u64)
    } else {
        nth_frame(regions.drop_first(), (n - region_frames(regions[0])) as nat)
    }
}

/// Every region lies within the physical address space.
pub open spec fn regions_in_range(regions: Seq<MemoryRegion>) -> bool {
    forall|i: int| 0 <= i < regions.len() ==> (#[trigger] regions[i]).end <= PHYS_ADDR_END
}

/// Start address of the 4 KiB frame that contains the physical address `addr`.
///
/// Calls `x86_64::structures::paging::PhysFrame::containing_address` on
/// `x86_64::PhysAddr::new(addr)`. The address type refuses addresses with a bit
/// from 52 up set, which are not allowed here. The frame is found by aligning the
/// address down to the frame size, and that is what the contract states.
#[verifier::external_body]
fn frame_start(addr: u64) -> (start: u64)
    requires
        addr < PHYS_ADDR_END,
    ensures
        start == frame_floor(addr as int),
{
    let address = x86_64::PhysAddr::new(addr);
    let frame: x86_64::structures::paging::PhysFrame<x86_64::structures::paging::Size4KiB> =
        x86_64::structures::paging::PhysFrame::containing_address(address);
    frame.start_address().as_u64()
}

/// The `n`-th frame, counted from zero, that the usable regions yield.
pub fn usable_frame(regions: &Vec<MemoryRegion>, n: usize) -> (r: Option<u64>)
    requires
        regions_in_range(regions@),
    ensures
        r == nth_frame(regions@, n as nat),
{
    let mut left: u64 = n as u64;
    let mut i: usize = 0;
    assert(regions@.skip(0) =~= regions@);
    while i < regions.len()
        invariant
            i <= regions.len(),
            regions_in_range(regions@),
            nth_frame(regions@, n as nat) == nth_frame(regions@.skip(i as int), left as nat),
        decreases regions.len() - i,
    {
        let region = regions[i];
        proof {
            assert(regions@.skip(i as int)[0] == regions@[i as int]);
            assert(regions@.skip(i as int).drop_first() =~= regions@.skip(i + 1));
        }
        if region.usable && region.start < region.end {
            let count = (region.end - region.start - 1) / FRAME_SIZE + 1;
            if left < count {
                return Some(frame_start(region.start + left * FRAME_SIZE));
            }
            left = left - count;
        }
        i = i + 1;
    }
    None
}

/// Hands out the usable frames of a memory map, each once, in the order of the map.
pub struct BootInfoFrameAllocator {
    regions: Vec<MemoryRegion>,
    next: usize,
}

impl BootInfoFrameAllocator {
    /// The memory map the frames come from.
    pub closed spec fn regions(&self) -> Seq<MemoryRegion> {
        self.regions@
    }

    /// Number of frames handed out or found wanting so far.
    pub closed spec fn next(&self) -> nat {
        self.next as nat
    }

    /// The memory map lies within the physical address space.
    pub open spec fn wf(&self) -> bool {
        regions_in_range(self.regions())
    }

    /// A frame allocator over `regions` that has handed out nothing.
    pub fn init(regions: Vec<MemoryRegion>) -> (r: Self)
        requires
            regions_in_range(regions@),
        ensures
            r.wf(),
            r.regions() == regions@,
            r.next() == 0,
    {
        BootInfoFrameAllocator { regions, next: 0 }
    }

    /// Number of times a frame has been asked for.
    pub fn requests(&self) -> (n: usize)
        ensures
            n == self.next(),
    {
        self.next
    }

    /// The next frame that has not been handed out; `None` once the memory map is
    /// used up.
    pub fn allocate_frame(&mut self) -> (r: Option<u64>)
        requires
            old(self).wf(),
            old(self).next() < usize::MAX,
        ensures
            final(self).wf(),
            final(self).regions() == old(self).regions(),
            final(self).next() == old(self).next() + 1,
            r == nth_frame(old(self).regions(), old(self).next()),
    {
        let frame = usable_frame(&self.regions, self.next);
        self.next = self.next + 1;
        frame
    }
}

} // verus!
