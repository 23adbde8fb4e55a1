//! Bump allocator: hands out the heap front to back and takes it all back at once.

use crate::allocator::checked_align_up;
use crate::allocator::layout::Layout;
use crate::allocator::power::{lemma_power_of_two_bounds, round_up};
use vstd::prelude::*;

verus! {

/// The bump allocator. Memory below `next` has been handed out; an allocation
/// moves `next` up, and only the return of the last live block moves it back to
/// the start of the heap.
pub struct BumpAllocator {
    heap_start: usize,
    heap_end: usize,
    next: usize,
    allocations: usize,
}

/// What a bump allocator is made of.
pub struct BumpState {
    pub heap_start: usize,
    pub heap_end: usize,
    pub next: usize,
    pub allocations: usize,
}

/// Where an allocation of `size` bytes aligned to `align` ends when the heap has
/// been handed out up to `next`.
pub open spec fn bump_end(next: usize, size: usize, align: usize) -> int {
    round_up(next as int, align as int) + size
}

/// Whether an allocation of `size` bytes aligned to `align` succeeds in state `s`:
/// it must end within the heap, and the count of live blocks must have room for
/// one more.
pub open spec fn bump_fits(s: BumpState, size: usize, align: usize) -> bool {
    bump_end(s.next, size, align) <= s.heap_end && s.allocations < usize::MAX
}

/// The state after an allocation of `size` bytes aligned to `align` that
/// succeeds: `next` stands behind the block, and one more block is live.
pub open spec fn bump_alloc(s: BumpState, size: usize, align: usize) -> BumpState {
    BumpState { next: bump_end(s.next, size, align) as usize,
        allocations: (s.allocations + 1) as usize, ..s }
}

/// The state after a deallocation: one block less is live, and when none is left
/// `next` stands at the start of the heap again.
pub open spec fn bump_dealloc(s: BumpState) -> BumpState {
    BumpState {
        next: if s.allocations == 1 { s.heap_start } else { s.next },
        allocations: (s.allocations - 1) as usize,
        ..s
    }
}

/// A block that has been handed out and not yet given back.
pub struct LiveBlock {
    pub start: usize,
    pub size: usize,
}

/// The state and the blocks handed out fit together: as many blocks are live as
/// the allocator counts, each lies between the start of the heap and `next`, and
/// no two share a byte.
pub open spec fn heap_consistent(s: BumpState, live: Seq<LiveBlock>) -> bool {
    &&& s.heap_start <= s.next <= s.heap_end
    &&& live.len() == s.allocations
    &&& forall|i: int|
        0 <= i < live.len() ==> s.heap_start <= (#[trigger] live[i]).start
            && live[i].start + live[i].size <= s.next
    &&& forall|i: int, j: int|
        0 <= i < j < live.len()
            ==> (#[trigger] live[i]).start + live[i].size <= (#[trigger] live[j]).start
            || live[j].start + live[j].size <= live[i].start
}

/// No overlap under allocation: a block that is handed out starts at or behind
/// the end of every live block, and the heap stays consistent with it added.
pub proof fn lemma_alloc_consistent(s: BumpState, live: Seq<LiveBlock>, size: usize, align: usize)
    requires
        heap_consistent(s, live),
        align > 0,
        bump_fits(s, size, align),
    ensures
        heap_consistent(
            bump_alloc(s, size, align),
            live.push(LiveBlock { start: round_up(s.next as int, align as int) as usize, size }),
        ),
{
    crate::allocator::power::lemma_round_up(s.next as int, align as int, 0);
    let block = LiveBlock { start: round_up(s.next as int, align as int) as usize, size };
    let live2 = live.push(block);
    assert forall|i: int, j: int| 0 <= i < j < live2.len()
        implies (#[trigger] live2[i]).start + live2[i].size <= (
    #[trigger] live2[j]).start || live2[j].start + live2[j].size <= live2[i].start by {
        assert(live2[i] == live[i]);
        if j < live.len() {
            assert(live2[j] == live[j]);
        }
    }
}

/// No overlap under deallocation: with any one block given back the heap stays
/// consistent with the others, and the heap is taken back only when none is left.
pub proof fn lemma_dealloc_consistent(s: BumpState, live: Seq<LiveBlock>, i: int)
    requires
        heap_consistent(s, live),
        0 <= i < live.len(),
    ensures
        s.allocations > 0,
        heap_consistent(bump_dealloc(s), live.remove(i)),
{
    let live2 = live.remove(i);
    assert forall|n: int| 0 <= n < live2.len() implies s.heap_start <= (#[trigger] live2[n]).start
        && live2[n].start + live2[n].size <= bump_dealloc(s).next by {
        assert(live2[n] == live[if n < i { n } else { n + 1 }]);
    }
    assert forall|n: int, m: int| 0 <= n < m < live2.len()
        implies (#[trigger] live2[n]).start + live2[n].size <= (
    #[trigger] live2[m]).start || live2[m].start + live2[m].size <= live2[n].start by {
        assert(live2[n] == live[if n < i { n } else { n + 1 }]);
        assert(live2[m] == live[if m < i { m } else { m + 1 }]);
    }
}

impl View for BumpAllocator {
    type V = BumpState;

    closed spec fn view(&self) -> BumpState {
        BumpState {
            heap_start: self.heap_start,
            heap_end: self.heap_end,
            next: self.next,
            allocations: self.allocations,
        }
    }
}

impl BumpAllocator {
    /// `next` lies in the heap.
    pub open spec fn wf(&self) -> bool {
        self@.heap_start <= self@.next <= self@.heap_end
    }

    /// An allocator with no heap: every allocation of at least one byte fails until
    /// `init` gives it memory.
    pub fn new() -> (r: Self)
        ensures
            r@ == (BumpState { heap_start: 0, heap_end: 0, next: 0, allocations: 0 }),
            r.wf(),
    {
        BumpAllocator { heap_start: 0, heap_end: 0, next: 0, allocations: 0 }
    }

    /// Gives the allocator the heap `[heap_start, heap_start + heap_size)`, none of
    /// it handed out.
    pub fn init(&mut self, heap_start: usize, heap_size: usize)
        requires
            heap_start + heap_size <= usize::MAX,
        ensures
            final(self)@ == (BumpState {
                heap_start,
                heap_end: (heap_start + heap_size) as usize,
                next: heap_start,
                allocations: 0,
            }),
            final(self).wf(),
    {
        self.heap_start = heap_start;
        self.heap_end = heap_start + heap_size;
        self.next = heap_start;
        self.allocations = 0;
    }

    /// Hands out the next `layout.size()` bytes at or above `next` that start on a
    /// multiple of `layout.align()`, and counts the block as live. Fails, changing
    /// nothing, where the block would end beyond the heap.
    pub fn allocate(&mut self, layout: Layout) -> (r: Result<usize, ()>)
        requires
            old(self).wf(),
        ensures
            final(self).wf(),
            r.is_ok() <==> bump_fits(old(self)@, layout.size(), layout.align()),
            r.is_err() ==> final(self)@ == old(self)@,
            r matches Ok(a) ==> {
                &&& a == round_up(old(self)@.next as int, layout.align() as int)
                &&& final(self)@ == bump_alloc(old(self)@, layout.size(), layout.align())
            },
    {
        proof {
            use_type_invariant(layout);
            layout.lemma_wf();
            lemma_power_of_two_bounds(layout.align());
        }
        let alloc_start = match checked_align_up(self.next, layout.align()) {
            Some(a) => a,
            None => {
                return Err(());
            },
        };
        let alloc_end = match alloc_start.checked_add(layout.size()) {
            Some(e) => e,
            None => {
                return Err(());
            },
        };
        if alloc_end > self.heap_end || self.allocations == usize::MAX {
            Err(())
        } else {
            proof {
                crate::allocator::power::lemma_round_up(self.next as int, layout.align() as int, 0);
            }
            self.next = alloc_end;
            self.allocations = self.allocations + 1;
            Ok(alloc_start)
        }
    }

    /// Counts one live block less; when none is left, the whole heap is free again.
    /// At least one block must be live.
    pub fn deallocate(&mut self, ptr: usize, layout: Layout)
        requires
            old(self).wf(),
            old(self)@.allocations > 0,
        ensures
            final(self).wf(),
            final(self)@ == bump_dealloc(old(self)@),
    {
        self.allocations = self.allocations - 1;
        if self.allocations == 0 {
            self.next = self.heap_start;
        }
    }

    /// What the allocator is made of.
    pub fn state(&self) -> (s: BumpState)
        ensures
            s == self@,
    {
        BumpState {
            heap_start: self.heap_start,
            heap_end: self.heap_end,
            next: self.next,
            allocations: self.allocations,
        }
    }
}

} // verus!
