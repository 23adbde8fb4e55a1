//! First-fit allocator over an address-ordered list of free regions.

use crate::allocator::checked_align_up;
use crate::allocator::arena::{Arena, NIL};
use crate::allocator::layout::Layout;
use crate::allocator::linked_list::laws::lemma_alloc_block;
use crate::allocator::linked_list::links::{
    inserted, lemma_inserted, lemma_removed, region_linked, start_at,
};
use crate::allocator::linked_list::model::{
    alloc_addr, alloc_regions, alloc_start, first_fit, gap_between, header_word, insert_pos,
    insert_region, insert_region_at, lemma_first_fit, lemma_header_word_remove,
    lemma_regions_widen, lemma_removed_clear, lemma_served_multiple, no_region_meets, region_fits,
    region_valid, regions_valid, served_align, served_size, Region,
};
use crate::allocator::power::{
    is_power_of_two, lemma_eight_is_power, lemma_power_of_two_bounds, lemma_round_up,
};
use vstd::prelude::*;

pub mod laws;
pub mod links;
pub mod model;

verus! {

/// Smallest region the list can hold, in bytes: room for a size word and a link
/// word.
pub const MIN_REGION_SIZE: usize = 16;

/// Alignment of every region's start, in bytes.
pub const REGION_ALIGN: usize = 8;

/// Header of a free region, as read from the arena.
#[derive(Debug, Clone, Copy)]
pub struct ListNode {
    pub start: usize,
    pub size: usize,
    pub next: usize,
}

impl ListNode {
    /// A region of `size` bytes at `start` with nothing behind it.
    pub fn new(start: usize, size: usize) -> (node: Self)
        ensures
            node.start == start,
            node.size == size,
            node.next == NIL,
    {
        ListNode { start, size, next: NIL }
    }

    /// First address of the region.
    pub fn start_addr(&self) -> (addr: usize)
        ensures
            addr == self.start,
    {
        self.start
    }

    /// One past the last address of the region.
    pub fn end_addr(&self) -> (addr: usize)
        requires
            self.start + self.size <= usize::MAX,
        ensures
            addr == self.start + self.size,
    {
        self.start_addr() + self.size
    }
}

/// The first-fit allocator: free regions chained in address order, each region's
/// header stored in its own first two words.
pub struct LinkedListAllocator {
    head: ListNode,
    arena: Arena,
    end: usize,
    regions: Ghost<Seq<Region>>,
}

impl View for LinkedListAllocator {
    type V = Seq<Region>;

    /// The free regions in address order.
    closed spec fn view(&self) -> Seq<Region> {
        self.regions@
    }
}

impl LinkedListAllocator {
    /// The headers in the arena spell out the free regions, and the free regions
    /// are valid for the heap.
    pub closed spec fn wf(&self) -> bool {
        &&& self.arena.wf()
        &&& self.arena.end() == self.end / 8 * 8
        &&& self.arena.is_empty() ==> self.end == self.arena.start()
        &&& self.head.next == start_at(self.regions@, 0)
        &&& forall|j: int| 0 <= j < self.regions@.len()
            ==> #[trigger] region_linked(&self.arena, self.regions@, j)
        &&& regions_valid(self.regions@, self.arena.start(), self.end as int)
    }

    /// First address of the heap.
    pub closed spec fn heap_start(&self) -> int {
        self.arena.start()
    }

    /// One past the last address of the heap.
    pub closed spec fn heap_end(&self) -> int {
        self.end as int
    }

    /// The memory of the heap.
    pub closed spec fn heap(&self) -> Arena {
        self.arena
    }

    /// The free regions are written into the free memory itself: the first word of
    /// every free region holds its size, the second word the start of the region
    /// after it, and `NIL` stands for none.
    pub proof fn lemma_headers_in_heap(&self, j: int)
        requires
            self.wf(),
            0 <= j < self@.len(),
        ensures
            region_linked(&self.heap(), self@, j),
            self.heap().start() == self.heap_start(),
    {
    }

    /// The memory of the heap starts at `heap_start` and reaches over the whole words
    /// below `heap_end`.
    pub proof fn lemma_heap_extent(&self)
        requires
            self.wf(),
        ensures
            self.heap().start() == self.heap_start(),
            self.heap().end() == self.heap_end() / 8 * 8,
    {
    }

    /// What `wf` says of the free regions alone.
    pub proof fn lemma_wf_regions(&self)
        requires
            self.wf(),
        ensures
            regions_valid(self@, self.heap_start(), self.heap_end()),
            self.heap_end() <= usize::MAX,
    {
    }

    /// An allocator with no heap: every allocation fails until `init` gives it
    /// memory.
    pub fn new() -> (r: Self)
        ensures
            r.wf(),
            r@ == Seq::<Region>::empty(),
            r.heap_start() == 0,
            r.heap_end() == 0,
    {
        LinkedListAllocator {
            head: ListNode::new(0, 0),
            arena: Arena::empty(),
            end: 0,
            regions: Ghost(Seq::empty()),
        }
    }

    /// Gives the allocator the heap `[heap_start, heap_start + heap_size)` as one
    /// free region. The heap starts on a word boundary and has room for a region's
    /// header. Whatever the allocator held before is forgotten.
    pub fn init(&mut self, heap_start: usize, heap_size: usize)
        requires
            heap_start % 8 == 0,
            heap_size >= 16,
            heap_start + heap_size <= usize::MAX,
        ensures
            final(self).wf(),
            final(self).heap_start() == heap_start,
            final(self).heap_end() == heap_start + heap_size,
            final(self)@ == seq![Region { start: heap_start, size: heap_size }],
    {
        self.arena = Arena::empty();
        self.end = 0;
        self.head = ListNode::new(0, 0);
        self.regions = Ghost(Seq::empty());
        self.add_free_region(heap_start, heap_size);
        assert(self.regions@ =~= seq![Region { start: heap_start, size: heap_size }]);
    }

    /// Whether `init` takes the heap `[heap_start, heap_start + heap_size)`: it
    /// starts on a word boundary, has room for a region's header and ends within the
    /// address space.
    pub fn accepts_heap(heap_start: usize, heap_size: usize) -> (ok: bool)
        ensures
            ok == (heap_start % 8 == 0 && heap_size >= 16
                && heap_start + heap_size <= usize::MAX),
    {
        heap_start % REGION_ALIGN == 0 && heap_size >= MIN_REGION_SIZE
            && heap_size <= usize::MAX - heap_start
    }

    /// Whether the block that serves `layout` at `ptr` is a block of this heap: the
    /// layout can be served, and the block starts on a word boundary and lies in the
    /// heap.
    pub fn holds_block(&self, ptr: usize, layout: &Layout) -> (ok: bool)
        requires
            self.wf(),
        ensures
            ok == (layout.size() <= isize::MAX - 7 && ptr % 8 == 0
                && self.heap_start() <= ptr
                && ptr + served_size(layout.size() as int, layout.align() as int)
                    <= self.heap_end()),
    {
        if layout.size() > (isize::MAX as usize) - 7 {
            return false;
        }
        let (size, _) = Self::size_align(*layout);
        proof {
            self.arena.lemma_bounds();
        }
        let start = self.arena.start_addr();
        ptr % REGION_ALIGN == 0 && start <= ptr && ptr <= self.end
            && size <= self.end - ptr
    }

    /// The word of the heap at `addr`; `None` where the heap holds no word there.
    pub fn read_word(&self, addr: usize) -> (r: Option<usize>)
        requires
            self.wf(),
        ensures
            r.is_some() == self.heap().holds(addr as int),
            r matches Some(w) ==> w == self.heap().word(addr as int),
    {
        proof {
            self.arena.lemma_bounds();
        }
        let start = self.arena.start_addr();
        let end = self.arena.end_addr();
        if addr % 8 == 0 && start <= addr && addr <= end && end - addr >= 8 {
            Some(self.arena.read(addr))
        } else {
            None
        }
    }

    /// Whether the word at `addr` is one of the first two words of a free region,
    /// where the region's header is kept.
    pub fn is_header_word(&self, addr: usize) -> (r: bool)
        requires
            self.wf(),
        ensures
            r == header_word(self@, addr as int),
    {
        let ghost rs = self.regions@;
        let mut cur = self.head.next;
        let ghost mut j: int = 0;
        while cur != NIL
            invariant
                self.wf(),
                rs == self.regions@,
                0 <= j <= rs.len(),
                cur == start_at(rs, j),
                forall|i: int|
                    0 <= i < j ==> (#[trigger] rs[i]).start != addr && rs[i].start + 8 != addr,
            decreases rs.len() - j,
        {
            proof {
                assert(region_linked(&self.arena, rs, j));
                assert(region_valid(rs[j], self.arena.start(), self.end as int));
            }
            if cur == addr || cur + 8 == addr {
                return true;
            }
            cur = self.arena.read(cur + 8);
            proof {
                j = j + 1;
            }
        }
        proof {
            if j < rs.len() {
                assert(region_valid(rs[j], self.arena.start(), self.end as int));
            }
        }
        false
    }

    /// Stores `value` in the word of the heap at `addr`, for the owner of the block
    /// that holds the word. A word that the heap does not hold, or that is a header
    /// word of a free region, is refused, and nothing is written then. The free
    /// regions stay as they are.
    pub fn write_word(&mut self, addr: usize, value: usize) -> (ok: bool)
        requires
            old(self).wf(),
        ensures
            final(self).wf(),
            final(self)@ == old(self)@,
            final(self).heap_start() == old(self).heap_start(),
            final(self).heap_end() == old(self).heap_end(),
            ok == (old(self).heap().holds(addr as int) && !header_word(old(self)@, addr as int)),
            ok ==> final(self).heap().word(addr as int) == value,
            !ok ==> final(self).heap() == old(self).heap(),
            forall|x: int|
                old(self).heap().holds(x) && x != addr
                    ==> #[trigger] final(self).heap().word(x) == old(self).heap().word(x),
    {
        if self.read_word(addr).is_none() || self.is_header_word(addr) {
            return false;
        }
        let ghost before = self.arena;
        let ghost rs = self.regions@;
        self.arena.write(addr, value);
        proof {
            before.lemma_bounds();
            assert forall|j: int| 0 <= j < rs.len() implies #[trigger] region_linked(
                &self.arena,
                rs,
                j,
            ) by {
                assert(region_linked(&before, rs, j));
                assert(rs[j].start != addr && rs[j].start + 8 != addr);
            }
        }
        true
    }

    /// First address of the heap once the region that starts at `addr` has been
    /// added: `addr` for an allocator without heap, the lower of the two starts
    /// otherwise.
    pub open spec fn heap_start_with(&self, addr: int) -> int {
        if self.heap_start() == self.heap_end() || addr < self.heap_start() {
            addr
        } else {
            self.heap_start()
        }
    }

    /// One past the last address of the heap once the region that ends at `end` has
    /// been added.
    pub open spec fn heap_end_with(&self, end: int) -> int {
        if self.heap_start() == self.heap_end() || self.heap_end() < end {
            end
        } else {
            self.heap_end()
        }
    }

    /// Makes the heap reach over `[addr, addr + size)` as well. The free regions and
    /// every word of the heap stay as they are.
    fn extend_heap(&mut self, addr: usize, size: usize)
        requires
            old(self).wf(),
            addr % 8 == 0,
            size >= 16,
            addr + size <= usize::MAX,
        ensures
            final(self).wf(),
            final(self)@ == old(self)@,
            final(self).heap_start() == old(self).heap_start_with(addr as int),
            final(self).heap_end() == old(self).heap_end_with(addr + size),
            forall|a: int|
                old(self).heap().holds(a) ==> final(self).heap().holds(a)
                    && #[trigger] final(self).heap().word(a) == old(self).heap().word(a),
    {
        let ghost before = self.arena;
        let ghost rs = self.regions@;
        let ghost lo = self.arena.start();
        let ghost hi = self.end as int;
        proof {
            before.lemma_bounds();
        }
        let end = addr + size;
        let fresh = self.arena.start_addr() == self.arena.end_addr();
        self.arena.cover(addr, end / REGION_ALIGN * REGION_ALIGN);
        if fresh || self.end < end {
            self.end = end;
        }
        proof {
            self.arena.lemma_bounds();
            assert forall|j: int| 0 <= j < rs.len() implies #[trigger] region_linked(
                &self.arena,
                rs,
                j,
            ) by {
                assert(region_linked(&before, rs, j));
                assert(self.arena.word(rs[j].start as int) == before.word(rs[j].start as int));
                assert(self.arena.word(rs[j].start + 8) == before.word(rs[j].start + 8));
            }
            lemma_regions_widen(rs, lo, hi, self.arena.start(), self.end as int);
        }
    }

    /// Puts the region `[addr, addr + size)` into the list at its place in address
    /// order and merges it with the region before it and the region after it where
    /// they touch. The heap grows to hold the region; on an allocator without heap
    /// the region is the heap. The region starts on a word boundary, has room for a
    /// header and holds no byte that is free already or in use.
    ///
    /// Only headers are written: every word that the heap held before, outside the
    /// first two words of the new region and of the regions that were free before
    /// the call, keeps its value.
    #[verifier::rlimit(30)]
    pub fn add_free_region(&mut self, addr: usize, size: usize)
        requires
            old(self).wf(),
            addr % 8 == 0,
            size >= 16,
            addr + size <= usize::MAX,
            no_region_meets(old(self)@, addr as int, addr + size),
        ensures
            final(self).wf(),
            final(self).heap_start() == old(self).heap_start_with(addr as int),
            final(self).heap_end() == old(self).heap_end_with(addr + size),
            final(self)@ == insert_region(old(self)@, addr as int, size as int),
            forall|x: int|
                old(self).heap().holds(x) && !header_word(old(self)@, x) && x != addr
                    && x != addr + 8 ==> final(self).heap().holds(x)
                    && #[trigger] final(self).heap().word(x) == old(self).heap().word(x),
    {
        let ghost origin = self.heap();
        self.extend_heap(addr, size);
        let ghost grown = self.heap();
        let ghost rs = self.regions@;
        let ghost before = self.arena;
        let ghost lo = self.arena.start();
        let ghost hi = self.end as int;
        let mut prev: usize = NIL;
        let mut cur = self.head.next;
        let ghost mut p: int = 0;
        while cur != NIL && cur < addr
            invariant
                self.wf(),
                rs == self.regions@,
                0 <= p <= rs.len(),
                cur == start_at(rs, p),
                prev == start_at(rs, p - 1),
                insert_pos(rs, addr as int, 0) == insert_pos(rs, addr as int, p),
                forall|i: int| 0 <= i < p ==> (#[trigger] rs[i]).start < addr,
            decreases rs.len() - p,
        {
            proof {
                assert(region_linked(&self.arena, rs, p));
            }
            prev = cur;
            cur = self.arena.read(cur + 8);
            proof {
                p = p + 1;
            }
        }
        proof {
            self.arena.lemma_bounds();
            if p > 0 {
                assert(region_linked(&self.arena, rs, p - 1));
                assert(region_valid(rs[p - 1], lo, hi));
            }
            if p > 1 {
                assert(region_linked(&self.arena, rs, p - 2));
                assert(region_valid(rs[p - 2], lo, hi));
                assert(gap_between(rs, p - 2, p - 1));
            }
            if p < rs.len() {
                assert(region_linked(&self.arena, rs, p));
                assert(region_valid(rs[p], lo, hi));
            }
            assert forall|i: int| p <= i < rs.len() implies (#[trigger] rs[i]).start > addr by {
                if i > p {
                    assert(gap_between(rs, p, i));
                }
            }
        }
        let mut total = size;
        let mut next = cur;
        if cur != NIL && addr + size == cur {
            let next_size = self.arena.read(cur);
            total = total + next_size;
            next = self.arena.read(cur + 8);
        }
        let mut joined = false;
        if prev != NIL {
            let prev_size = self.arena.read(prev);
            if prev + prev_size == addr {
                self.arena.write(prev, prev_size + total);
                self.arena.write(prev + 8, next);
                joined = true;
            }
        }
        if !joined {
            self.insert_node(prev, addr, total, next);
        }
        proof {
            self.regions@ = insert_region_at(rs, addr as int, size as int, p);
            assert(inserted(&before, &self.arena, rs, addr as int, size as int, p, lo, hi));
            lemma_inserted(&before, &self.arena, rs, addr as int, size as int, p, lo, hi);
            let now = self.heap();
            assert forall|x: int|
                origin.holds(x) && !header_word(rs, x) && x != addr && x != addr + 8
                implies now.holds(x) && #[trigger] now.word(x) == origin.word(x) by {
                assert(grown.word(x) == origin.word(x));
                if p > 0 {
                    assert(rs[p - 1].start != x && rs[p - 1].start + 8 != x);
                }
                if p > 1 {
                    assert(rs[p - 2].start != x && rs[p - 2].start + 8 != x);
                }
            }
        }
    }

    /// Writes the header of a region of `size` bytes at `addr`, followed by the
    /// region at `next`, and makes the region at `prev`, or the list's head where
    /// `prev` is `NIL`, lead to it.
    fn insert_node(&mut self, prev: usize, addr: usize, size: usize, next: usize)
        requires
            old(self).arena.wf(),
            old(self).arena.holds(addr as int),
            old(self).arena.holds(addr + 8),
            prev != NIL ==> old(self).arena.holds(prev + 8) && prev + 16 <= addr,
        ensures
            final(self).arena.wf(),
            final(self).arena.same_extent(&old(self).arena),
            final(self).end == old(self).end,
            final(self).regions == old(self).regions,
            final(self).arena.word(addr as int) == size,
            final(self).arena.word(addr + 8) == next,
            prev != NIL ==> final(self).arena.word(prev + 8) == addr
                && final(self).head == old(self).head,
            prev == NIL ==> final(self).head.next == addr,
            forall|a: int|
                old(self).arena.holds(a) && a != addr && a != addr + 8
                    && (prev == NIL || a != prev + 8)
                    ==> #[trigger] final(self).arena.word(a) == old(self).arena.word(a),
    {
        proof {
            self.arena.lemma_bounds();
        }
        self.arena.write(addr, size);
        self.arena.write(addr + 8, next);
        if prev != NIL {
            self.arena.write(prev + 8, addr);
        } else {
            self.head.next = addr;
        }
    }

    /// Takes the first region in which an allocation of `size` bytes aligned to
    /// `align` fits out of the list and returns it with the address at which the
    /// allocation starts; `None` where no region fits.
    #[verifier::rlimit(30)]
    pub fn find_region(&mut self, size: usize, align: usize) -> (r: Option<(ListNode, usize)>)
        requires
            old(self).wf(),
            align > 0,
        ensures
            final(self).wf(),
            final(self).heap_start() == old(self).heap_start(),
            final(self).heap_end() == old(self).heap_end(),
            r.is_some() <==> first_fit(old(self)@, size as int, align as int, 0) < old(self)@.len(),
            r.is_none() ==> final(self)@ == old(self)@ && final(self).heap() == old(self).heap(),
            r matches Some((node, addr)) ==> ({
                let j = first_fit(old(self)@, size as int, align as int, 0);
                &&& node.start == old(self)@[j].start
                &&& node.size == old(self)@[j].size
                &&& node.next == start_at(old(self)@, j + 1)
                &&& addr == alloc_start(old(self)@[j], align as int)
                &&& final(self)@ == old(self)@.remove(j)
            }),
            forall|x: int|
                old(self).heap().holds(x) && !header_word(old(self)@, x)
                    ==> #[trigger] final(self).heap().word(x) == old(self).heap().word(x),
    {
        let ghost origin = self.heap();
        let ghost rs = self.regions@;
        let ghost before = self.arena;
        let ghost lo = self.arena.start();
        let ghost hi = self.end as int;
        let mut prev: usize = NIL;
        let mut cur = self.head.next;
        let ghost mut j: int = 0;
        while cur != NIL
            invariant
                self.wf(),
                *self == *old(self),
                rs == self.regions@,
                before == self.arena,
                origin == before,
                hi == self.end,
                lo == self.arena.start(),
                align > 0,
                0 <= j <= rs.len(),
                cur == start_at(rs, j),
                prev == start_at(rs, j - 1),
                first_fit(rs, size as int, align as int, 0)
                    == first_fit(rs, size as int, align as int, j),
            decreases rs.len() - j,
        {
            proof {
                assert(region_linked(&self.arena, rs, j));
                assert(region_valid(rs[j], lo, hi));
            }
            let node = ListNode {
                start: cur,
                size: self.arena.read(cur),
                next: self.arena.read(cur + 8),
            };
            let fit = Self::alloc_from_region(&node, size, align);
            if fit.is_ok() {
                proof {
                    if j > 0 {
                        assert(region_linked(&self.arena, rs, j - 1));
                    }
                }
                if prev != NIL {
                    self.arena.write(prev + 8, node.next);
                } else {
                    self.head.next = node.next;
                }
                proof {
                    self.regions@ = rs.remove(j);
                    lemma_removed(&before, &self.arena, rs, j, lo, hi);
                    let now = self.heap();
                    assert forall|x: int| origin.holds(x) && !header_word(rs, x)
                        implies #[trigger] now.word(x) == origin.word(x) by {
                        if j > 0 {
                            assert(rs[j - 1].start != x && rs[j - 1].start + 8 != x);
                        }
                    }
                }
                return Some((node, fit.unwrap()));
            }
            prev = cur;
            cur = node.next;
            proof {
                j = j + 1;
            }
        }
        proof {
            if j < rs.len() {
                assert(region_valid(rs[j], lo, hi));
            }
        }
        None
    }

    /// Where an allocation of `size` bytes aligned to `align` starts in `region`,
    /// if it fits: it must end within the region and leave behind it either nothing
    /// or room for a region of its own.
    pub fn alloc_from_region(region: &ListNode, size: usize, align: usize) -> (r: Result<usize, ()>)
        requires
            align > 0,
            region.start + region.size <= usize::MAX,
        ensures
            r.is_ok() <==> region_fits(
                Region { start: region.start, size: region.size },
                size as int,
                align as int,
            ),
            r matches Ok(a) ==> a == alloc_start(
                Region { start: region.start, size: region.size },
                align as int,
            ),
    {
        proof {
            lemma_round_up(region.start as int, align as int, 0);
        }
        let start = match checked_align_up(region.start_addr(), align) {
            Some(a) => a,
            None => {
                return Err(());
            },
        };
        let end = match start.checked_add(size) {
            Some(e) => e,
            None => {
                return Err(());
            },
        };
        if end > region.end_addr() {
            return Err(());
        }
        let excess_size = region.end_addr() - end;
        if excess_size > 0 && excess_size < MIN_REGION_SIZE {
            Err(())
        } else {
            Ok(start)
        }
    }

    /// Size and alignment by which `layout` is served: the alignment raised to that
    /// of a region, the size padded to the alignment and raised to the size of a
    /// region.
    pub fn size_align(layout: Layout) -> (r: (usize, usize))
        requires
            layout.size() <= isize::MAX - 7,
        ensures
            r.0 == served_size(layout.size() as int, layout.align() as int),
            r.1 == served_align(layout.align() as int),
            is_power_of_two(r.1 as int),
    {
        proof {
            use_type_invariant(layout);
            layout.lemma_wf();
            lemma_power_of_two_bounds(layout.align());
            lemma_eight_is_power();
        }
        let raised = layout.align_to(REGION_ALIGN);
        let padded = raised.unwrap().pad_to_align();
        let size = if padded.size() < MIN_REGION_SIZE { MIN_REGION_SIZE } else { padded.size() };
        (size, padded.align())
    }

    /// Takes a block that serves `layout` out of the first region in which it fits
    /// and returns its address; what the region holds behind the block stays free.
    /// Fails where no region fits.
    ///
    /// Only headers are written: a word of the heap that is no header word of a
    /// region free before the call, nor of the region that stays free behind the
    /// block, keeps its value. A call that fails writes nothing.
    pub fn allocate(&mut self, layout: Layout) -> (r: Result<usize, ()>)
        requires
            old(self).wf(),
            layout.size() <= isize::MAX - 7,
        ensures
            final(self).wf(),
            final(self).heap_start() == old(self).heap_start(),
            final(self).heap_end() == old(self).heap_end(),
            r.is_ok() <==> alloc_addr(
                old(self)@,
                served_size(layout.size() as int, layout.align() as int),
                served_align(layout.align() as int),
            ).is_some(),
            r matches Ok(a) ==> Some(a) == alloc_addr(
                old(self)@,
                served_size(layout.size() as int, layout.align() as int),
                served_align(layout.align() as int),
            ),
            final(self)@ == alloc_regions(
                old(self)@,
                served_size(layout.size() as int, layout.align() as int),
                served_align(layout.align() as int),
            ),
            r matches Ok(a) ==> {
                &&& (a as int) % served_align(layout.align() as int) == 0
                &&& final(self).heap_start() <= a
                &&& a + served_size(layout.size() as int, layout.align() as int)
                    <= final(self).heap_end()
                &&& no_region_meets(
                    final(self)@,
                    a as int,
                    a + served_size(layout.size() as int, layout.align() as int),
                )
            },
            r.is_err() ==> final(self).heap() == old(self).heap(),
            forall|x: int|
                old(self).heap().holds(x) && !header_word(old(self)@, x) && (r matches Ok(a) ==> {
                    let rest = a + served_size(layout.size() as int, layout.align() as int);
                    x != rest && x != rest + 8
                }) ==> #[trigger] final(self).heap().word(x) == old(self).heap().word(x),
    {
        let (size, align) = Self::size_align(layout);
        let ghost origin = self.heap();
        let ghost rs = self.regions@;
        let ghost lo = self.arena.start();
        let ghost hi = self.end as int;
        proof {
            lemma_power_of_two_bounds(align);
        }
        let found = self.find_region(size, align);
        match found {
            Some((region, start)) => {
                let ghost j = first_fit(rs, size as int, align as int, 0);
                proof {
                    use_type_invariant(layout);
                    layout.lemma_wf();
                    lemma_first_fit(rs, size as int, align as int, 0);
                    assert(region_valid(rs[j], lo, hi));
                    lemma_removed_clear(rs, j, lo, hi);
                    lemma_round_up(rs[j].start as int, align as int, 0);
                    lemma_served_multiple(
                        layout.size() as int,
                        layout.align() as int,
                        start as int,
                    );
                    lemma_alloc_block(rs, size as int, align as int, lo, hi);
                }
                let end = start + size;
                let excess_size = region.end_addr() - end;
                let ghost found_heap = self.heap();
                let ghost rest = self.regions@;
                if excess_size > 0 {
                    self.add_free_region(end, excess_size);
                }
                proof {
                    let now = self.heap();
                    assert forall|x: int|
                        origin.holds(x) && !header_word(rs, x) && x != end && x != end + 8
                            implies #[trigger] now.word(x) == origin.word(x) by {
                        assert(found_heap.word(x) == origin.word(x));
                        if header_word(rest, x) {
                            lemma_header_word_remove(rs, j, x);
                        }
                    }
                }
                Ok(start)
            },
            None => Err(()),
        }
    }

    /// Gives the block at `ptr`, allocated with `layout`, back to the free regions.
    ///
    /// The block must be one that this allocator handed out for the same layout and
    /// that has not been given back since: it lies in the heap, starts on a word
    /// boundary and shares no byte with a free region. The allocator keeps no record
    /// by which it could tell.
    ///
    /// Only headers are written: every word of the heap outside the first two words
    /// of the block given back and of the regions that were free before the call
    /// keeps its value.
    pub fn deallocate(&mut self, ptr: usize, layout: Layout)
        requires
            old(self).wf(),
            layout.size() <= isize::MAX - 7,
            ptr % 8 == 0,
            old(self).heap_start() <= ptr,
            ptr + served_size(layout.size() as int, layout.align() as int) <= old(self).heap_end(),
            no_region_meets(
                old(self)@,
                ptr as int,
                ptr + served_size(layout.size() as int, layout.align() as int),
            ),
        ensures
            final(self).wf(),
            final(self).heap_start() == old(self).heap_start(),
            final(self).heap_end() == old(self).heap_end(),
            final(self)@ == insert_region(
                old(self)@,
                ptr as int,
                served_size(layout.size() as int, layout.align() as int),
            ),
            forall|x: int|
                old(self).heap().holds(x) && !header_word(old(self)@, x) && x != ptr && x != ptr + 8
                    ==> #[trigger] final(self).heap().word(x) == old(self).heap().word(x),
    {
        let (size, _) = Self::size_align(layout);
        self.add_free_region(ptr, size);
    }

    /// The free regions in address order.
    pub fn free_regions(&self) -> (r: Vec<Region>)
        requires
            self.wf(),
        ensures
            r@ == self@,
    {
        let mut r: Vec<Region> = Vec::new();
        let ghost rs = self.regions@;
        let mut cur = self.head.next;
        while cur != NIL
            invariant
                self.wf(),
                rs == self.regions@,
                r@.len() <= rs.len(),
                cur == start_at(rs, r@.len() as int),
                r@ == rs.take(r@.len() as int),
            decreases rs.len() - r@.len(),
        {
            proof {
                assert(region_linked(&self.arena, rs, r@.len() as int));
            }
            let size = self.arena.read(cur);
            let next = self.arena.read(cur + 8);
            r.push(Region { start: cur, size });
            cur = next;
            assert(r@ =~= rs.take(r@.len() as int));
        }
        proof {
            if r@.len() < rs.len() {
                assert(region_valid(rs[r@.len() as int], self.arena.start(), self.end as int));
            }
            assert(rs.take(rs.len() as int) =~= rs);
        }
        r
    }
}

} // verus!
