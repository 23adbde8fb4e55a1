//! Binary buddy allocator: one free list per power-of-two block size.

use crate::allocator::align_up;
use crate::allocator::arena::{Arena, NIL};
use crate::allocator::buddy::laws::{
    free_byte, free_bytes, lemma_add_region_free_bytes, lemma_add_region_frees,
    lemma_alloc_consistent, lemma_free_bytes_empty, lemma_nothing_free, LiveBlock,
};
use crate::allocator::buddy::list::{node_linked, LinkedList};
use crate::allocator::buddy::merged::{
    lemma_alloc_merged, lemma_dealloc_merged, lemma_init_merged, merged,
};
use crate::allocator::buddy::model::{
    add_region_lists, alloc_block, alloc_lists, apart, block_at, block_order, block_valid,
    dealloc_lists, empty_lists, first_nonempty, kept_outside, lemma_block_fits,
    lemma_distinct_from_list, lemma_empty_lists_valid, lemma_frame_by_links, lemma_index_of,
    lemma_kept_step, lemma_link_words_at, lemma_listed_push, lemma_listed_remove,
    lemma_lists_widen, lemma_min_block_is_power, lemma_push_valid, lemma_region_done,
    lemma_region_order, lemma_remove_valid, lemma_split_listed, link_word, listed, lists_valid,
    no_block_meets, region_order, round_down_min, round_up_min, split_lists, MIN_BLOCK_SIZE,
};
use crate::allocator::layout::Layout;
use crate::allocator::power::{
    aligned, buddy, buddy_of, lemma_buddy, lemma_log2_floor, lemma_log2_floor_unique,
    lemma_pow2_double, lemma_pow2_fits_word, lemma_pow2_ge_16, lemma_pow2_order,
    lemma_power_of_two_bounds, lemma_split, log2_floor, order_of, pow2_word,
};
use vstd::arithmetic::power2::{lemma2_to64, lemma_pow2_pos, pow2};
use vstd::prelude::*;

pub mod laws;
pub mod merged;
pub mod list;
pub mod model;

verus! {

/// The buddy allocator: `ORDER` free lists over one arena. Bucket `k` holds the
/// free blocks of size `2^k`.
pub struct BuddyAllocator<const ORDER: usize> {
    free_lists: [LinkedList; ORDER],
    arena: Arena,
    lists: Ghost<Seq<Seq<usize>>>,
}

impl<const ORDER: usize> View for BuddyAllocator<ORDER> {
    type V = Seq<Seq<usize>>;

    /// The free lists: `self@[k]` is bucket `k`, first block first.
    closed spec fn view(&self) -> Seq<Seq<usize>> {
        self.lists@
    }
}

impl<const ORDER: usize> BuddyAllocator<ORDER> {
    /// The links in the arena spell out the free lists, and the free lists are valid
    /// for the heap.
    pub closed spec fn wf(&self) -> bool {
        &&& self.arena.wf()
        &&& self.lists@.len() == ORDER
        &&& forall|k: int| 0 <= k < ORDER
            ==> (#[trigger] self.free_lists[k]).wf(&self.arena, self.lists@[k])
        &&& lists_valid(self.lists@, self.arena.start(), self.arena.end())
    }

    /// First address of the heap.
    pub closed spec fn heap_start(&self) -> int {
        self.arena.start()
    }

    /// One past the last address of the heap.
    pub closed spec fn heap_end(&self) -> int {
        self.arena.end()
    }

    /// The memory of the heap.
    pub closed spec fn heap(&self) -> Arena {
        self.arena
    }

    /// The free lists are written into the free memory itself: the first word of
    /// every free block holds the address of the block after it in its bucket, the
    /// second word the address of the block before it, and `NIL` stands for none.
    pub proof fn lemma_links_in_heap(&self, k: int, j: int)
        requires
            self.wf(),
            block_at(self@, k, j),
        ensures
            node_linked(&self.heap(), self@[k], j),
            self.heap().start() == self.heap_start(),
            self.heap().end() == self.heap_end(),
    {
        assert(self.free_lists[k].wf(&self.arena, self.lists@[k]));
    }

    /// The memory of the heap reaches from `heap_start` to `heap_end`.
    pub proof fn lemma_heap_extent(&self)
        ensures
            self.heap().start() == self.heap_start(),
            self.heap().end() == self.heap_end(),
    {
    }

    /// What `wf` says of the free lists alone.
    pub proof fn lemma_wf_lists(&self)
        requires
            self.wf(),
        ensures
            self@.len() == ORDER,
            lists_valid(self@, self.heap_start(), self.heap_end()),
            0 <= self.heap_start() <= self.heap_end() <= usize::MAX,
    {
        self.arena.lemma_bounds();
    }

    /// An allocator with no heap: every bucket is empty and every allocation fails
    /// until `init` gives it memory.
    pub fn new() -> (r: Self)
        ensures
            r.wf(),
            r@ == empty_lists(ORDER as nat),
            r.heap_start() == 0,
            r.heap_end() == 0,
    {
        let r = BuddyAllocator {
            free_lists: [LinkedList::new(); ORDER],
            arena: Arena::empty(),
            lists: Ghost(empty_lists(ORDER as nat)),
        };
        proof {
            LinkedList::lemma_new_is_empty();
            assert forall|k: int| 0 <= k < ORDER
                implies (#[trigger] r.free_lists[k]).wf(&r.arena, r.lists@[k]) by {
                assert(r.free_lists[k] == LinkedList::new_spec());
                assert(r.lists@[k] =~= Seq::<usize>::empty());
            }
            lemma_empty_lists_valid(ORDER as nat, 0, 0);
        }
        r
    }

    /// Gives the allocator the heap `[heap_start, heap_start + size)`, rounded inward
    /// to multiples of the minimum block size, as free memory. The heap has room
    /// for at least one block of the minimum size. Whatever the allocator held before
    /// is forgotten.
    ///
    /// Afterwards all of the heap is free and nothing else is: the free blocks add up
    /// to the heap's size, a byte lies in one of them exactly when it lies in the
    /// heap, and no two of them are buddies that could be merged.
    pub fn init(&mut self, heap_start: usize, size: usize)
        requires
            heap_start + size <= usize::MAX,
            heap_start + 15 <= usize::MAX,
            round_up_min(heap_start as int) + 16 <= round_down_min(heap_start + size),
            round_down_min(heap_start + size) - round_up_min(heap_start as int)
                < pow2(ORDER as nat),
        ensures
            final(self).wf(),
            final(self).heap_start() == round_up_min(heap_start as int),
            final(self).heap_end() == round_down_min(heap_start + size),
            final(self)@ == add_region_lists(
                empty_lists(ORDER as nat),
                round_up_min(heap_start as int),
                round_down_min(heap_start + size),
            ),
            free_bytes(final(self)@) == final(self).heap_end() - final(self).heap_start(),
            forall|x: int| #[trigger]
                free_byte(final(self)@, x)
                    <==> final(self).heap_start() <= x < final(self).heap_end(),
            merged(final(self)@),
    {
        proof {
            lemma_min_block_is_power();
            lemma_init_merged(
                ORDER as nat,
                round_up_min(heap_start as int),
                round_down_min(heap_start + size),
            );
        }
        self.reset();
        proof {
            lemma_empty_lists_valid(
                ORDER as nat,
                round_up_min(heap_start as int),
                round_down_min(heap_start + size),
            );
            lemma_free_bytes_empty(ORDER as nat);
            let none = empty_lists(ORDER as nat);
            assert forall|x: int| !#[trigger] free_byte(none, x) by {
                lemma_nothing_free(ORDER as nat, x);
            }
        }
        self.add_free_region(heap_start, heap_start + size);
    }

    /// Empties every bucket and takes the heap away.
    fn reset(&mut self)
        ensures
            final(self).wf(),
            final(self).heap_start() == 0,
            final(self).heap_end() == 0,
            final(self)@ == empty_lists(ORDER as nat),
    {
        self.arena = Arena::empty();
        self.free_lists = [LinkedList::new(); ORDER];
        self.lists = Ghost(empty_lists(ORDER as nat));
        proof {
            LinkedList::lemma_new_is_empty();
            assert forall|k: int| 0 <= k < ORDER
                implies (#[trigger] self.free_lists[k]).wf(&self.arena, self.lists@[k]) by {
                assert(self.free_lists[k] == LinkedList::new_spec());
                assert(self.lists@[k] =~= Seq::<usize>::empty());
            }
            lemma_empty_lists_valid(ORDER as nat, 0, 0);
        }
    }

    /// Whether `init` takes the heap `[heap_start, heap_start + size)`: its rounding
    /// stays within the address space and leaves room for a block of the minimum
    /// size, and what is left is shorter than the block above the largest bucket.
    pub fn accepts_heap(heap_start: usize, size: usize) -> (ok: bool)
        ensures
            ok == (heap_start + size <= usize::MAX
                && heap_start + 15 <= usize::MAX
                && round_up_min(heap_start as int) + 16 <= round_down_min(heap_start + size)
                && round_down_min(heap_start + size) - round_up_min(heap_start as int)
                    < pow2(ORDER as nat)),
    {
        if heap_start > usize::MAX - 15 || size > usize::MAX - heap_start {
            return false;
        }
        let start = (heap_start + 15) / MIN_BLOCK_SIZE * MIN_BLOCK_SIZE;
        let end = (heap_start + size) / MIN_BLOCK_SIZE * MIN_BLOCK_SIZE;
        if start > end || end - start < MIN_BLOCK_SIZE {
            return false;
        }
        proof {
            lemma_pow2_fits_word(ORDER as nat);
        }
        if ORDER >= usize::BITS as usize {
            true
        } else {
            end - start < pow2_word(ORDER)
        }
    }

    /// Whether the block that serves `layout` at `ptr` is a block of this heap: its
    /// bucket exists, it is aligned to its size and it lies in the heap.
    pub fn holds_block(&self, ptr: usize, layout: &Layout) -> (ok: bool)
        requires
            self.wf(),
        ensures
            ok == (block_order(layout.size() as nat, layout.align() as nat) < ORDER && block_valid(
                ptr as int,
                block_order(layout.size() as nat, layout.align() as nat) as int,
                self.heap_start(),
                self.heap_end(),
            )),
    {
        let k = Self::bucket_of(layout);
        proof {
            self.arena.lemma_bounds();
        }
        if k >= ORDER {
            return false;
        }
        let size = pow2_word(k);
        proof {
            lemma_pow2_pos(k as nat);
        }
        let start = self.arena.start_addr();
        let end = self.arena.end_addr();
        ptr % size == 0 && start <= ptr && ptr <= end && size <= end - ptr
    }

    /// The word of the heap at `addr`; `None` where the heap holds no word there.
    pub fn read_word(&self, addr: usize) -> (r: Option<usize>)
        requires
            self.wf(),
        ensures
            r.is_some() == self.heap().holds(addr as int),
            r matches Some(w) ==> w == self.heap().word(addr as int),
    {
        proof {
            self.arena.lemma_bounds();
        }
        let start = self.arena.start_addr();
        let end = self.arena.end_addr();
        if addr % 8 == 0 && start <= addr && addr <= end && end - addr >= 8 {
            Some(self.arena.read(addr))
        } else {
            None
        }
    }

    /// Whether the word at `addr` is one of the first two words of a free block,
    /// where the block's links are kept.
    pub fn is_link_word(&self, addr: usize) -> (r: bool)
        requires
            self.wf(),
        ensures
            r == link_word(self@, addr as int),
    {
        let a = addr - addr % MIN_BLOCK_SIZE;
        let mut k: usize = 0;
        while k < ORDER
            invariant
                self.wf(),
                k <= ORDER,
                a == addr - addr % 16,
                forall|m: int| 0 <= m < k ==> !(#[trigger] self@[m]).contains(a),
            decreases ORDER - k,
        {
            let found = self.find_block(k, a);
            if found.0 {
                return true;
            }
            k = k + 1;
        }
        proof {
            if listed(self@, a as int) {
                let (m, j) = choose|m: int, j: int|
                    block_at(self@, m, j) && (#[trigger] self@[m][j]) == a;
                assert(self@[m].contains(a));
            }
        }
        false
    }

    /// Stores `value` in the word of the heap at `addr`, for the owner of the block
    /// that holds the word. A word that the heap does not hold, or that is a link
    /// word of a free block, is refused, and nothing is written then. The free
    /// lists stay as they are.
    pub fn write_word(&mut self, addr: usize, value: usize) -> (ok: bool)
        requires
            old(self).wf(),
        ensures
            final(self).wf(),
            final(self)@ == old(self)@,
            final(self).heap_start() == old(self).heap_start(),
            final(self).heap_end() == old(self).heap_end(),
            ok == (old(self).heap().holds(addr as int) && !link_word(old(self)@, addr as int)),
            ok ==> final(self).heap().word(addr as int) == value,
            !ok ==> final(self).heap() == old(self).heap(),
            forall|x: int|
                old(self).heap().holds(x) && x != addr
                    ==> #[trigger] final(self).heap().word(x) == old(self).heap().word(x),
    {
        if self.read_word(addr).is_none() || self.is_link_word(addr) {
            return false;
        }
        let ghost before = self.arena;
        let ghost lists = self.lists@;
        self.arena.write(addr, value);
        proof {
            before.lemma_bounds();
            assert forall|k: int| 0 <= k < ORDER implies (#[trigger] self.free_lists[k]).wf(
                &self.arena,
                lists[k],
            ) by {
                assert(self.free_lists[k].wf(&before, lists[k]));
                assert forall|j: int| 0 <= j < lists[k].len() implies self.arena.word(
                    #[trigger] lists[k][j] as int,
                ) == before.word(lists[k][j] as int) && self.arena.word(lists[k][j] + 8)
                    == before.word(lists[k][j] + 8) by {
                    lemma_link_words_at(lists, k, j, before.start(), before.end());
                    assert(node_linked(&before, lists[k], j));
                }
                self.free_lists[k].lemma_frame(&before, &self.arena, lists[k]);
            }
        }
        true
    }

    /// First address of the heap once the region `[start, end)` has been handed over:
    /// the region's start for an allocator without heap, the lower of the two starts
    /// otherwise. An empty region changes nothing.
    pub open spec fn heap_start_with(&self, start: int, end: int) -> int {
        if start >= end {
            self.heap_start()
        } else if self.heap_start() == self.heap_end() || start < self.heap_start() {
            start
        } else {
            self.heap_start()
        }
    }

    /// One past the last address of the heap once the region `[start, end)` has been
    /// handed over.
    pub open spec fn heap_end_with(&self, start: int, end: int) -> int {
        if start >= end {
            self.heap_end()
        } else if self.heap_start() == self.heap_end() || self.heap_end() < end {
            end
        } else {
            self.heap_end()
        }
    }

    /// Makes the heap reach over `[start, end)` as well. The free lists and every
    /// word of the heap stay as they are.
    fn extend_heap(&mut self, start: usize, end: usize)
        requires
            old(self).wf(),
            start % 16 == 0,
            end % 16 == 0,
            start < end,
        ensures
            final(self).wf(),
            final(self)@ == old(self)@,
            final(self).heap_start() == old(self).heap_start_with(start as int, end as int),
            final(self).heap_end() == old(self).heap_end_with(start as int, end as int),
            forall|a: int|
                old(self).heap().holds(a) ==> final(self).heap().holds(a)
                    && #[trigger] final(self).heap().word(a) == old(self).heap().word(a),
    {
        let ghost before = self.arena;
        let ghost lists = self.lists@;
        self.arena.cover(start, end);
        proof {
            before.lemma_bounds();
            self.arena.lemma_bounds();
            assert forall|k: int| 0 <= k < ORDER implies (#[trigger] self.free_lists[k]).wf(
                &self.arena,
                lists[k],
            ) by {
                assert(self.free_lists[k].wf(&before, lists[k]));
                self.free_lists[k].lemma_grown(&before, &self.arena, lists[k]);
            }
            lemma_lists_widen(
                lists,
                before.start(),
                before.end(),
                self.arena.start(),
                self.arena.end(),
            );
        }
    }

    /// Hands the region `[head_start, heap_end)`, rounded inward to multiples of the
    /// minimum block size, to the free lists: front to back, each time as the
    /// largest block that is aligned to its size where the rest of the region starts
    /// and does not reach beyond the region's end. The heap grows to hold the
    /// region; on an allocator without heap the region is the heap. The region
    /// holds no free block, and no block that is in use.
    ///
    /// The free bytes grow by the region's length: a byte is free afterwards exactly
    /// when it was free before or lies in the region. Outside the region only link
    /// words of blocks that were free before are written.
    pub fn add_free_region(&mut self, head_start: usize, heap_end: usize)
        requires
            old(self).wf(),
            head_start + 15 <= usize::MAX,
            round_up_min(head_start as int) <= round_down_min(heap_end as int),
            no_block_meets(old(self)@, round_up_min(head_start as int),
                round_down_min(heap_end as int)),
            round_down_min(heap_end as int) - round_up_min(head_start as int) < pow2(ORDER as nat),
        ensures
            final(self).wf(),
            final(self).heap_start() == old(self).heap_start_with(
                round_up_min(head_start as int),
                round_down_min(heap_end as int),
            ),
            final(self).heap_end() == old(self).heap_end_with(
                round_up_min(head_start as int),
                round_down_min(heap_end as int),
            ),
            final(self)@ == add_region_lists(
                old(self)@,
                round_up_min(head_start as int),
                round_down_min(heap_end as int),
            ),
            free_bytes(final(self)@) == free_bytes(old(self)@) + round_down_min(heap_end as int)
                - round_up_min(head_start as int),
            forall|x: int| #[trigger]
                free_byte(final(self)@, x) <==> free_byte(old(self)@, x)
                    || round_up_min(head_start as int) <= x < round_down_min(heap_end as int),
            forall|x: int|
                old(self).heap().holds(x) && !link_word(old(self)@, x)
                    && !(round_up_min(head_start as int) <= x < round_down_min(heap_end as int))
                    ==> final(self).heap().holds(x)
                    && #[trigger] final(self).heap().word(x) == old(self).heap().word(x),
    {
        proof {
            lemma_min_block_is_power();
        }
        let start = align_up(head_start, MIN_BLOCK_SIZE);
        let end = heap_end / MIN_BLOCK_SIZE * MIN_BLOCK_SIZE;
        let ghost first = self.heap();
        let ghost lists0 = self.lists@;
        if start < end {
            self.extend_heap(start, end);
        }
        let ghost grown = self.heap();
        self.add_blocks(start, end);
        proof {
            lemma_add_region_free_bytes(lists0, start as int, end as int);
            assert forall|x: int| #[trigger]
                free_byte(self.lists@, x) <==> free_byte(lists0, x) || start <= x < end by {
                lemma_add_region_frees(lists0, start as int, end as int, x);
            }
            let last = self.heap();
            assert forall|x: int| first.holds(x) && !link_word(lists0, x) && !(start <= x < end)
                implies last.holds(x) && #[trigger] last.word(x) == first.word(x) by {
                assert(grown.holds(x) && grown.word(x) == first.word(x));
                assert(last.word(x) == grown.word(x));
            }
        }
    }

    /// Order and size of the largest block that is aligned to its size at `current`
    /// and ends at or before `end`.
    fn leading_block(current: usize, end: usize) -> (r: (usize, usize))
        requires
            current % 16 == 0,
            current + 16 <= end,
        ensures
            r.0 == region_order(current as int, end as int),
            r.1 == pow2(r.0 as nat),
            r.0 >= 4,
            aligned(current as int, r.0 as nat),
            current + r.1 <= end,
    {
        let cap = Self::prev_power_of_two(end - current);
        let ghost c = log2_floor((end - current) as nat);
        let mut k: usize = 4;
        let mut size: usize = MIN_BLOCK_SIZE;
        proof {
            lemma2_to64();
            lemma_log2_floor((end - current) as nat);
            lemma_pow2_order(4, c);
            lemma_pow2_order(5, c);
            lemma_pow2_double(c);
            lemma_pow2_double(4);
        }
        while size < cap && current % (size * 2) == 0
            invariant
                size == pow2(k as nat),
                size >= 16,
                cap == pow2(c),
                4 <= k <= c,
                size < cap ==> 2 * size <= cap,
                cap <= end - current < 2 * cap,
                aligned(current as int, k as nat),
                end <= usize::MAX,
                current <= end,
            decreases c - k,
        {
            proof {
                lemma_pow2_fits_word(k as nat);
                lemma_pow2_double(k as nat);
                lemma_pow2_order((k + 1) as nat, c);
                lemma_pow2_order((k + 2) as nat, c);
                lemma_pow2_double((k + 1) as nat);
            }
            size = size * 2;
            k = k + 1;
        }
        proof {
            lemma_pow2_double(k as nat);
            lemma_pow2_order(k as nat, c);
            lemma_region_order(current as int, end as int, k as nat);
        }
        (k, size)
    }

    /// Hands the region `[start, end)` of the heap, between multiples of the minimum
    /// block size, to the free lists, block by block from the front.
    #[verifier::rlimit(30)]
    fn add_blocks(&mut self, start: usize, end: usize)
        requires
            old(self).wf(),
            start <= end,
            start % 16 == 0,
            end % 16 == 0,
            start < end ==> old(self).heap_start() <= start && end <= old(self).heap_end(),
            end - start < pow2(ORDER as nat),
            no_block_meets(old(self)@, start as int, end as int),
        ensures
            final(self).wf(),
            final(self).heap_start() == old(self).heap_start(),
            final(self).heap_end() == old(self).heap_end(),
            final(self)@ == add_region_lists(old(self)@, start as int, end as int),
            forall|x: int|
                old(self).heap().holds(x) && !link_word(old(self)@, x) && !(start <= x < end)
                    ==> #[trigger] final(self).heap().word(x) == old(self).heap().word(x),
    {
        proof {
            self.arena.lemma_bounds();
        }
        let ghost lo = self.arena.start();
        let ghost hi = self.arena.end();
        let ghost goal = add_region_lists(self.lists@, start as int, end as int);
        let ghost first = self.heap();
        let ghost lists0 = self.lists@;
        let ghost allowed = Set::new(|a: int| listed(lists0, a) || start <= a < end);
        let mut current = start;
        while end - current >= MIN_BLOCK_SIZE
            invariant
                self.wf(),
                self.arena.start() == lo,
                self.arena.end() == hi,
                hi <= usize::MAX,
                start <= current <= end,
                start < end ==> lo <= start && end <= hi,
                current % 16 == 0,
                end % 16 == 0,
                end - start < pow2(ORDER as nat),
                no_block_meets(self.lists@, current as int, end as int),
                goal == add_region_lists(self.lists@, current as int, end as int),
                allowed == Set::new(|a: int| listed(lists0, a) || start <= a < end),
                kept_outside(&first, &self.heap(), allowed),
                first.start() == lo,
                first.end() == hi,
                forall|a: int| #[trigger] listed(self.lists@, a) ==> allowed.contains(a),
            decreases end - current,
        {
            let ghost before = self.heap();
            let ghost cur = self.lists@;
            let (k, size) = Self::leading_block(current, end);
            proof {
                lemma_pow2_order(k as nat, ORDER as nat);
                lemma_pow2_pos(k as nat);
                lemma_pow2_ge_16(k as nat, current as int);
            }
            self.push_block(k, current);
            proof {
                lemma_kept_step(&first, &before, &self.heap(), cur, current as int, allowed);
                lemma_listed_push(cur, k as int, current);
            }
            current = current + size;
        }
        proof {
            lemma_region_done(self.lists@, current as int, end as int);
            assert forall|x: int| first.holds(x) && !link_word(lists0, x) && !(start <= x < end)
                implies #[trigger] self.heap().word(x) == first.word(x) by {
                assert(!allowed.contains(x - x % 16));
            }
        }
    }

    /// The largest power of two that does not exceed `num`.
    pub fn prev_power_of_two(num: usize) -> (r: usize)
        requires
            num > 0,
        ensures
            r == pow2(log2_floor(num as nat)),
            r <= num < 2 * r,
    {
        let mut r: usize = 1;
        let ghost mut k: nat = 0;
        proof {
            lemma2_to64();
        }
        while r <= num / 2
            invariant
                r == pow2(k),
                0 < r <= num,
            decreases num - r,
        {
            proof {
                lemma_pow2_double(k);
                k = k + 1;
            }
            r = r * 2;
        }
        proof {
            lemma_log2_floor_unique(num as nat, k);
        }
        r
    }

    /// Bucket that serves `layout`.
    pub fn bucket_of(layout: &Layout) -> (k: usize)
        ensures
            k == block_order(layout.size() as nat, layout.align() as nat),
            4 <= k < usize::BITS,
    {
        proof {
            use_type_invariant(layout);
            layout.lemma_wf();
            lemma_power_of_two_bounds(layout.align());
        }
        let by_size = order_of(layout.size());
        let by_size = if by_size < 4 { 4 } else { by_size };
        let by_align = order_of(layout.align());
        if by_size < by_align { by_align } else { by_size }
    }

    /// Takes a block that serves `layout` out of the free lists and returns its
    /// address. The block comes from the first bucket at or above the layout's own
    /// that is not empty, split in halves down to the layout's size. Fails when no
    /// such bucket holds a block.
    ///
    /// Only link words are written: a word of the heap that lies in the first two
    /// words of no block that is free before or after the call keeps its value.
    /// Where no two free blocks were buddies that could be merged, none are
    /// afterwards.
    pub fn allocate(&mut self, layout: Layout) -> (r: Result<usize, ()>)
        requires
            old(self).wf(),
        ensures
            final(self).wf(),
            final(self).heap_start() == old(self).heap_start(),
            final(self).heap_end() == old(self).heap_end(),
            r.is_ok() <==> alloc_block(
                old(self)@,
                block_order(layout.size() as nat, layout.align() as nat) as int,
            ).is_some(),
            r matches Ok(a) ==> Some(a) == alloc_block(
                old(self)@,
                block_order(layout.size() as nat, layout.align() as nat) as int,
            ),
            final(self)@ == alloc_lists(
                old(self)@,
                block_order(layout.size() as nat, layout.align() as nat) as int,
            ),
            r matches Ok(a) ==> {
                &&& block_valid(
                    a as int,
                    block_order(layout.size() as nat, layout.align() as nat) as int,
                    final(self).heap_start(),
                    final(self).heap_end(),
                )
                &&& no_block_meets(
                    final(self)@,
                    a as int,
                    a + pow2(block_order(layout.size() as nat, layout.align() as nat)),
                )
            },
            forall|x: int|
                old(self).heap().holds(x) && !link_word(old(self)@, x)
                    && !link_word(final(self)@, x)
                    ==> #[trigger] final(self).heap().word(x) == old(self).heap().word(x),
            merged(old(self)@) ==> merged(final(self)@),
    {
        let bucket = Self::bucket_of(&layout);
        let ghost lists = self.lists@;
        let ghost first = self.heap();
        let ghost goal = alloc_lists(lists, bucket as int);
        proof {
            if merged(lists) {
                lemma_alloc_merged(lists, bucket as int);
            }
        }
        let ghost allowed = Set::new(|a: int| listed(lists, a) || listed(goal, a));
        let ghost lo = self.arena.start();
        let ghost hi = self.arena.end();
        let mut i = bucket;
        while i < ORDER && self.free_lists[i].is_empty()
            invariant
                self.wf(),
                *self == *old(self),
                bucket <= i,
                first_nonempty(lists, bucket as int) == first_nonempty(lists, i as int),
                forall|m: int| bucket <= m < i ==> (#[trigger] lists[m]).len() == 0,
                lists == self.lists@,
            decreases ORDER - i,
        {
            proof {
                let s = lists[i as int];
                assert(self.free_lists[i as int].wf(&self.arena, s));
                if s.len() > 0 {
                    assert(node_linked(&self.arena, s, 0));
                }
            }
            i = i + 1;
        }
        if i >= ORDER {
            return Err(());
        }
        proof {
            let s = lists[i as int];
            assert(self.free_lists[i as int].wf(&self.arena, s));
            assert(first_nonempty(lists, bucket as int) == i);
            assert(block_at(lists, i as int, 0));
        }
        let ghost b = lists[i as int][0];
        let mut j = i;
        proof {
            self.arena.lemma_bounds();
            lemma_link_words_at(lists, i as int, 0, lo, hi);
        }
        while j > bucket
            invariant
                self.wf(),
                hi <= usize::MAX,
                4 <= bucket,
                self.arena.start() == lo,
                self.arena.end() == hi,
                bucket <= j <= i < ORDER,
                lists.len() == ORDER,
                block_at(lists, i as int, 0),
                b == lists[i as int][0],
                lists_valid(lists, lo, hi),
                forall|m: int| bucket <= m < i ==> (#[trigger] lists[m]).len() == 0,
                self.lists@ =~~= split_lists(lists, i as int, j as int),
                first_nonempty(lists, bucket as int) == i,
                goal == alloc_lists(lists, bucket as int),
                allowed == Set::new(|a: int| listed(lists, a) || listed(goal, a)),
                kept_outside(&first, &self.heap(), allowed),
                first.start() == lo,
                first.end() == hi,
                allowed.contains(b as int),
                b % 16 == 0,
            decreases j,
        {
            let ghost cur = self.lists@;
            let ghost h0 = self.heap();
            proof {
                lemma_split_listed(lists, bucket as int, i as int, j as int);
                assert(cur[j as int] == split_lists(lists, i as int, j as int)[j as int]);
                assert(block_at(cur, j as int, 0));
                assert(cur[j as int][0] == b);
                lemma_remove_valid(cur, j as int, 0, lo, hi);
                lemma_split(b as int, (j - 1) as nat);
                lemma_pow2_double((j - 1) as nat);
                lemma_pow2_fits_word(j as nat);
                lemma_pow2_fits_word((j - 1) as nat);
            }
            let popped = self.pop_block(j);
            let block = popped.unwrap();
            let upper = block + pow2_word(j - 1);
            let ghost popped_lists = self.lists@;
            let ghost h1 = self.heap();
            proof {
                lemma_kept_step(&first, &h0, &h1, cur, b as int, allowed);
                lemma_listed_remove(cur, j as int, 0);
                lemma_pow2_ge_16((j - 1) as nat, upper as int);
                assert(block_at(goal, j - 1, 0) && goal[j - 1][0] == upper);
                assert(listed(goal, upper as int));
            }
            self.push_block(j - 1, upper);
            let ghost h2 = self.heap();
            proof {
                lemma_kept_step(&first, &h1, &h2, popped_lists, upper as int, allowed);
                lemma_listed_push(popped_lists, j - 1, upper);
                let pushed = self.lists@;
                assert forall|k: int, n: int| block_at(pushed, k, n)
                    implies (#[trigger] pushed[k][n]) + pow2(
                    k as nat,
                ) <= block || block + pow2((j - 1) as nat) <= pushed[k][n] by {
                    if k == j - 1 && n == 0 {
                    } else {
                        let n0 = if k == j - 1 { n - 1 } else { n };
                        assert(block_at(popped_lists, k, n0));
                        assert(pushed[k][n] == popped_lists[k][n0]);
                    }
                }
            }
            let ghost pushed = self.lists@;
            self.push_block(j - 1, block);
            proof {
                lemma_kept_step(&first, &h2, &self.heap(), pushed, b as int, allowed);
            }
            j = j - 1;
            assert(self.lists@ =~~= split_lists(lists, i as int, j as int));
        }
        let ghost cur = self.lists@;
        let ghost h0 = self.heap();
        proof {
            assert(self.lists@[bucket as int].len() > 0);
            lemma_split_listed(lists, bucket as int, i as int, bucket as int);
        }
        let popped = self.pop_block(bucket);
        proof {
            lemma_kept_step(&first, &h0, &self.heap(), cur, b as int, allowed);
        }
        assert(self.lists@ =~~= alloc_lists(lists, bucket as int));
        proof {
            lemma_alloc_consistent(lists, Seq::empty(), lo, hi, bucket);
            let live = Seq::<LiveBlock>::empty().push(LiveBlock { addr: b, order: bucket });
            assert(live[0].addr == b && live[0].order == bucket);
        }
        Ok(popped.unwrap())
    }

    /// The addresses of the free blocks in bucket `k`, first block first; nothing for
    /// a bucket the allocator does not have.
    pub fn bucket(&self, k: usize) -> (r: Vec<usize>)
        requires
            self.wf(),
        ensures
            k < ORDER ==> r@ == self@[k as int],
            k >= ORDER ==> r@.len() == 0,
    {
        let mut r: Vec<usize> = Vec::new();
        if k >= ORDER {
            return r;
        }
        let ghost s = self.lists@[k as int];
        assert(self.free_lists[k as int].wf(&self.arena, s));
        let mut cur = self.free_lists[k].head();
        while cur != NIL
            invariant
                self.arena.wf(),
                k < ORDER,
                self.lists@.len() == ORDER,
                s == self.lists@[k as int],
                self.free_lists[k as int].wf(&self.arena, s),
                r@.len() <= s.len(),
                cur == (if r@.len() < s.len() { s[r@.len() as int] } else { NIL }),
                r@ == s.take(r@.len() as int),
            decreases s.len() - r@.len(),
        {
            proof {
                assert(node_linked(&self.arena, s, r@.len() as int));
            }
            r.push(cur);
            cur = self.arena.read(cur);
            assert(r@ =~= s.take(r@.len() as int));
        }
        proof {
            if r@.len() < s.len() {
                assert(node_linked(&self.arena, s, r@.len() as int));
            }
            assert(s.take(s.len() as int) =~= s);
        }
        r
    }

    /// Looks for the block at `a` in bucket `k` by walking the bucket's chain.
    fn find_block(&self, k: usize, a: usize) -> (r: (bool, Ghost<int>))
        requires
            self.wf(),
            k < ORDER,
        ensures
            r.0 == self@[k as int].contains(a),
            r.0 ==> block_at(self@, k as int, r.1@) && self@[k as int][r.1@] == a,
    {
        let ghost s = self.lists@[k as int];
        assert(self.free_lists[k as int].wf(&self.arena, s));
        let mut cur = self.free_lists[k].head();
        let ghost mut j: int = 0;
        while cur != NIL
            invariant
                self.arena.wf(),
                k < ORDER,
                self.lists@.len() == ORDER,
                s == self.lists@[k as int],
                self.free_lists[k as int].wf(&self.arena, s),
                0 <= j <= s.len(),
                cur == (if j < s.len() { s[j] } else { NIL }),
                forall|i: int| 0 <= i < j ==> s[i] != a,
            decreases s.len() - j,
        {
            proof {
                if j >= s.len() {
                    assert(false);
                }
                assert(node_linked(&self.arena, s, j));
            }
            if cur == a {
                return (true, Ghost(j));
            }
            cur = self.arena.read(cur);
            proof {
                j = j + 1;
            }
        }
        proof {
            if j < s.len() {
                assert(node_linked(&self.arena, s, j));
            }
        }
        (false, Ghost(j))
    }

    /// Gives the block at `ptr`, allocated with `layout`, back to the free lists.
    /// While the block's buddy is free and a bucket above exists, the two are merged
    /// and the merged block moves one bucket up; what remains is put at the front of
    /// its bucket. In the largest bucket nothing is merged.
    ///
    /// The block must be one that this allocator handed out for the same layout and
    /// that has not been given back since: it lies in the heap, is aligned to its
    /// size and shares no byte with a free block. The allocator keeps no record by
    /// which it could tell.
    ///
    /// Only link words are written: every word of the heap outside the first two
    /// words of the block given back and of the blocks that were free before the
    /// call keeps its value. What is in use elsewhere is not touched. Where no two
    /// free blocks were buddies that could be merged, none are afterwards.
    #[verifier::rlimit(30)]
    pub fn deallocate(&mut self, ptr: usize, layout: Layout)
        requires
            old(self).wf(),
            block_order(layout.size() as nat, layout.align() as nat) < ORDER,
            block_valid(
                ptr as int,
                block_order(layout.size() as nat, layout.align() as nat) as int,
                old(self).heap_start(),
                old(self).heap_end(),
            ),
            no_block_meets(
                old(self)@,
                ptr as int,
                ptr + pow2(block_order(layout.size() as nat, layout.align() as nat)),
            ),
        ensures
            final(self).wf(),
            final(self).heap_start() == old(self).heap_start(),
            final(self).heap_end() == old(self).heap_end(),
            final(self)@ == dealloc_lists(
                old(self)@,
                ptr as int,
                block_order(layout.size() as nat, layout.align() as nat) as int,
            ),
            forall|x: int|
                old(self).heap().holds(x) && !link_word(old(self)@, x) && x != ptr && x != ptr + 8
                    ==> #[trigger] final(self).heap().word(x) == old(self).heap().word(x),
            merged(old(self)@) ==> merged(final(self)@),
    {
        let mut bucket = Self::bucket_of(&layout);
        let mut addr = ptr;
        let ghost lo = self.arena.start();
        let ghost hi = self.arena.end();
        let ghost goal = dealloc_lists(self.lists@, ptr as int, bucket as int);
        let ghost first = self.heap();
        let ghost lists0 = self.lists@;
        let ghost allowed = Set::new(|a: int| listed(lists0, a) || a == ptr);
        proof {
            self.arena.lemma_bounds();
            if merged(lists0) {
                lemma_dealloc_merged(lists0, ptr as int, bucket as int, lo, hi);
            }
            lemma_pow2_ge_16(bucket as nat, ptr as int);
        }
        while bucket + 1 < ORDER
            invariant
                self.wf(),
                self.arena.start() == lo,
                self.arena.end() == hi,
                hi <= usize::MAX,
                bucket < ORDER,
                block_valid(addr as int, bucket as int, lo, hi),
                no_block_meets(self.lists@, addr as int, addr + pow2(bucket as nat)),
                goal == dealloc_lists(self.lists@, addr as int, bucket as int),
                kept_outside(&first, &self.heap(), allowed),
                first.start() == lo,
                first.end() == hi,
                forall|a: int| #[trigger] listed(self.lists@, a) ==> allowed.contains(a),
                allowed.contains(addr as int),
                allowed.contains(ptr as int),
                ptr % 16 == 0,
                addr % 16 == 0,
            ensures
                goal == self.lists@.update(bucket as int, seq![addr] + self.lists@[bucket as int]),
            decreases ORDER - bucket,
        {
            let ghost cur = self.lists@;
            proof {
                lemma_block_fits(addr as int, bucket as nat, lo, hi);
                lemma_buddy(addr as int, bucket as nat);
            }
            let other = buddy_of(addr, bucket);
            let (found, Ghost(j)) = self.find_block(bucket, other);
            if !found {
                break;
            }
            let ghost before = self.heap();
            proof {
                lemma_index_of(cur, bucket as int, j, lo, hi);
                lemma_remove_valid(cur, bucket as int, j, lo, hi);
                lemma_link_words_at(cur, bucket as int, j, lo, hi);
            }
            self.remove_block(bucket, other, Ghost(j));
            proof {
                lemma_listed_remove(cur, bucket as int, j);
                lemma_kept_step(&first, &before, &self.heap(), cur, ptr as int, allowed);
                let after = self.lists@;
                let low = if addr < other { addr } else { other };
                assert forall|k: int, n: int| block_at(after, k, n)
                    implies (#[trigger] after[k][n]) + pow2(
                    k as nat,
                ) <= low || low + pow2((bucket + 1) as nat) <= after[k][n] by {
                    let n0 = if k == bucket && n >= j { n + 1 } else { n };
                    assert(block_at(cur, k, n0));
                    assert(after[k][n] == cur[k][n0]);
                    lemma_pow2_pos(k as nat);
                }
            }
            if other < addr {
                addr = other;
            }
            bucket = bucket + 1;
        }
        let ghost before = self.heap();
        let ghost cur = self.lists@;
        self.push_block(bucket, addr);
        proof {
            lemma_kept_step(&first, &before, &self.heap(), cur, addr as int, allowed);
        }
    }

    /// Lists other than `k` keep their links when the arena changed only inside
    /// blocks that are not theirs.
    proof fn lemma_other_lists_kept(
        &self,
        before: &Arena,
        lists: Seq<Seq<usize>>,
        k: int,
        touched: Set<int>,
    )
        requires
            lists.len() == ORDER,
            0 <= k < ORDER,
            before.same_extent(&self.arena),
            forall|k2: int| 0 <= k2 < ORDER && k2 != k
                ==> (#[trigger] self.free_lists[k2]).wf(before, lists[k2]),
            forall|a: int| before.holds(a) && !touched.contains(a)
                ==> #[trigger] self.arena.word(a) == before.word(a),
            forall|k2: int, j: int|
                block_at(lists, k2, j) && k2 != k
                    ==> !touched.contains(#[trigger] lists[k2][j] as int)
                    && !touched.contains(lists[k2][j] + 8),
        ensures
            forall|k2: int| 0 <= k2 < ORDER && k2 != k
                ==> (#[trigger] self.free_lists[k2]).wf(&self.arena, lists[k2]),
    {
        let after = &self.arena;
        assert forall|k2: int| 0 <= k2 < ORDER && k2 != k implies (#[trigger] self.free_lists[k2])
            .wf(after, lists[k2]) by {
            let t = lists[k2];
            assert(self.free_lists[k2].wf(before, t));
            assert forall|j: int| 0 <= j < t.len() implies after.word(#[trigger] t[j] as int)
                == before.word(t[j] as int) && after.word(t[j] + 8) == before.word(t[j] + 8) by {
                assert(node_linked(before, t, j));
                assert(block_at(lists, k2, j));
            }
            self.free_lists[k2].lemma_frame(before, after, t);
        }
    }

    /// Puts the block of order `k` at `a` at the front of bucket `k`.
    fn push_block(&mut self, k: usize, a: usize)
        requires
            old(self).wf(),
            k < ORDER,
            block_valid(a as int, k as int, old(self).heap_start(), old(self).heap_end()),
            no_block_meets(old(self)@, a as int, a + pow2(k as nat)),
        ensures
            final(self).wf(),
            final(self).heap_start() == old(self).heap_start(),
            final(self).heap_end() == old(self).heap_end(),
            final(self)@ == old(self)@.update(k as int, seq![a] + old(self)@[k as int]),
            forall|x: int|
                old(self).heap().holds(x) && !link_word(old(self)@, x) && x != a && x != a + 8
                    ==> #[trigger] final(self).heap().word(x) == old(self).heap().word(x),
    {
        let ghost lists = self.lists@;
        let ghost s = lists[k as int];
        let ghost before = self.arena;
        proof {
            lemma_pow2_ge_16(k as nat, a as int);
            lemma_distinct_from_list(lists, k as int, a);
            assert(self.free_lists[k as int].wf(&self.arena, s));
        }
        self.free_lists[k].push(&mut self.arena, a, Ghost(s));
        proof {
            let s2 = seq![a] + s;
            let lists2 = lists.update(k as int, s2);
            let touched: Set<int> = if s.len() == 0 { set![a as int, a + 8] } else { set![a as int,
                a + 8, s[0] + 8] };
            assert forall|k2: int, j: int| block_at(lists, k2, j) && k2 != k
                implies !touched.contains(
                #[trigger] lists[k2][j] as int,
            ) && !touched.contains(lists[k2][j] + 8) by {
                lemma_pow2_pos(k2 as nat);
                lemma_pow2_pos(k as nat);
                lemma_pow2_ge_16(k2 as nat, lists[k2][j] as int);
                if s.len() > 0 {
                    assert(block_at(lists, k as int, 0));
                    assert(apart(lists[k2][j] as int, k2, lists[k as int][0] as int, k as int));
                    lemma_pow2_ge_16(k as nat, s[0] as int);
                }
            }
            self.lemma_other_lists_kept(&before, lists, k as int, touched);
            self.lists@ = lists2;
            assert forall|k2: int| 0 <= k2 < ORDER implies (#[trigger] self.free_lists[k2]).wf(
                &self.arena,
                lists2[k2],
            ) by {
                if k2 != k {
                    assert(lists2[k2] == lists[k2]);
                }
            }
            lemma_push_valid(lists, k as int, a, self.arena.start(), self.arena.end());
            if s.len() > 0 {
                lemma_link_words_at(lists, k as int, 0, self.arena.start(), self.arena.end());
            }
            lemma_frame_by_links(&before, &self.arena, lists, touched, a as int);
        }
    }

    /// Other buckets hold no block whose link words are words of a block of bucket `k`.
    proof fn lemma_links_elsewhere(
        lists: Seq<Seq<usize>>,
        lo: int,
        hi: int,
        k: int,
        i: int,
        k2: int,
        j: int,
    )
        requires
            lists_valid(lists, lo, hi),
            block_at(lists, k, i),
            block_at(lists, k2, j),
            k != k2,
        ensures
            lists[k2][j] != lists[k][i],
            lists[k2][j] != lists[k][i] + 8,
            lists[k2][j] + 8 != lists[k][i],
    {
        lemma_pow2_ge_16(k as nat, lists[k][i] as int);
        lemma_pow2_ge_16(k2 as nat, lists[k2][j] as int);
        assert(apart(lists[k][i] as int, k, lists[k2][j] as int, k2));
    }

    /// Takes the block at position `j` out of bucket `k`.
    fn remove_block(&mut self, k: usize, a: usize, Ghost(j): Ghost<int>)
        requires
            old(self).wf(),
            block_at(old(self)@, k as int, j),
            old(self)@[k as int][j] == a,
        ensures
            final(self).wf(),
            final(self).heap_start() == old(self).heap_start(),
            final(self).heap_end() == old(self).heap_end(),
            final(self)@ == old(self)@.update(k as int, old(self)@[k as int].remove(j)),
            forall|x: int|
                old(self).heap().holds(x) && !link_word(old(self)@, x)
                    ==> #[trigger] final(self).heap().word(x) == old(self).heap().word(x),
    {
        let ghost lists = self.lists@;
        let ghost s = lists[k as int];
        let ghost before = self.arena;
        let ghost lo = self.arena.start();
        let ghost hi = self.arena.end();
        assert(self.free_lists[k as int].wf(&self.arena, s));
        self.free_lists[k].remove(&mut self.arena, a, Ghost(s), Ghost(j));
        proof {
            let lists2 = lists.update(k as int, s.remove(j));
            let t1: Set<int> = if j == 0 { set![] } else { set![s[j - 1] as int] };
            let t2: Set<int> = if j + 1 >= s.len() { set![] } else { set![s[j + 1] + 8] };
            let touched = t1.union(t2);
            assert forall|k2: int, i: int| block_at(lists, k2, i) && k2 != k
                implies !touched.contains(
                #[trigger] lists[k2][i] as int,
            ) && !touched.contains(lists[k2][i] + 8) by {
                if j > 0 {
                    Self::lemma_links_elsewhere(lists, lo, hi, k as int, j - 1, k2, i);
                }
                if j + 1 < s.len() {
                    Self::lemma_links_elsewhere(lists, lo, hi, k as int, j + 1, k2, i);
                }
            }
            self.lemma_other_lists_kept(&before, lists, k as int, touched);
            self.lists@ = lists2;
            assert forall|k2: int| 0 <= k2 < ORDER implies (#[trigger] self.free_lists[k2]).wf(
                &self.arena,
                lists2[k2],
            ) by {
                if k2 != k {
                    assert(lists2[k2] == lists[k2]);
                }
            }
            lemma_remove_valid(lists, k as int, j, lo, hi);
            if j > 0 {
                lemma_link_words_at(lists, k as int, j - 1, lo, hi);
            }
            if j + 1 < s.len() {
                lemma_link_words_at(lists, k as int, j + 1, lo, hi);
            }
            lemma_link_words_at(lists, k as int, j, lo, hi);
            lemma_frame_by_links(&before, &self.arena, lists, touched, a as int);
        }
    }

    /// Takes the first block out of bucket `k`; `None` when the bucket is empty.
    fn pop_block(&mut self, k: usize) -> (r: Option<usize>)
        requires
            old(self).wf(),
            k < ORDER,
        ensures
            final(self).wf(),
            final(self).heap_start() == old(self).heap_start(),
            final(self).heap_end() == old(self).heap_end(),
            old(self)@[k as int].len() == 0 ==> r.is_none() && final(self)@ == old(self)@,
            old(self)@[k as int].len() > 0
                ==> r == Some(old(self)@[k as int][0]) && final(self)@ == old(self)@.update(
                k as int,
                old(self)@[k as int].remove(0),
            ),
            forall|x: int|
                old(self).heap().holds(x) && !link_word(old(self)@, x)
                    ==> #[trigger] final(self).heap().word(x) == old(self).heap().word(x),
    {
        let ghost lists = self.lists@;
        let ghost s = lists[k as int];
        let ghost before = self.arena;
        let ghost lo = self.arena.start();
        let ghost hi = self.arena.end();
        assert(self.free_lists[k as int].wf(&self.arena, s));
        let r = self.free_lists[k].pop(&mut self.arena, Ghost(s));
        proof {
            if s.len() > 0 {
                let lists2 = lists.update(k as int, s.remove(0));
                let touched: Set<int> = if s.len() < 2 { set![] } else { set![s[1] + 8] };
                assert forall|k2: int, i: int| block_at(lists, k2, i) && k2 != k
                    implies !touched.contains(
                    #[trigger] lists[k2][i] as int,
                ) && !touched.contains(lists[k2][i] + 8) by {
                    if s.len() >= 2 {
                        Self::lemma_links_elsewhere(lists, lo, hi, k as int, 1, k2, i);
                    }
                }
                self.lemma_other_lists_kept(&before, lists, k as int, touched);
                self.lists@ = lists2;
                assert forall|k2: int| 0 <= k2 < ORDER implies (#[trigger] self.free_lists[k2]).wf(
                    &self.arena,
                    lists2[k2],
                ) by {
                    if k2 != k {
                        assert(lists2[k2] == lists[k2]);
                    }
                }
                lemma_remove_valid(lists, k as int, 0, lo, hi);
                if s.len() >= 2 {
                    lemma_link_words_at(lists, k as int, 1, lo, hi);
                }
                lemma_link_words_at(lists, k as int, 0, lo, hi);
                lemma_frame_by_links(&before, &self.arena, lists, touched, s[0] as int);
            } else {
                self.lemma_other_lists_kept(&before, lists, k as int, set![]);
            }
        }
        r
    }
}

} // verus!
