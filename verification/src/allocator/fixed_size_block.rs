//! Segregated free lists for small blocks of fixed sizes. What the lists cannot
//! serve is left to a general allocator that the caller runs.

use crate::allocator::arena::{Arena, NIL};
use crate::allocator::layout::{layout_valid, Layout};
use crate::allocator::power::{
    is_power_of_two, lemma_log2_ceil, lemma_log2_ceil_unique, lemma_pow2_order, log2_ceil,
    pow2_word,
};
use vstd::arithmetic::power2::{lemma2_to64, lemma_pow2_pos, pow2};
use vstd::prelude::*;

verus! {

/// Number of size classes.
pub const CLASSES: usize = 9;

/// Size of the blocks of the largest class, in bytes.
pub const MAX_BLOCK_SIZE: usize = 2048;

/// Size of the blocks of class `i`, in bytes: eight for the first class, twice as
/// much for each class after it.
pub open spec fn class_size(i: int) -> nat {
    pow2((i + 3) as nat)
}

/// The class that serves a request of `size` bytes aligned to `align`: the first
/// whose blocks are no smaller than either. Requests that exceed the largest class
/// have none.
pub open spec fn class_index(size: nat, align: nat) -> Option<int> {
    let required = if size < align { align } else { size };
    if required > 2048 {
        None
    } else if log2_ceil(required) < 3 {
        Some(0)
    } else {
        Some(log2_ceil(required) - 3)
    }
}

/// The class of a request is the smallest that holds it: its blocks are no smaller
/// than the size and the alignment of the request, and those of the class below,
/// if there is one, are smaller than one of the two.
pub proof fn lemma_class_index(size: nat, align: nat)
    ensures
        class_index(size, align).is_some() <==> size <= 2048 && align <= 2048,
        class_index(size, align) matches Some(i) ==> {
            &&& 0 <= i < CLASSES
            &&& size <= class_size(i)
            &&& align <= class_size(i)
            &&& i > 0 ==> class_size(i - 1) < size || class_size(i - 1) < align
        },
{
    let required = if size < align { align } else { size };
    let c = log2_ceil(required);
    lemma2_to64();
    lemma_log2_ceil(required);
    if required <= 2048 {
        if c < 3 {
            lemma_pow2_order(c, 3);
        } else {
            if c > 11 {
                lemma_pow2_order(11, (c - 1) as nat);
            }
        }
    }
}

/// `lists[i][j]` exists.
pub open spec fn block_at(lists: Seq<Seq<usize>>, i: int, j: int) -> bool {
    0 <= i < lists.len() && 0 <= j < lists[i].len()
}

/// A block of class `i` at `a` starts on a word boundary and lies in `[lo, hi)`.
pub open spec fn block_valid(a: int, i: int, lo: int, hi: int) -> bool {
    &&& 0 <= a
    &&& a % 8 == 0
    &&& lo <= a
    &&& a + class_size(i) <= hi
}

/// The block of class `i1` at `a1` and the block of class `i2` at `a2` share no
/// byte.
pub open spec fn apart(a1: int, i1: int, a2: int, i2: int) -> bool {
    a1 + class_size(i1) <= a2 || a2 + class_size(i2) <= a1
}

/// No block of `lists` has a byte in `[lo, hi)`.
pub open spec fn no_block_meets(lists: Seq<Seq<usize>>, lo: int, hi: int) -> bool {
    forall|i: int, j: int|
        block_at(lists, i, j)
            ==> (#[trigger] lists[i][j]) + class_size(i) <= lo || hi <= lists[i][j]
}

/// Every block is valid for the heap `[lo, hi)` and no two blocks overlap.
pub open spec fn lists_valid(lists: Seq<Seq<usize>>, lo: int, hi: int) -> bool {
    &&& forall|i: int, j: int| block_at(lists, i, j)
        ==> block_valid(#[trigger] lists[i][j] as int, i, lo, hi)
    &&& forall|i1: int, j1: int, i2: int, j2: int|
        #![trigger lists[i1][j1], lists[i2][j2]]
        block_at(lists, i1, j1) && block_at(lists, i2, j2) && (i1 != i2 || j1 != j2) ==> apart(
            lists[i1][j1] as int,
            i1,
            lists[i2][j2] as int,
            i2,
        )
}

/// The block at position `j` of `s` carries in its first word the address of the
/// block after it, or `NIL` at the tail.
pub open spec fn node_linked(arena: &Arena, s: Seq<usize>, j: int) -> bool {
    &&& arena.holds(s[j] as int)
    &&& arena.word(s[j] as int) == (if j + 1 < s.len() { s[j + 1] } else { NIL })
}

/// The chain that starts at `head` visits exactly the blocks of `s`, in order.
pub open spec fn list_linked(arena: &Arena, head: usize, s: Seq<usize>) -> bool {
    &&& head == (if s.len() == 0 { NIL } else { s[0] })
    &&& forall|j: int| 0 <= j < s.len() ==> #[trigger] node_linked(arena, s, j)
}

/// What an allocation comes to.
pub enum Allocation {
    /// The block at this address was taken from its class's free list.
    Block(usize),
    /// The free lists cannot serve; a block of this layout is to be had from the
    /// general allocator.
    Fallback(Layout),
}

/// What a deallocation comes to.
pub enum Disposal {
    /// The block went to its class's free list.
    Kept,
    /// The block belongs to no class; it is to be given back to the general
    /// allocator with this layout.
    Fallback(Layout),
}

/// Size of the blocks of class `index`, in bytes.
pub fn block_size(index: usize) -> (size: usize)
    requires
        index < CLASSES,
    ensures
        size == class_size(index as int),
        8 <= size <= MAX_BLOCK_SIZE,
{
    proof {
        lemma2_to64();
        lemma_pow2_order(3, (index + 3) as nat);
        lemma_pow2_order((index + 3) as nat, 11);
    }
    pow2_word(index + 3)
}

/// The fixed-size-block allocator: one singly-linked free list per size class, the
/// link of each free block stored in the block's own first word.
pub struct FixedSizeBlock {
    blocks: [usize; 9],
    arena: Arena,
    lists: Ghost<Seq<Seq<usize>>>,
}

impl View for FixedSizeBlock {
    type V = Seq<Seq<usize>>;

    /// The free lists: `self@[i]` holds the free blocks of class `i`, first block
    /// first.
    closed spec fn view(&self) -> Seq<Seq<usize>> {
        self.lists@
    }
}

impl FixedSizeBlock {
    /// The links in the arena spell out the free lists, and the free lists are valid
    /// for the heap.
    pub closed spec fn wf(&self) -> bool {
        &&& self.arena.wf()
        &&& self.lists@.len() == CLASSES
        &&& forall|i: int| 0 <= i < CLASSES
            ==> #[trigger] list_linked(&self.arena, self.blocks[i], self.lists@[i])
        &&& lists_valid(self.lists@, self.arena.start(), self.arena.end())
    }

    /// First address of the heap.
    pub closed spec fn heap_start(&self) -> int {
        self.arena.start()
    }

    /// One past the last address of the heap.
    pub closed spec fn heap_end(&self) -> int {
        self.arena.end()
    }

    /// The memory of the heap.
    pub closed spec fn heap(&self) -> Arena {
        self.arena
    }

    /// The free lists are written into the free memory itself: the first word of
    /// every free block holds the address of the block after it in its class, and
    /// `NIL` stands for none.
    pub proof fn lemma_links_in_heap(&self, i: int, j: int)
        requires
            self.wf(),
            block_at(self@, i, j),
        ensures
            node_linked(&self.heap(), self@[i], j),
            self.heap().start() == self.heap_start(),
            self.heap().end() == self.heap_end(),
    {
        assert(list_linked(&self.arena, self.blocks[i], self.lists@[i]));
    }

    /// The memory of the heap reaches from `heap_start` to `heap_end`.
    pub proof fn lemma_heap_extent(&self)
        ensures
            self.heap().start() == self.heap_start(),
            self.heap().end() == self.heap_end(),
    {
    }

    /// What `wf` says of the free lists alone.
    pub proof fn lemma_wf_lists(&self)
        requires
            self.wf(),
        ensures
            self@.len() == CLASSES,
            lists_valid(self@, self.heap_start(), self.heap_end()),
            self.heap_end() <= usize::MAX,
    {
        self.arena.lemma_bounds();
    }

    /// An allocator with no heap and empty free lists.
    pub fn new() -> (r: Self)
        ensures
            r.wf(),
            r@ == Seq::new(CLASSES as nat, |i: int| Seq::<usize>::empty()),
            r.heap_start() == 0,
            r.heap_end() == 0,
    {
        FixedSizeBlock {
            blocks: [NIL; 9],
            arena: Arena::empty(),
            lists: Ghost(Seq::new(CLASSES as nat, |i: int| Seq::<usize>::empty())),
        }
    }

    /// Lays the allocator over the heap `[heap_start, heap_start + heap_size)`, the
    /// whole words of it, with empty free lists. Whatever the allocator held before
    /// is forgotten.
    pub fn init(&mut self, heap_start: usize, heap_size: usize)
        requires
            heap_start % 8 == 0,
            heap_start + heap_size <= usize::MAX,
        ensures
            final(self).wf(),
            final(self)@ == Seq::new(CLASSES as nat, |i: int| Seq::<usize>::empty()),
            final(self).heap_start() == heap_start,
            final(self).heap_end() == heap_start + heap_size / 8 * 8,
    {
        self.arena = Arena::new(heap_start, heap_size);
        self.blocks = [NIL; 9];
        self.lists = Ghost(Seq::new(CLASSES as nat, |i: int| Seq::<usize>::empty()));
    }

    /// Whether the block that serves `layout` at `ptr` is a block of this heap for
    /// the free lists: a class serves the layout, and the block starts on a word
    /// boundary and lies in the heap.
    pub fn holds_block(&self, ptr: usize, layout: &Layout) -> (ok: bool)
        requires
            self.wf(),
        ensures
            ok == (class_index(layout.size() as nat, layout.align() as nat) matches Some(i)
                && block_valid(ptr as int, i, self.heap_start(), self.heap_end())),
    {
        match self.find_block_index(layout) {
            Some(index) => {
                let size = block_size(index);
                proof {
                    self.arena.lemma_bounds();
                }
                let start = self.arena.start_addr();
                let end = self.arena.end_addr();
                ptr % 8 == 0 && start <= ptr && ptr <= end && size <= end - ptr
            },
            None => false,
        }
    }

    /// The class that serves `layout`, if any does.
    pub fn find_block_index(&self, layout: &Layout) -> (r: Option<usize>)
        ensures
            r.is_some() <==> class_index(layout.size() as nat, layout.align() as nat).is_some(),
            r matches Some(i) ==> i < CLASSES && Some(i as int) == class_index(
                layout.size() as nat,
                layout.align() as nat,
            ),
    {
        let required_size = if layout.size() < layout.align() {
            layout.align()
        } else {
            layout.size()
        };
        let mut index: usize = 0;
        while index < CLASSES
            invariant
                index <= CLASSES,
                required_size == (if layout.size() < layout.align() {
                    layout.align()
                } else {
                    layout.size()
                }),
                index > 0 ==> class_size(index - 1) < required_size,
            decreases CLASSES - index,
        {
            if block_size(index) >= required_size {
                proof {
                    let c = log2_ceil(required_size as nat);
                    lemma2_to64();
                    lemma_log2_ceil(required_size as nat);
                    if index == 0 {
                        if c > 3 {
                            lemma_pow2_order(3, (c - 1) as nat);
                        }
                    } else {
                        lemma_log2_ceil_unique(required_size as nat, (index + 3) as nat);
                    }
                }
                return Some(index);
            }
            index = index + 1;
        }
        proof {
            lemma2_to64();
        }
        None
    }

    /// Serves `layout` from the free list of its class: where the list holds a
    /// block, its first block leaves the list. Where the list is empty, a block of
    /// the class's size, aligned to that size, is to be had from the general
    /// allocator; where no class serves `layout`, the request goes to the general
    /// allocator as it is. Either way the free lists stay as they are.
    pub fn allocate(&mut self, layout: Layout) -> (r: Allocation)
        requires
            old(self).wf(),
        ensures
            final(self).wf(),
            final(self).heap_start() == old(self).heap_start(),
            final(self).heap_end() == old(self).heap_end(),
            match class_index(layout.size() as nat, layout.align() as nat) {
                None => r == Allocation::Fallback(layout) && final(self)@ == old(self)@,
                Some(i) => if old(self)@[i].len() > 0 {
                    &&& r == Allocation::Block(old(self)@[i][0])
                    &&& final(self)@ == old(self)@.update(i, old(self)@[i].remove(0))
                    &&& block_valid(
                        old(self)@[i][0] as int,
                        i,
                        final(self).heap_start(),
                        final(self).heap_end(),
                    )
                    &&& no_block_meets(
                        final(self)@,
                        old(self)@[i][0] as int,
                        old(self)@[i][0] + class_size(i),
                    )
                } else {
                    &&& r matches Allocation::Fallback(l)
                    &&& l.size() == class_size(i)
                    &&& l.align() == class_size(i)
                    &&& final(self)@ == old(self)@
                },
            },
            final(self).heap() == old(self).heap(),
    {
        match self.find_block_index(&layout) {
            Some(index) => {
                let ghost lists = self.lists@;
                let ghost s = lists[index as int];
                assert(list_linked(&self.arena, self.blocks[index as int], s));
                let head = self.blocks[index];
                if head != NIL {
                    proof {
                        assert(node_linked(&self.arena, s, 0));
                    }
                    let next = self.arena.read(head);
                    self.blocks[index] = next;
                    proof {
                        let s2 = s.remove(0);
                        let lists2 = lists.update(index as int, s2);
                        self.lists@ = lists2;
                        assert forall|i: int| 0 <= i < CLASSES implies #[trigger] list_linked(
                            &self.arena,
                            self.blocks[i],
                            lists2[i],
                        ) by {
                            assert(list_linked(&self.arena, old(self).blocks[i], lists[i]));
                            if i == index {
                                let arena = &self.arena;
                                assert forall|j: int| 0 <= j < s2.len() implies
                                    #[trigger] node_linked(arena, s2, j) by {
                                    assert(node_linked(arena, s, j + 1));
                                }
                            }
                        }
                        lemma_remove_valid(
                            lists,
                            index as int,
                            0,
                            self.arena.start(),
                            self.arena.end(),
                        );
                    }
                    Allocation::Block(head)
                } else {
                    let size = block_size(index);
                    proof {
                        if s.len() > 0 {
                            assert(block_at(lists, index as int, 0));
                        }
                        lemma2_to64();
                        assert(is_power_of_two(size as int));
                        assert(layout_valid(size as int, size as int));
                    }
                    let class_layout = Layout::from_size_align(size, size);
                    Allocation::Fallback(class_layout.unwrap())
                }
            },
            None => Allocation::Fallback(layout),
        }
    }

    /// Takes back the block at `ptr`, allocated with `layout`: where a class serves
    /// `layout`, the block goes to the front of that class's free list; where none
    /// does, the block is to be given back to the general allocator.
    ///
    /// A block that goes to a free list must be one that was handed out for the same
    /// layout and has not been given back since: it lies in the heap, starts on a
    /// word boundary and shares no byte with a block of the free lists.
    pub fn deallocate(&mut self, ptr: usize, layout: Layout) -> (r: Disposal)
        requires
            old(self).wf(),
            class_index(layout.size() as nat, layout.align() as nat) matches Some(i) ==> {
                &&& block_valid(ptr as int, i, old(self).heap_start(), old(self).heap_end())
                &&& no_block_meets(old(self)@, ptr as int, ptr + class_size(i))
            },
        ensures
            final(self).wf(),
            final(self).heap_start() == old(self).heap_start(),
            final(self).heap_end() == old(self).heap_end(),
            match class_index(layout.size() as nat, layout.align() as nat) {
                None => r == Disposal::Fallback(layout) && final(self)@ == old(self)@,
                Some(i) => r == Disposal::Kept && final(self)@ == old(self)@.update(
                    i,
                    seq![ptr] + old(self)@[i],
                ),
            },
            class_index(layout.size() as nat, layout.align() as nat).is_none()
                ==> final(self).heap() == old(self).heap(),
            forall|x: int|
                old(self).heap().holds(x) && x != ptr
                    ==> #[trigger] final(self).heap().word(x) == old(self).heap().word(x),
    {
        match self.find_block_index(&layout) {
            Some(index) => {
                let ghost lists = self.lists@;
                let ghost s = lists[index as int];
                let ghost before = self.arena;
                proof {
                    lemma_pow2_pos((index + 3) as nat);
                    self.arena.lemma_bounds();
                }
                let head = self.blocks[index];
                self.arena.write(ptr, head);
                self.blocks[index] = ptr;
                proof {
                    let s2 = seq![ptr] + s;
                    let lists2 = lists.update(index as int, s2);
                    self.lists@ = lists2;
                    assert forall|i: int| 0 <= i < CLASSES implies #[trigger] list_linked(
                        &self.arena,
                        self.blocks[i],
                        lists2[i],
                    ) by {
                        assert(list_linked(&before, old(self).blocks[i], lists[i]));
                        let t = lists[i];
                        let t2 = lists2[i];
                        assert forall|j: int| 0 <= j < t2.len()
                            implies #[trigger] node_linked(&self.arena, t2, j) by {
                            if i == index {
                                if j > 0 {
                                    assert(node_linked(&before, t, j - 1));
                                    assert(block_at(lists, i, j - 1));
                                    lemma_pow2_pos((i + 3) as nat);
                                }
                            } else {
                                assert(node_linked(&before, t, j));
                                assert(block_at(lists, i, j));
                                lemma_pow2_pos((i + 3) as nat);
                            }
                        }
                    }
                    lemma_push_valid(
                        lists,
                        index as int,
                        ptr,
                        self.arena.start(),
                        self.arena.end(),
                    );
                }
                Disposal::Kept
            },
            None => Disposal::Fallback(layout),
        }
    }

    /// The addresses of the free blocks of class `i`, first block first; nothing for
    /// a class the allocator does not have.
    pub fn free_blocks(&self, i: usize) -> (r: Vec<usize>)
        requires
            self.wf(),
        ensures
            i < CLASSES ==> r@ == self@[i as int],
            i >= CLASSES ==> r@.len() == 0,
    {
        let mut r: Vec<usize> = Vec::new();
        if i >= CLASSES {
            return r;
        }
        let ghost s = self.lists@[i as int];
        assert(list_linked(&self.arena, self.blocks[i as int], s));
        let mut cur = self.blocks[i];
        while cur != NIL
            invariant
                self.wf(),
                i < CLASSES,
                s == self.lists@[i as int],
                list_linked(&self.arena, self.blocks[i as int], s),
                r@.len() <= s.len(),
                cur == (if r@.len() < s.len() { s[r@.len() as int] } else { NIL }),
                r@ == s.take(r@.len() as int),
            decreases s.len() - r@.len(),
        {
            proof {
                assert(node_linked(&self.arena, s, r@.len() as int));
            }
            r.push(cur);
            cur = self.arena.read(cur);
            assert(r@ =~= s.take(r@.len() as int));
        }
        proof {
            if r@.len() < s.len() {
                assert(block_at(self.lists@, i as int, r@.len() as int));
            }
            assert(s.take(s.len() as int) =~= s);
        }
        r
    }
}

/// Taking a block out keeps the lists valid; the block is valid and meets none of
/// the blocks that stay.
pub proof fn lemma_remove_valid(lists: Seq<Seq<usize>>, i: int, j: int, lo: int, hi: int)
    requires
        lists_valid(lists, lo, hi),
        block_at(lists, i, j),
    ensures
        lists_valid(lists.update(i, lists[i].remove(j)), lo, hi),
        block_valid(lists[i][j] as int, i, lo, hi),
        no_block_meets(lists.update(i, lists[i].remove(j)), lists[i][j] as int,
            lists[i][j] + class_size(i)),
{
    let l2 = lists.update(i, lists[i].remove(j));
    let a = lists[i][j];
    assert forall|i1: int, j1: int| block_at(l2, i1, j1) implies block_valid(
        #[trigger] l2[i1][j1] as int,
        i1,
        lo,
        hi,
    ) && (l2[i1][j1] + class_size(i1) <= a || a + class_size(i) <= l2[i1][j1]) by {
        let n1 = if i1 == i && j1 >= j { j1 + 1 } else { j1 };
        assert(block_at(lists, i1, n1));
        assert(l2[i1][j1] == lists[i1][n1]);
        assert(apart(lists[i1][n1] as int, i1, lists[i][j] as int, i));
    }
    assert forall|i1: int, j1: int, i2: int, j2: int|
        #![trigger l2[i1][j1], l2[i2][j2]]
        block_at(l2, i1, j1) && block_at(l2, i2, j2) && (i1 != i2 || j1 != j2) implies apart(
        l2[i1][j1] as int,
        i1,
        l2[i2][j2] as int,
        i2,
    ) by {
        let n1 = if i1 == i && j1 >= j { j1 + 1 } else { j1 };
        let n2 = if i2 == i && j2 >= j { j2 + 1 } else { j2 };
        assert(block_at(lists, i1, n1));
        assert(l2[i1][j1] == lists[i1][n1]);
        assert(block_at(lists, i2, n2));
        assert(l2[i2][j2] == lists[i2][n2]);
    }
}

/// Pushing a valid block that meets no free block keeps the lists valid.
pub proof fn lemma_push_valid(lists: Seq<Seq<usize>>, i: int, a: usize, lo: int, hi: int)
    requires
        lists_valid(lists, lo, hi),
        0 <= i < lists.len(),
        block_valid(a as int, i, lo, hi),
        no_block_meets(lists, a as int, a + class_size(i)),
    ensures
        lists_valid(lists.update(i, seq![a] + lists[i]), lo, hi),
{
    let l2 = lists.update(i, seq![a] + lists[i]);
    assert forall|i1: int, j1: int| block_at(l2, i1, j1) implies block_valid(
        #[trigger] l2[i1][j1] as int,
        i1,
        lo,
        hi,
    ) by {
        if i1 == i && j1 > 0 {
            assert(block_at(lists, i1, j1 - 1));
            assert(l2[i1][j1] == lists[i1][j1 - 1]);
        } else if i1 != i {
            assert(block_at(lists, i1, j1));
        }
    }
    assert forall|i1: int, j1: int, i2: int, j2: int|
        #![trigger l2[i1][j1], l2[i2][j2]]
        block_at(l2, i1, j1) && block_at(l2, i2, j2) && (i1 != i2 || j1 != j2) implies apart(
        l2[i1][j1] as int,
        i1,
        l2[i2][j2] as int,
        i2,
    ) by {
        let n1 = if i1 == i { j1 - 1 } else { j1 };
        let n2 = if i2 == i { j2 - 1 } else { j2 };
        if n1 >= 0 {
            assert(block_at(lists, i1, n1));
            assert(l2[i1][j1] == lists[i1][n1]);
        }
        if n2 >= 0 {
            assert(block_at(lists, i2, n2));
            assert(l2[i2][j2] == lists[i2][n2]);
        }
    }
}

} // verus!
