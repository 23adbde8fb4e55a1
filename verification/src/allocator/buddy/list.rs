//! Doubly-linked lists of free blocks, their links kept in the blocks themselves.

use crate::allocator::arena::{Arena, NIL};
use vstd::prelude::*;

verus! {

/// Successor of position `j` in `s`, or `NIL` at the tail.
pub open spec fn next_of(s: Seq<usize>, j: int) -> usize {
    if j + 1 < s.len() {
        s[j + 1]
    } else {
        NIL
    }
}

/// Predecessor of position `j` in `s`, or `NIL` at the head.
pub open spec fn prev_of(s: Seq<usize>, j: int) -> usize {
    if j > 0 {
        s[j - 1]
    } else {
        NIL
    }
}

/// The block at position `j` of `s` carries the links that `s` prescribes.
pub open spec fn node_linked(arena: &Arena, s: Seq<usize>, j: int) -> bool {
    let a = s[j];
    &&& a != NIL
    &&& a % 16 == 0
    &&& arena.holds(a as int)
    &&& arena.holds(a + 8)
    &&& arena.word(a as int) == next_of(s, j)
    &&& arena.word(a + 8) == prev_of(s, j)
}

/// Every block of `s` holds in `after` the two link words it held in `before`.
pub open spec fn links_kept(before: &Arena, after: &Arena, s: Seq<usize>) -> bool {
    forall|j: int|
        0 <= j < s.len() ==> after.word(#[trigger] s[j] as int) == before.word(s[j] as int)
            && after.word(s[j] + 8) == before.word(s[j] + 8)
}

/// Head of a doubly-linked list of free blocks. The links are stored in the
/// blocks themselves: the first word of a free block is the address of the next
/// block, the second word the address of the previous one; `NIL` ends the chain.
#[derive(Debug, Clone, Copy)]
pub struct LinkedList {
    head: usize,
}

impl LinkedList {
    /// The chain that starts at `head` visits exactly the blocks of `s`, in order.
    pub open spec fn wf(&self, arena: &Arena, s: Seq<usize>) -> bool {
        &&& self.first() == (if s.len() == 0 { NIL } else { s[0] })
        &&& forall|j: int| 0 <= j < s.len() ==> #[trigger] node_linked(arena, s, j)
        &&& s.no_duplicates()
    }

    /// Address of the first block, `NIL` when there is none.
    pub closed spec fn first(&self) -> usize {
        self.head
    }

    /// The empty list.
    pub closed spec fn new_spec() -> Self {
        LinkedList { head: NIL }
    }

    /// An empty list.
    #[verifier::when_used_as_spec(new_spec)]
    pub fn new() -> (list: Self)
        ensures
            list == Self::new_spec(),
            list.first() == NIL,
    {
        LinkedList { head: NIL }
    }

    /// The empty list has no first block.
    pub proof fn lemma_new_is_empty()
        ensures
            Self::new_spec().first() == NIL,
    {
    }

    /// Whether the list holds no block.
    pub fn is_empty(&self) -> (b: bool)
        ensures
            b == (self.first() == NIL),
    {
        self.head == NIL
    }

    /// Address of the first block, `NIL` when there is none.
    pub fn head(&self) -> (a: usize)
        ensures
            a == self.first(),
    {
        self.head
    }

    /// A list whose links are untouched stays the list it was.
    pub proof fn lemma_frame(&self, before: &Arena, after: &Arena, s: Seq<usize>)
        requires
            self.wf(before, s),
            after.same_extent(before),
            links_kept(before, after, s),
        ensures
            self.wf(after, s),
    {
        assert forall|j: int| 0 <= j < s.len() implies #[trigger] node_linked(after, s, j) by {
            assert(node_linked(before, s, j));
        }
    }

    /// A list stays the list it was when the arena grows around it.
    pub proof fn lemma_grown(&self, before: &Arena, after: &Arena, s: Seq<usize>)
        requires
            self.wf(before, s),
            forall|a: int|
                before.holds(a) ==> after.holds(a) && #[trigger] after.word(a) == before.word(a),
        ensures
            self.wf(after, s),
    {
        assert forall|j: int| 0 <= j < s.len() implies #[trigger] node_linked(after, s, j) by {
            assert(node_linked(before, s, j));
            assert(after.word(s[j] as int) == before.word(s[j] as int));
            assert(after.word(s[j] + 8) == before.word(s[j] + 8));
        }
    }

    /// Links `node` in at the front. `NIL` is no node: pushing it leaves the list
    /// and the memory as they are. Any other node is a block of the arena that is
    /// not in the list; only its two link words and the back link of the block that
    /// was first are written.
    pub(crate) fn push(&mut self, arena: &mut Arena, node: usize, Ghost(s): Ghost<Seq<usize>>)
        requires
            old(arena).wf(),
            old(self).wf(old(arena), s),
            node != NIL ==> node % 16 == 0,
            node != NIL ==> old(arena).holds(node as int),
            node != NIL ==> old(arena).holds(node + 8),
            node != NIL ==> !s.contains(node),
        ensures
            final(arena).wf(),
            final(arena).same_extent(old(arena)),
            node == NIL ==> *final(self) == *old(self) && *final(arena) == *old(arena),
            node != NIL ==> final(self).wf(final(arena), seq![node] + s),
            node != NIL ==> final(self).first() == node,
            forall|a: int|
                old(arena).holds(a) && a != node && a != node + 8 && (s.len() == 0 || a != s[0] + 8)
                    ==> #[trigger] final(arena).word(a) == old(arena).word(a),
    {
        if node == NIL {
            return ;
        }
        if self.head != NIL {
            assert(node_linked(arena, s, 0));
            arena.write(self.head + 8, node);
        }
        arena.write(node, self.head);
        arena.write(node + 8, NIL);
        self.head = node;
        proof {
            if s.len() > 0 {
                assert(node_linked(old(arena), s, 0));
            }
            lemma_linked_in(old(arena), arena, s, node);
        }
    }

    /// Unlinks the first block and returns its address; `None` on an empty list.
    pub(crate) fn pop(
        &mut self,
        arena: &mut Arena,
        Ghost(s): Ghost<Seq<usize>>,
    ) -> (r: Option<usize>)
        requires
            old(arena).wf(),
            old(self).wf(old(arena), s),
        ensures
            final(arena).wf(),
            final(arena).same_extent(old(arena)),
            s.len() == 0 ==> r.is_none() && *final(self) == *old(self)
                && final(self).wf(final(arena), s),
            s.len() > 0 ==> r == Some(s[0]) && final(self).wf(final(arena), s.remove(0)),
            forall|a: int|
                old(arena).holds(a) && (s.len() < 2 || a != s[1] + 8)
                    ==> #[trigger] final(arena).word(a) == old(arena).word(a),
    {
        if self.is_empty() {
            assert(s.len() == 0) by {
                if s.len() > 0 {
                    assert(node_linked(arena, s, 0));
                }
            }
            None
        } else {
            let node = self.head;
            assert(node_linked(arena, s, 0));
            let next = arena.read(node);
            if next != NIL {
                assert(node_linked(arena, s, 1));
                arena.write(next + 8, NIL);
            }
            self.head = next;
            proof {
                if s.len() > 1 {
                    assert(node_linked(old(arena), s, 1));
                }
                lemma_unlinked(old(arena), arena, s, 0);
            }
            Some(node)
        }
    }

    /// Unlinks the block at position `j`, wherever in the list it stands.
    pub(crate) fn remove(
        &mut self,
        arena: &mut Arena,
        node: usize,
        Ghost(s): Ghost<Seq<usize>>,
        Ghost(j): Ghost<int>,
    )
        requires
            old(arena).wf(),
            old(self).wf(old(arena), s),
            0 <= j < s.len(),
            s[j] == node,
        ensures
            final(arena).wf(),
            final(arena).same_extent(old(arena)),
            final(self).wf(final(arena), s.remove(j)),
            forall|a: int|
                old(arena).holds(a) && (j == 0 || a != s[j - 1])
                    && (j + 1 >= s.len() || a != s[j + 1] + 8)
                    ==> #[trigger] final(arena).word(a) == old(arena).word(a),
    {
        assert(node_linked(arena, s, j));
        proof {
            if j > 0 {
                assert(node_linked(arena, s, j - 1));
            }
            if j + 1 < s.len() {
                assert(node_linked(arena, s, j + 1));
            }
        }
        let next = arena.read(node);
        let prev = arena.read(node + 8);
        if prev == NIL {
            self.head = next;
        } else {
            arena.write(prev, next);
        }
        if next != NIL {
            arena.write(next + 8, prev);
        }
        proof {
            lemma_unlinked(old(arena), arena, s, j);
        }
    }
}

/// What `lemma_unlinked` asks of the arena after position `j` has left `s`.
pub open spec fn unlinked(before: &Arena, after: &Arena, s: Seq<usize>, j: int) -> bool {
    &&& 0 <= j < s.len()
    &&& forall|i: int| 0 <= i < s.len() ==> #[trigger] node_linked(before, s, i)
    &&& s.no_duplicates()
    &&& after.same_extent(before)
    &&& forall|a: int|
        before.holds(a) && (j == 0 || a != s[j - 1]) && (j + 1 >= s.len() || a != s[j + 1] + 8)
            ==> #[trigger] after.word(a) == before.word(a)
    &&& j > 0 ==> after.word(s[j - 1] as int) == next_of(s, j)
    &&& j + 1 < s.len() ==> after.word(s[j + 1] + 8) == prev_of(s, j)
}

/// One block of `s` after position `j` has left: its links are those of the
/// shorter list.
proof fn lemma_unlinked_at(before: &Arena, after: &Arena, s: Seq<usize>, j: int, i: int)
    requires
        unlinked(before, after, s, j),
        0 <= i < s.len() - 1,
    ensures
        node_linked(after, s.remove(j), i),
{
    let s2 = s.remove(j);
    let i0 = if i < j { i } else { i + 1 };
    assert(s2[i] == s[i0]);
    assert(node_linked(before, s, i0));
    let a = s[i0];
    assert(next_of(s2, i) == (if i0 == j - 1 { next_of(s, j) } else { next_of(s, i0) })) by {
        if i + 1 < s2.len() {
            assert(s2[i + 1] == s[if i + 1 < j { i + 1 } else { i + 2 }]);
        }
    }
    assert(prev_of(s2, i) == (if i0 == j + 1 { prev_of(s, j) } else { prev_of(s, i0) })) by {
        if i > 0 {
            assert(s2[i - 1] == s[if i - 1 < j { i - 1 } else { i }]);
        }
    }
    if j > 0 {
        assert(node_linked(before, s, j - 1));
        assert(s[j - 1] == a <==> j - 1 == i0);
    }
    if j + 1 < s.len() {
        assert(node_linked(before, s, j + 1));
        assert(s[j + 1] == a <==> j + 1 == i0);
    }
    assert(after.word(a as int) == next_of(s2, i));
    assert(after.word(a + 8) == prev_of(s2, i));
}

/// The links of `s` with position `j` taken out: the predecessor's first word names
/// the successor, the successor's second word names the predecessor, and every
/// other word is as before.
pub proof fn lemma_unlinked(before: &Arena, after: &Arena, s: Seq<usize>, j: int)
    requires
        unlinked(before, after, s, j),
    ensures
        forall|i: int| 0 <= i < s.remove(j).len() ==> #[trigger] node_linked(after, s.remove(j), i),
        s.remove(j).no_duplicates(),
        s.remove(j).len() == s.len() - 1,
        s.remove(j).len() > 0 ==> s.remove(j)[0] == (if j == 0 { s[1] } else { s[0] }),
{
    let s2 = s.remove(j);
    assert forall|i: int| 0 <= i < s2.len() implies #[trigger] node_linked(after, s2, i) by {
        lemma_unlinked_at(before, after, s, j, i);
    }
    assert forall|a: int, b: int| 0 <= a < b < s2.len() implies s2[a] != s2[b] by {
        let a0 = if a < j { a } else { a + 1 };
        let b0 = if b < j { b } else { b + 1 };
        assert(s[a0] != s[b0]);
    }
}

/// What `lemma_linked_in` asks of the arena after `node` has joined `s` in front.
pub open spec fn linked_in(before: &Arena, after: &Arena, s: Seq<usize>, node: usize) -> bool {
    &&& forall|i: int| 0 <= i < s.len() ==> #[trigger] node_linked(before, s, i)
    &&& s.no_duplicates()
    &&& !s.contains(node)
    &&& node != NIL
    &&& node % 16 == 0
    &&& before.holds(node as int)
    &&& before.holds(node + 8)
    &&& after.same_extent(before)
    &&& forall|a: int|
        before.holds(a) && a != node && a != node + 8 && (s.len() == 0 || a != s[0] + 8)
            ==> #[trigger] after.word(a) == before.word(a)
    &&& after.word(node as int) == (if s.len() == 0 { NIL } else { s[0] })
    &&& after.word(node + 8) == NIL
    &&& s.len() > 0 ==> after.word(s[0] + 8) == node
}

/// One block of `s` after `node` has joined in front: its links are those of the
/// longer list.
proof fn lemma_linked_in_at(before: &Arena, after: &Arena, s: Seq<usize>, node: usize, j: int)
    requires
        linked_in(before, after, s, node),
        0 <= j < s.len() + 1,
    ensures
        node_linked(after, seq![node] + s, j),
{
    let s2 = seq![node] + s;
    if j > 0 {
        assert(node_linked(before, s, j - 1));
        assert(s[j - 1] == s2[j]);
        assert(s.contains(s[j - 1]));
        assert(node_linked(before, s, 0));
        if j > 1 {
            assert(s[0] != s[j - 1]);
            assert(s2[j - 1] == s[j - 2]);
        }
        if j + 1 < s2.len() {
            assert(s2[j + 1] == s[j]);
        }
        assert(next_of(s2, j) == next_of(s, j - 1));
        assert(prev_of(s2, j) == (if j == 1 { node } else { prev_of(s, j - 1) }));
    } else if s.len() > 0 {
        assert(s2[1] == s[0]);
    }
}

/// The links of `s` with `node` put in front: `node` names the old head, the old
/// head names `node` as its predecessor, and every other word is as before.
pub proof fn lemma_linked_in(before: &Arena, after: &Arena, s: Seq<usize>, node: usize)
    requires
        linked_in(before, after, s, node),
    ensures
        forall|i: int| 0 <= i < s.len() + 1 ==> #[trigger] node_linked(after, seq![node] + s, i),
        (seq![node] + s).no_duplicates(),
{
    let s2 = seq![node] + s;
    assert forall|j: int| 0 <= j < s2.len() implies #[trigger] node_linked(after, s2, j) by {
        lemma_linked_in_at(before, after, s, node, j);
    }
    assert forall|i: int, j: int| 0 <= i < j < s2.len() implies s2[i] != s2[j] by {
        if i == 0 {
            assert(s.contains(s[j - 1]));
        } else {
            assert(s[i - 1] != s[j - 1]);
        }
    }
}

} // verus!
