//! How the free regions are written into the heap: each region's header in its own
//! first two words, the size and the start of the next region.

use crate::allocator::arena::{Arena, NIL};
use crate::allocator::linked_list::model::{
    gap_between, insert_region_at, insertable, lemma_inserted_shape, lemma_inserted_valid,
    merged_region, region_valid, regions_valid, touches_next, touches_prev, Region,
};
use vstd::prelude::*;

verus! {

/// Start of the region at position `j`, or `NIL` past the end.
pub open spec fn start_at(rs: Seq<Region>, j: int) -> usize {
    if 0 <= j < rs.len() {
        rs[j].start
    } else {
        NIL
    }
}

/// The region at position `j` carries the header that `rs` prescribes: its size in
/// the first word, the start of the next region in the second.
pub open spec fn region_linked(arena: &Arena, rs: Seq<Region>, j: int) -> bool {
    let r = rs[j];
    &&& arena.holds(r.start as int)
    &&& arena.holds(r.start + 8)
    &&& arena.word(r.start as int) == r.size
    &&& arena.word(r.start + 8) == start_at(rs, j + 1)
}

/// What `lemma_inserted` asks: the region can be inserted at `p`, and `after`
/// differs from `before` in the header of the merged region and in the link that
/// leads to it.
pub open spec fn inserted(
    before: &Arena,
    after: &Arena,
    rs: Seq<Region>,
    addr: int,
    size: int,
    p: int,
    lo: int,
    hi: int,
) -> bool {
    let m = merged_region(rs, addr, size, p);
    let first = if touches_prev(rs, addr, p) { p - 1 } else { p };
    let rest = if touches_next(rs, addr + size, p) { p + 1 } else { p };
    &&& insertable(rs, addr, size, p, lo, hi)
    &&& forall|j: int| 0 <= j < rs.len() ==> #[trigger] region_linked(before, rs, j)
    &&& after.same_extent(before)
    &&& before.end() == hi / 8 * 8
    &&& before.start() <= lo
    &&& after.word(m.start as int) == m.size
    &&& after.word(m.start + 8) == start_at(rs, rest)
    &&& first > 0 ==> after.word(rs[first - 1].start + 8) == m.start
    &&& forall|a: int|
        before.holds(a) && a != m.start && a != m.start + 8 && (first == 0
            || a != rs[first - 1].start + 8)
            ==> #[trigger] after.word(a) == before.word(a)
}

/// One region after an insertion carries the header the new list prescribes.
#[verifier::rlimit(50)]
proof fn lemma_inserted_at(
    before: &Arena,
    after: &Arena,
    rs: Seq<Region>,
    addr: int,
    size: int,
    p: int,
    lo: int,
    hi: int,
    j: int,
)
    requires
        inserted(before, after, rs, addr, size, p, lo, hi),
        0 <= j < insert_region_at(rs, addr, size, p).len(),
    ensures
        region_linked(after, insert_region_at(rs, addr, size, p), j),
{
    let now = insert_region_at(rs, addr, size, p);
    let m = merged_region(rs, addr, size, p);
    let first = if touches_prev(rs, addr, p) { p - 1 } else { p };
    let rest = if touches_next(rs, addr + size, p) { p + 1 } else { p };
    lemma_inserted_shape(rs, addr, size, p, lo, hi);
    if j + 1 < now.len() && j + 1 > first {
        assert(now[j + 1] == rs[j + 1 - first - 1 + rest]);
    }
    if j == first {
        assert(start_at(now, j + 1) == start_at(rs, rest));
    } else {
        let j0 = if j < first { j } else { j - first - 1 + rest };
        assert(now[j] == rs[j0]);
        assert(region_linked(before, rs, j0));
        assert(region_valid(rs[j0], lo, hi));
        if first > 0 {
            assert(region_valid(rs[first - 1], lo, hi));
            if j0 < first - 1 {
                assert(gap_between(rs, j0, first - 1));
            } else if j0 > first - 1 {
                assert(gap_between(rs, first - 1, j0));
            }
        }
        if j0 < first {
            if j0 + 1 < first {
                assert(now[j + 1] == rs[j0 + 1]);
            }
            assert(rs[j0].start + rs[j0].size <= m.start) by {
                if j0 < first - 1 {
                    assert(gap_between(rs, j0, first - 1));
                }
            }
        } else {
            assert(m.start + m.size <= rs[j0].start) by {
                if j0 > rest {
                    assert(gap_between(rs, rest, j0));
                }
            }
        }
    }
}

/// After an insertion the headers in the arena spell out the new regions, and the
/// new regions are valid.
pub proof fn lemma_inserted(
    before: &Arena,
    after: &Arena,
    rs: Seq<Region>,
    addr: int,
    size: int,
    p: int,
    lo: int,
    hi: int,
)
    requires
        inserted(before, after, rs, addr, size, p, lo, hi),
    ensures
        regions_valid(insert_region_at(rs, addr, size, p), lo, hi),
        forall|j: int|
            0 <= j < insert_region_at(rs, addr, size, p).len() ==> #[trigger] region_linked(
                after,
                insert_region_at(rs, addr, size, p),
                j,
            ),
        start_at(insert_region_at(rs, addr, size, p), 0) == (if p == 0 || (p == 1
            && touches_prev(rs, addr, p)) {
            merged_region(rs, addr, size, p).start
        } else {
            rs[0].start
        }),
{
    let now = insert_region_at(rs, addr, size, p);
    lemma_inserted_valid(rs, addr, size, p, lo, hi);
    lemma_inserted_shape(rs, addr, size, p, lo, hi);
    assert forall|j: int| 0 <= j < now.len() implies #[trigger] region_linked(after, now, j) by {
        lemma_inserted_at(before, after, rs, addr, size, p, lo, hi, j);
    }
}

/// After the region at position `j` has been unlinked the headers in the arena
/// spell out the regions that remain, and those are valid.
pub proof fn lemma_removed(before: &Arena, after: &Arena, rs: Seq<Region>, j: int, lo: int, hi: int)
    requires
        regions_valid(rs, lo, hi),
        forall|i: int| 0 <= i < rs.len() ==> #[trigger] region_linked(before, rs, i),
        0 <= j < rs.len(),
        after.same_extent(before),
        j > 0 ==> after.word(rs[j - 1].start + 8) == start_at(rs, j + 1),
        forall|a: int|
            before.holds(a) && (j == 0 || a != rs[j - 1].start + 8)
                ==> #[trigger] after.word(a) == before.word(a),
    ensures
        regions_valid(rs.remove(j), lo, hi),
        forall|i: int| 0 <= i < rs.remove(j).len()
            ==> #[trigger] region_linked(after, rs.remove(j), i),
        start_at(rs.remove(j), 0) == (if j == 0 { start_at(rs, 1) } else { rs[0].start }),
{
    let now = rs.remove(j);
    assert forall|i: int| 0 <= i < now.len() implies region_valid(#[trigger] now[i], lo, hi) by {
        let i0 = if i < j { i } else { i + 1 };
        assert(now[i] == rs[i0]);
    }
    assert forall|a: int, b: int| 0 <= a < b < now.len()
        implies #[trigger] gap_between(now, a, b) by {
        let a0 = if a < j { a } else { a + 1 };
        let b0 = if b < j { b } else { b + 1 };
        assert(now[a] == rs[a0]);
        assert(now[b] == rs[b0]);
        assert(gap_between(rs, a0, b0));
    }
    assert forall|i: int| 0 <= i < now.len() implies #[trigger] region_linked(after, now, i) by {
        let i0 = if i < j { i } else { i + 1 };
        assert(now[i] == rs[i0]);
        assert(region_linked(before, rs, i0));
        assert(region_valid(rs[i0], lo, hi));
        if i + 1 < now.len() {
            assert(now[i + 1] == rs[if i + 1 < j { i + 1 } else { i + 2 }]);
        }
        if j > 0 {
            assert(region_valid(rs[j - 1], lo, hi));
            if i0 < j - 1 {
                assert(gap_between(rs, i0, j - 1));
            } else if i0 > j - 1 {
                assert(gap_between(rs, j - 1, i0));
            }
        }
    }
}

} // verus!
