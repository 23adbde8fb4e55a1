//! The first-fit free list as mathematics: regions in address order, and what
//! allocating and giving back do to them.

use crate::allocator::power::{
    is_power_of_two, lemma_eight_is_power, lemma_power_multiple_of_eight, lemma_round_up, round_up,
};
use vstd::prelude::*;

verus! {

/// A run of free bytes.
#[derive(Debug, Clone, Copy, PartialEq, Eq, Structural)]
pub struct Region {
    pub start: usize,
    pub size: usize,
}

/// A region can stand in the list of a heap `[lo, hi)`: it starts on a word
/// boundary, has room for its own header and lies in the heap.
pub open spec fn region_valid(r: Region, lo: int, hi: int) -> bool {
    &&& r.start % 8 == 0
    &&& r.size >= 16
    &&& lo <= r.start
    &&& r.start + r.size <= hi
}

/// The region at position `i` ends below the start of the region at position `j`.
pub open spec fn gap_between(rs: Seq<Region>, i: int, j: int) -> bool {
    rs[i].start + rs[i].size < rs[j].start
}

/// The regions are valid and stand in address order with a gap between any two:
/// regions that touch have been merged.
pub open spec fn regions_valid(rs: Seq<Region>, lo: int, hi: int) -> bool {
    &&& forall|i: int| 0 <= i < rs.len() ==> region_valid(#[trigger] rs[i], lo, hi)
    &&& forall|i: int, j: int| 0 <= i < j < rs.len() ==> #[trigger] gap_between(rs, i, j)
}

/// No region of `rs` has a byte in `[lo, hi)`.
pub open spec fn no_region_meets(rs: Seq<Region>, lo: int, hi: int) -> bool {
    forall|i: int| 0 <= i < rs.len()
        ==> (#[trigger] rs[i]).start + rs[i].size <= lo || hi <= rs[i].start
}

/// Number of regions that start below `addr`, counted from position `i`: where a
/// region at `addr` belongs in the list.
pub open spec fn insert_pos(rs: Seq<Region>, addr: int, i: int) -> int
    decreases rs.len() - i,
{
    if 0 <= i < rs.len() && rs[i].start < addr {
        insert_pos(rs, addr, i + 1)
    } else {
        i
    }
}

/// The region before position `p` ends exactly at `addr`.
pub open spec fn touches_prev(rs: Seq<Region>, addr: int, p: int) -> bool {
    0 < p <= rs.len() && rs[p - 1].start + rs[p - 1].size == addr
}

/// The region at position `p` starts exactly at `end`.
pub open spec fn touches_next(rs: Seq<Region>, end: int, p: int) -> bool {
    0 <= p < rs.len() && end == rs[p].start
}

/// The region that `[addr, addr + size)` becomes at position `p`, grown by the
/// neighbours it touches.
pub open spec fn merged_region(rs: Seq<Region>, addr: int, size: int, p: int) -> Region {
    let start = if touches_prev(rs, addr, p) { rs[p - 1].start as int } else { addr };
    let end = if touches_next(rs, addr + size, p) { rs[p].start + rs[p].size } else { addr + size };
    Region { start: start as usize, size: (end - start) as usize }
}

/// The regions after `[addr, addr + size)` has joined them at position `p`, the
/// neighbours it touches merged into it.
pub open spec fn insert_region_at(rs: Seq<Region>, addr: int, size: int, p: int) -> Seq<Region> {
    let first = if touches_prev(rs, addr, p) { p - 1 } else { p };
    let rest = if touches_next(rs, addr + size, p) { p + 1 } else { p };
    rs.subrange(0, first) + seq![merged_region(rs, addr, size, p)] + rs.subrange(rest,
        rs.len() as int)
}

/// The regions after `[addr, addr + size)` has joined them: it is merged with the
/// region before it where that one ends at `addr`, and with the region after it
/// where that one starts at `addr + size`.
pub open spec fn insert_region(rs: Seq<Region>, addr: int, size: int) -> Seq<Region> {
    insert_region_at(rs, addr, size, insert_pos(rs, addr, 0))
}

/// Where an allocation of `size` bytes aligned to `align` would start in `r`.
pub open spec fn alloc_start(r: Region, align: int) -> int {
    round_up(r.start as int, align)
}

/// An allocation of `size` bytes aligned to `align` fits `r`: it ends within the
/// region, and what is left behind it is either nothing or enough for a region of
/// its own.
pub open spec fn region_fits(r: Region, size: int, align: int) -> bool {
    let end = alloc_start(r, align) + size;
    let excess = r.start + r.size - end;
    end <= usize::MAX && (excess == 0 || excess >= 16)
}

/// Position of the first region at or after `i` that fits the allocation; the
/// number of regions if none does.
pub open spec fn first_fit(rs: Seq<Region>, size: int, align: int, i: int) -> int
    decreases rs.len() - i,
{
    if 0 <= i < rs.len() && !region_fits(rs[i], size, align) {
        first_fit(rs, size, align, i + 1)
    } else {
        i
    }
}

/// Size and alignment by which a request for `size` bytes aligned to `align` is
/// served: the alignment is at least that of a region, the size a multiple of the
/// alignment and at least that of a region.
pub open spec fn served_align(align: int) -> int {
    if align < 8 {
        8
    } else {
        align
    }
}

/// See `served_align`.
pub open spec fn served_size(size: int, align: int) -> int {
    let padded = round_up(size, served_align(align));
    if padded < 16 {
        16
    } else {
        padded
    }
}

/// The regions after an allocation of `size` bytes aligned to `align`: the first
/// region that fits leaves the list whole, and what it holds behind the allocation
/// comes back as a region of its own.
pub open spec fn alloc_regions(rs: Seq<Region>, size: int, align: int) -> Seq<Region> {
    let j = first_fit(rs, size, align, 0);
    if j < rs.len() {
        let end = alloc_start(rs[j], align) + size;
        let excess = rs[j].start + rs[j].size - end;
        if excess > 0 {
            insert_region(rs.remove(j), end, excess)
        } else {
            rs.remove(j)
        }
    } else {
        rs
    }
}

/// The address an allocation of `size` bytes aligned to `align` returns: the
/// aligned start in the first region that fits.
pub open spec fn alloc_addr(rs: Seq<Region>, size: int, align: int) -> Option<usize> {
    let j = first_fit(rs, size, align, 0);
    if j < rs.len() {
        Some(alloc_start(rs[j], align) as usize)
    } else {
        None
    }
}

/// `[addr, addr + size)` is a valid region for the heap `[lo, hi)` that meets none
/// of `rs`, and `p` is its place among them in address order.
pub open spec fn insertable(
    rs: Seq<Region>,
    addr: int,
    size: int,
    p: int,
    lo: int,
    hi: int,
) -> bool {
    &&& regions_valid(rs, lo, hi)
    &&& addr >= 0
    &&& addr % 8 == 0
    &&& size >= 16
    &&& lo <= addr
    &&& addr + size <= hi
    &&& hi <= usize::MAX
    &&& no_region_meets(rs, addr, addr + size)
    &&& 0 <= p <= rs.len()
    &&& forall|i: int| 0 <= i < p ==> (#[trigger] rs[i]).start < addr
    &&& forall|i: int| p <= i < rs.len() ==> (#[trigger] rs[i]).start > addr
}

/// The merged region is valid, and the regions after the insertion are the ones
/// before it, the merged neighbours replaced.
#[verifier::rlimit(30)]
pub proof fn lemma_inserted_shape(rs: Seq<Region>, addr: int, size: int, p: int, lo: int, hi: int)
    requires
        insertable(rs, addr, size, p, lo, hi),
    ensures
        ({
            let m = merged_region(rs, addr, size, p);
            let first = if touches_prev(rs, addr, p) { p - 1 } else { p };
            let rest = if touches_next(rs, addr + size, p) { p + 1 } else { p };
            let now = insert_region_at(rs, addr, size, p);
            &&& region_valid(m, lo, hi)
            &&& m.start <= addr
            &&& addr + size <= m.start + m.size
            &&& now.len() == first + 1 + rs.len() - rest
            &&& now[first] == m
            &&& forall|j: int| 0 <= j < first ==> #[trigger] now[j] == rs[j]
            &&& forall|j: int| first < j < now.len()
                ==> #[trigger] now[j] == rs[j - first - 1 + rest]
            &&& first > 0 ==> rs[first - 1].start + rs[first - 1].size < m.start
            &&& rest < rs.len() ==> m.start + m.size < rs[rest].start
        }),
{
    let m = merged_region(rs, addr, size, p);
    if p > 0 {
        assert(region_valid(rs[p - 1], lo, hi));
        assert(rs[p - 1].start < addr);
        if p > 1 {
            assert(gap_between(rs, p - 2, p - 1));
        }
    }
    if p < rs.len() {
        assert(region_valid(rs[p], lo, hi));
        assert(rs[p].start > addr);
        if p + 1 < rs.len() {
            assert(gap_between(rs, p, p + 1));
        }
    }
}

/// The regions after an insertion are valid.
pub proof fn lemma_inserted_valid(rs: Seq<Region>, addr: int, size: int, p: int, lo: int, hi: int)
    requires
        insertable(rs, addr, size, p, lo, hi),
    ensures
        regions_valid(insert_region_at(rs, addr, size, p), lo, hi),
{
    let now = insert_region_at(rs, addr, size, p);
    let first = if touches_prev(rs, addr, p) { p - 1 } else { p };
    let rest = if touches_next(rs, addr + size, p) { p + 1 } else { p };
    lemma_inserted_shape(rs, addr, size, p, lo, hi);
    assert forall|i: int| 0 <= i < now.len() implies region_valid(#[trigger] now[i], lo, hi) by {
        if i < first {
            assert(now[i] == rs[i]);
        } else if i > first {
            assert(now[i] == rs[i - first - 1 + rest]);
        }
    }
    assert forall|i: int, j: int| 0 <= i < j < now.len()
        implies #[trigger] gap_between(now, i, j) by {
        let i0 = if i < first { i } else { i - first - 1 + rest };
        let j0 = if j < first { j } else { j - first - 1 + rest };
        if i != first {
            assert(now[i] == rs[i0]);
        }
        if j != first {
            assert(now[j] == rs[j0]);
        }
        if i != first && j != first {
            assert(gap_between(rs, i0, j0));
        } else if i == first {
            if j0 > rest {
                assert(gap_between(rs, rest, j0));
            }
            assert(region_valid(rs[rest], lo, hi));
        } else {
            if i0 < first - 1 {
                assert(gap_between(rs, i0, first - 1));
            }
            assert(region_valid(rs[first - 1], lo, hi));
        }
    }
}

/// Once the region at position `j` has left the list, no region meets the bytes it
/// held.
pub proof fn lemma_removed_clear(rs: Seq<Region>, j: int, lo: int, hi: int)
    requires
        regions_valid(rs, lo, hi),
        0 <= j < rs.len(),
    ensures
        no_region_meets(rs.remove(j), rs[j].start as int, rs[j].start + rs[j].size),
{
    let now = rs.remove(j);
    assert forall|i: int| 0 <= i < now.len()
        implies (#[trigger] now[i]).start + now[i].size <= rs[j].start
        || rs[j].start + rs[j].size <= now[i].start by {
        let i0 = if i < j { i } else { i + 1 };
        assert(now[i] == rs[i0]);
        if i0 < j {
            assert(gap_between(rs, i0, j));
        } else {
            assert(gap_between(rs, j, i0));
        }
    }
}

/// A block served at an aligned start ends on a word boundary: the served size is
/// a multiple of the served alignment, and that of eight.
pub proof fn lemma_served_multiple(size: int, align: int, start: int)
    requires
        is_power_of_two(align),
        size >= 0,
        start % served_align(align) == 0,
    ensures
        start % 8 == 0,
        served_size(size, align) % 8 == 0,
        served_size(size, align) >= 16,
        served_size(size, align) >= size,
{
    let a = served_align(align);
    lemma_eight_is_power();
    lemma_power_multiple_of_eight(a, start);
    lemma_round_up(size, a, 0);
    lemma_power_multiple_of_eight(a, round_up(size, a));
}

/// The first fit at or after `i` is a position from `i` on; the regions before it
/// do not fit, and it fits unless it is the end of the list.
pub proof fn lemma_first_fit(rs: Seq<Region>, size: int, align: int, i: int)
    requires
        0 <= i <= rs.len(),
    ensures
        i <= first_fit(rs, size, align, i) <= rs.len(),
        forall|m: int| i <= m < first_fit(rs, size, align, i)
            ==> !region_fits(#[trigger] rs[m], size, align),
        first_fit(rs, size, align, i) < rs.len()
            ==> region_fits(rs[first_fit(rs, size, align, i)], size, align),
    decreases rs.len() - i,
{
    if i < rs.len() && !region_fits(rs[i], size, align) {
        lemma_first_fit(rs, size, align, i + 1);
    }
}

/// Regions that are valid for a heap are valid for a heap that holds it; regions
/// that are valid for an empty heap are none, and valid for any.
pub proof fn lemma_regions_widen(rs: Seq<Region>, lo: int, hi: int, lo2: int, hi2: int)
    requires
        regions_valid(rs, lo, hi),
        lo >= hi || (lo2 <= lo && hi <= hi2),
    ensures
        regions_valid(rs, lo2, hi2),
{
    assert forall|i: int| 0 <= i < rs.len() implies region_valid(#[trigger] rs[i], lo2, hi2) by {
        assert(region_valid(rs[i], lo, hi));
    }
}

/// The word at `x` is one of the two header words of a free region: the first two
/// words of the region.
pub open spec fn header_word(rs: Seq<Region>, x: int) -> bool {
    exists|j: int| 0 <= j < rs.len() && ((#[trigger] rs[j]).start == x || rs[j].start + 8 == x)
}

/// With a region taken out, the header words are among those before.
pub proof fn lemma_header_word_remove(rs: Seq<Region>, j: int, x: int)
    requires
        0 <= j < rs.len(),
        header_word(rs.remove(j), x),
    ensures
        header_word(rs, x),
{
    let now = rs.remove(j);
    let i = choose|i: int|
        0 <= i < now.len() && ((#[trigger] now[i]).start == x || now[i].start + 8 == x);
    let i0 = if i < j { i } else { i + 1 };
    assert(now[i] == rs[i0]);
}

} // verus!
