//! What holds of the first-fit allocator over any run of allocations and
//! deallocations: the blocks it has handed out never overlap, neither one another
//! nor a free region.

use crate::allocator::linked_list::model::{
    alloc_addr, alloc_regions, alloc_start, first_fit, gap_between, header_word, insert_pos,
    insert_region, insert_region_at, insertable, lemma_first_fit, lemma_inserted_shape,
    lemma_inserted_valid,
    lemma_removed_clear, no_region_meets, region_valid, regions_valid, touches_next, touches_prev,
    Region,
};
use crate::allocator::power::{is_power_of_two, lemma_power_multiple_of_eight, lemma_round_up};
use vstd::prelude::*;

verus! {

/// The two regions share no byte.
pub open spec fn regions_apart(a: Region, b: Region) -> bool {
    a.start + a.size <= b.start || b.start + b.size <= a.start
}

/// The free regions and the blocks handed out fit together: the free regions are
/// valid, every live block lies in the heap on a word boundary, no live block
/// shares a byte with a free region, and no two live blocks share a byte.
pub open spec fn heap_consistent(rs: Seq<Region>, live: Seq<Region>, lo: int, hi: int) -> bool {
    &&& hi <= usize::MAX
    &&& regions_valid(rs, lo, hi)
    &&& forall|i: int| 0 <= i < live.len() ==> region_valid(#[trigger] live[i], lo, hi)
    &&& forall|i: int|
        0 <= i < live.len() ==> no_region_meets(rs, (#[trigger] live[i]).start as int,
            live[i].start + live[i].size)
    &&& forall|i: int, j: int| 0 <= i < j < live.len()
        ==> regions_apart(#[trigger] live[i], #[trigger] live[j])
}

/// The place of `addr` among regions it is not part of: every region before it
/// starts below `addr`, every region from it on starts above.
pub proof fn lemma_insert_pos(rs: Seq<Region>, addr: int, size: int, lo: int, hi: int, i: int)
    requires
        regions_valid(rs, lo, hi),
        no_region_meets(rs, addr, addr + size),
        size > 0,
        0 <= i <= rs.len(),
        forall|m: int| 0 <= m < i ==> (#[trigger] rs[m]).start < addr,
    ensures
        i <= insert_pos(rs, addr, i) <= rs.len(),
        forall|m: int| 0 <= m < insert_pos(rs, addr, i) ==> (#[trigger] rs[m]).start < addr,
        forall|m: int| insert_pos(rs, addr, i) <= m < rs.len() ==> (#[trigger] rs[m]).start > addr,
    decreases rs.len() - i,
{
    if i < rs.len() && rs[i].start < addr {
        lemma_insert_pos(rs, addr, size, lo, hi, i + 1);
    } else if i < rs.len() {
        assert(region_valid(rs[i], lo, hi));
        assert forall|m: int| i <= m < rs.len() implies (#[trigger] rs[m]).start > addr by {
            assert(region_valid(rs[m], lo, hi));
            if m > i {
                assert(gap_between(rs, i, m));
            }
        }
    }
}

/// A valid region that meets no free region can be inserted at its place.
pub proof fn lemma_insertable(rs: Seq<Region>, addr: int, size: int, lo: int, hi: int)
    requires
        regions_valid(rs, lo, hi),
        region_valid(Region { start: addr as usize, size: size as usize }, lo, hi),
        0 <= addr <= usize::MAX,
        0 <= size <= usize::MAX,
        hi <= usize::MAX,
        no_region_meets(rs, addr, addr + size),
    ensures
        insertable(rs, addr, size, insert_pos(rs, addr, 0), lo, hi),
        regions_valid(insert_region(rs, addr, size), lo, hi),
{
    lemma_insert_pos(rs, addr, size, lo, hi, 0);
    lemma_inserted_valid(rs, addr, size, insert_pos(rs, addr, 0), lo, hi);
}

/// Insertion frees the region and nothing else: a range that met no free region
/// and does not meet the inserted one meets no free region afterwards.
pub proof fn lemma_insert_keeps_clear(
    rs: Seq<Region>,
    addr: int,
    size: int,
    lo: int,
    hi: int,
    x_lo: int,
    x_hi: int,
)
    requires
        insertable(rs, addr, size, insert_pos(rs, addr, 0), lo, hi),
        x_lo < x_hi,
        no_region_meets(rs, x_lo, x_hi),
        x_hi <= addr || addr + size <= x_lo,
    ensures
        no_region_meets(insert_region(rs, addr, size), x_lo, x_hi),
{
    let p = insert_pos(rs, addr, 0);
    let now = insert_region_at(rs, addr, size, p);
    let first = if touches_prev(rs, addr, p) { p - 1 } else { p };
    let rest = if touches_next(rs, addr + size, p) { p + 1 } else { p };
    lemma_inserted_shape(rs, addr, size, p, lo, hi);
    assert forall|i: int| 0 <= i < now.len() implies (#[trigger] now[i]).start + now[i].size <= x_lo
        || x_hi <= now[i].start by {
        if i < first {
            assert(now[i] == rs[i]);
        } else if i > first {
            assert(now[i] == rs[i - first - 1 + rest]);
        } else {
            if touches_prev(rs, addr, p) {
                assert(rs[p - 1].start + rs[p - 1].size <= x_lo || x_hi <= rs[p - 1].start);
            }
            if touches_next(rs, addr + size, p) {
                assert(rs[p].start + rs[p].size <= x_lo || x_hi <= rs[p].start);
            }
        }
    }
}

/// Taking a region out keeps the others valid, and a range that met no region
/// still meets none.
pub proof fn lemma_remove_region(rs: Seq<Region>, j: int, lo: int, hi: int, x_lo: int, x_hi: int)
    requires
        regions_valid(rs, lo, hi),
        0 <= j < rs.len(),
    ensures
        regions_valid(rs.remove(j), lo, hi),
        no_region_meets(rs, x_lo, x_hi) ==> no_region_meets(rs.remove(j), x_lo, x_hi),
{
    let now = rs.remove(j);
    assert forall|i: int| 0 <= i < now.len() implies region_valid(#[trigger] now[i], lo, hi) by {
        assert(now[i] == rs[if i < j { i } else { i + 1 }]);
    }
    assert forall|a: int, b: int| 0 <= a < b < now.len()
        implies #[trigger] gap_between(now, a, b) by {
        let a0 = if a < j { a } else { a + 1 };
        let b0 = if b < j { b } else { b + 1 };
        assert(now[a] == rs[a0]);
        assert(now[b] == rs[b0]);
        assert(gap_between(rs, a0, b0));
    }
    if no_region_meets(rs, x_lo, x_hi) {
        assert forall|i: int| 0 <= i < now.len() implies (#[trigger] now[i]).start + now[i].size
            <= x_lo || x_hi <= now[i].start by {
            assert(now[i] == rs[if i < j { i } else { i + 1 }]);
        }
    }
}

/// What an allocation needs of the sizes it is served with: the size is a multiple
/// of eight and at least that of a region, the alignment a power of two of at least
/// eight.
pub open spec fn served(size: int, align: int) -> bool {
    size >= 16 && size % 8 == 0 && align >= 8 && is_power_of_two(align)
}

/// The block of an allocation lies in the region it is taken from and starts on a
/// word boundary; the regions that remain are valid, and none of them meets the
/// block.
pub proof fn lemma_alloc_block(rs: Seq<Region>, size: int, align: int, lo: int, hi: int)
    requires
        regions_valid(rs, lo, hi),
        hi <= usize::MAX,
        served(size, align),
        first_fit(rs, size, align, 0) < rs.len(),
    ensures
        ({
            let r = rs[first_fit(rs, size, align, 0)];
            let a = alloc_start(r, align);
            &&& 0 <= first_fit(rs, size, align, 0)
            &&& region_valid(r, lo, hi)
            &&& r.start <= a
            &&& a + size <= r.start + r.size
            &&& a % 8 == 0
            &&& regions_valid(alloc_regions(rs, size, align), lo, hi)
            &&& no_region_meets(alloc_regions(rs, size, align), a, a + size)
        }),
{
    lemma_first_fit(rs, size, align, 0);
    let j = first_fit(rs, size, align, 0);
    let r = rs[j];
    let a = alloc_start(r, align);
    let end = a + size;
    let excess = r.start + r.size - end;
    assert(region_valid(r, lo, hi));
    lemma_round_up(r.start as int, align, 0);
    lemma_power_multiple_of_eight(align, a);
    let rest = rs.remove(j);
    lemma_remove_region(rs, j, lo, hi, 0, 0);
    lemma_removed_clear(rs, j, lo, hi);
    assert forall|i: int| 0 <= i < rest.len() implies (#[trigger] rest[i]).start + rest[i].size <= a
        || end <= rest[i].start by {
    }
    if excess > 0 {
        assert forall|i: int| 0 <= i < rest.len()
            implies (#[trigger] rest[i]).start + rest[i].size <= end
            || r.start + r.size <= rest[i].start by {
        }
        lemma_insertable(rest, end, excess, lo, hi);
        lemma_insert_keeps_clear(rest, end, excess, lo, hi, a, end);
    }
}

/// Allocation frees nothing: a range that met no free region before an allocation
/// meets none after it, and does not meet the block.
#[verifier::rlimit(30)]
pub proof fn lemma_alloc_keeps_clear(
    rs: Seq<Region>,
    size: int,
    align: int,
    lo: int,
    hi: int,
    x_lo: int,
    x_hi: int,
)
    requires
        regions_valid(rs, lo, hi),
        hi <= usize::MAX,
        served(size, align),
        first_fit(rs, size, align, 0) < rs.len(),
        x_lo < x_hi,
        no_region_meets(rs, x_lo, x_hi),
    ensures
        ({
            let a = alloc_start(rs[first_fit(rs, size, align, 0)], align);
            &&& no_region_meets(alloc_regions(rs, size, align), x_lo, x_hi)
            &&& x_hi <= a || a + size <= x_lo
        }),
{
    lemma_alloc_block(rs, size, align, lo, hi);
    lemma_first_fit(rs, size, align, 0);
    let j = first_fit(rs, size, align, 0);
    let r = rs[j];
    let end = alloc_start(r, align) + size;
    let excess = r.start + r.size - end;
    assert(r.start + r.size <= x_lo || x_hi <= r.start);
    let rest = rs.remove(j);
    lemma_remove_region(rs, j, lo, hi, x_lo, x_hi);
    lemma_removed_clear(rs, j, lo, hi);
    if excess > 0 {
        assert forall|i: int| 0 <= i < rest.len()
            implies (#[trigger] rest[i]).start + rest[i].size <= end
            || r.start + r.size <= rest[i].start by {
        }
        lemma_insertable(rest, end, excess, lo, hi);
        lemma_insert_keeps_clear(rest, end, excess, lo, hi, x_lo, x_hi);
    }
}

/// No overlap under allocation: the block an allocation returns lies in the heap
/// and shares no byte with any block handed out before, and the heap stays
/// consistent with the block added to the live ones.
pub proof fn lemma_alloc_consistent(
    rs: Seq<Region>,
    live: Seq<Region>,
    lo: int,
    hi: int,
    size: usize,
    align: usize,
)
    requires
        heap_consistent(rs, live, lo, hi),
        served(size as int, align as int),
    ensures
        alloc_addr(rs, size as int, align as int) matches Some(a) ==> heap_consistent(
            alloc_regions(rs, size as int, align as int),
            live.push(Region { start: a, size }),
            lo,
            hi,
        ),
        alloc_addr(rs, size as int, align as int).is_none()
            ==> alloc_regions(rs, size as int, align as int) == rs,
{
    lemma_first_fit(rs, size as int, align as int, 0);
    let j = first_fit(rs, size as int, align as int, 0);
    if j < rs.len() {
        let a = alloc_start(rs[j], align as int);
        let now = alloc_regions(rs, size as int, align as int);
        let live2 = live.push(Region { start: a as usize, size });
        lemma_alloc_block(rs, size as int, align as int, lo, hi);
        assert forall|i: int| 0 <= i < live2.len() implies region_valid(#[trigger] live2[i], lo, hi)
            && no_region_meets(now, live2[i].start as int, live2[i].start + live2[i].size) by {
            if i < live.len() {
                assert(live2[i] == live[i]);
                assert(region_valid(live[i], lo, hi));
                lemma_alloc_keeps_clear(
                    rs,
                    size as int,
                    align as int,
                    lo,
                    hi,
                    live[i].start as int,
                    live[i].start + live[i].size,
                );
            }
        }
        assert forall|i: int, k: int| 0 <= i < k < live2.len() implies regions_apart(
            #[trigger] live2[i],
            #[trigger] live2[k],
        ) by {
            assert(live2[i] == live[i]);
            if k < live.len() {
                assert(live2[k] == live[k]);
            } else {
                assert(region_valid(live[i], lo, hi));
                lemma_alloc_keeps_clear(
                    rs,
                    size as int,
                    align as int,
                    lo,
                    hi,
                    live[i].start as int,
                    live[i].start + live[i].size,
                );
            }
        }
    }
}

/// No overlap under deallocation: the block at position `i` of the live ones meets
/// what `deallocate` asks of a block, and once it is given back the heap is
/// consistent with the live ones that remain.
pub proof fn lemma_dealloc_consistent(rs: Seq<Region>, live: Seq<Region>, lo: int, hi: int, i: int)
    requires
        heap_consistent(rs, live, lo, hi),
        0 <= i < live.len(),
    ensures
        region_valid(live[i], lo, hi),
        no_region_meets(rs, live[i].start as int, live[i].start + live[i].size),
        heap_consistent(insert_region(rs, live[i].start as int, live[i].size as int),
            live.remove(i), lo, hi),
{
    let addr = live[i].start as int;
    let size = live[i].size as int;
    let now = insert_region(rs, addr, size);
    let live2 = live.remove(i);
    assert(region_valid(live[i], lo, hi));
    lemma_insertable(rs, addr, size, lo, hi);
    assert forall|n: int| 0 <= n < live2.len() implies region_valid(#[trigger] live2[n], lo, hi)
        && no_region_meets(now, live2[n].start as int, live2[n].start + live2[n].size) by {
        let n0 = if n < i { n } else { n + 1 };
        assert(live2[n] == live[n0]);
        assert(region_valid(live[n0], lo, hi));
        if n0 < i {
            assert(regions_apart(live[n0], live[i]));
        } else {
            assert(regions_apart(live[i], live[n0]));
        }
        lemma_insert_keeps_clear(rs, addr, size, lo, hi, live[n0].start as int,
            live[n0].start + live[n0].size);
    }
    assert forall|n: int, m: int| 0 <= n < m < live2.len() implies regions_apart(
        #[trigger] live2[n],
        #[trigger] live2[m],
    ) by {
        let n0 = if n < i { n } else { n + 1 };
        let m0 = if m < i { m } else { m + 1 };
        assert(live2[n] == live[n0]);
        assert(live2[m] == live[m0]);
    }
}

/// What is in use holds no header: a word in a range that meets no free region is
/// not a header word of a free region.
pub proof fn lemma_used_words_hold_no_headers(
    rs: Seq<Region>,
    lo: int,
    hi: int,
    x_lo: int,
    x_hi: int,
    x: int,
)
    requires
        regions_valid(rs, lo, hi),
        no_region_meets(rs, x_lo, x_hi),
        x_lo <= x < x_hi,
    ensures
        !header_word(rs, x),
{
    if header_word(rs, x) {
        let j = choose|j: int|
            0 <= j < rs.len() && ((#[trigger] rs[j]).start == x || rs[j].start + 8 == x);
        assert(region_valid(rs[j], lo, hi));
    }
}

/// The byte at `x` lies in a free region.
pub open spec fn free_at(rs: Seq<Region>, x: int) -> bool {
    exists|j: int| 0 <= j < rs.len() && (#[trigger] rs[j]).start <= x < rs[j].start + rs[j].size
}

/// Insertion frees the bytes of the region and no others: a byte is free after
/// the insertion exactly when it was free before or lies in the inserted region.
pub proof fn lemma_insert_frees(rs: Seq<Region>, addr: int, size: int, lo: int, hi: int, x: int)
    requires
        insertable(rs, addr, size, insert_pos(rs, addr, 0), lo, hi),
    ensures
        free_at(insert_region(rs, addr, size), x) <==> free_at(rs, x) || addr <= x < addr + size,
{
    let p = insert_pos(rs, addr, 0);
    let now = insert_region_at(rs, addr, size, p);
    let first = if touches_prev(rs, addr, p) { p - 1 } else { p };
    let rest = if touches_next(rs, addr + size, p) { p + 1 } else { p };
    lemma_inserted_shape(rs, addr, size, p, lo, hi);
    if free_at(now, x) {
        let i = choose|i: int|
            0 <= i < now.len() && (#[trigger] now[i]).start <= x < now[i].start + now[i].size;
        if i < first {
            assert(now[i] == rs[i]);
        } else if i > first {
            assert(now[i] == rs[i - first - 1 + rest]);
        } else if x < addr {
            assert(rs[p - 1].start <= x < rs[p - 1].start + rs[p - 1].size);
        } else if x >= addr + size {
            assert(rs[p].start <= x < rs[p].start + rs[p].size);
        }
    }
    if addr <= x < addr + size {
        assert(now[first].start <= x < now[first].start + now[first].size);
    }
    if free_at(rs, x) {
        let j = choose|j: int|
            0 <= j < rs.len() && (#[trigger] rs[j]).start <= x < rs[j].start + rs[j].size;
        if j < first {
            assert(now[j] == rs[j]);
        } else if j >= rest {
            let i = j - rest + first + 1;
            assert(now[i] == rs[i - first - 1 + rest]);
        } else {
            assert(now[first].start <= x < now[first].start + now[first].size);
        }
    }
}

/// A free byte of valid regions that does not lie in the first region lies in one
/// of the others, above the end of the first.
proof fn lemma_free_behind_first(rs: Seq<Region>, lo: int, hi: int, x: int)
    requires
        regions_valid(rs, lo, hi),
        free_at(rs, x),
    ensures
        rs.len() > 0,
        rs[0].start <= x,
        x >= rs[0].start + rs[0].size ==> x > rs[0].start + rs[0].size && free_at(
            rs.subrange(1, rs.len() as int),
            x,
        ),
{
    let j = choose|j: int|
        0 <= j < rs.len() && (#[trigger] rs[j]).start <= x < rs[j].start + rs[j].size;
    if j > 0 {
        assert(gap_between(rs, 0, j));
        let rest = rs.subrange(1, rs.len() as int);
        assert(rest[j - 1] == rs[j]);
    }
}

/// The regions behind the first are valid, and their bytes are free bytes of the
/// whole list above the end of the first region.
proof fn lemma_rest_valid(rs: Seq<Region>, lo: int, hi: int)
    requires
        regions_valid(rs, lo, hi),
        rs.len() > 0,
    ensures
        regions_valid(rs.subrange(1, rs.len() as int), lo, hi),
        forall|x: int| #[trigger]
            free_at(rs.subrange(1, rs.len() as int), x) ==> free_at(rs, x) && x > rs[0].start
                + rs[0].size,
{
    let rest = rs.subrange(1, rs.len() as int);
    assert forall|i: int| 0 <= i < rest.len() implies region_valid(#[trigger] rest[i], lo, hi) by {
        assert(rest[i] == rs[i + 1]);
    }
    assert forall|i: int, j: int| 0 <= i < j < rest.len()
        implies #[trigger] gap_between(rest, i, j) by {
        assert(rest[i] == rs[i + 1]);
        assert(rest[j] == rs[j + 1]);
        assert(gap_between(rs, i + 1, j + 1));
    }
    assert forall|x: int| #[trigger] free_at(rest, x) implies free_at(rs, x) && x > rs[0].start
        + rs[0].size by {
        let i = choose|i: int|
            0 <= i < rest.len() && (#[trigger] rest[i]).start <= x < rest[i].start + rest[i].size;
        assert(rest[i] == rs[i + 1]);
        assert(gap_between(rs, 0, i + 1));
    }
}

/// Valid regions are told by their bytes: two valid lists of regions that free the
/// same bytes are the same list.
pub proof fn lemma_regions_unique(
    r1: Seq<Region>,
    r2: Seq<Region>,
    lo1: int,
    hi1: int,
    lo2: int,
    hi2: int,
)
    requires
        regions_valid(r1, lo1, hi1),
        regions_valid(r2, lo2, hi2),
        forall|x: int| free_at(r1, x) <==> free_at(r2, x),
    ensures
        r1 == r2,
    decreases r1.len(),
{
    if r1.len() == 0 || r2.len() == 0 {
        if r1.len() > 0 {
            assert(region_valid(r1[0], lo1, hi1));
            assert(free_at(r1, r1[0].start as int));
        }
        if r2.len() > 0 {
            assert(region_valid(r2[0], lo2, hi2));
            assert(free_at(r2, r2[0].start as int));
        }
        assert(r1 =~= r2);
    } else {
        assert(region_valid(r1[0], lo1, hi1));
        assert(region_valid(r2[0], lo2, hi2));
        let a1 = r1[0].start as int;
        let a2 = r2[0].start as int;
        let e1 = a1 + r1[0].size;
        let e2 = a2 + r2[0].size;
        assert(free_at(r1, a1));
        assert(free_at(r2, a2));
        lemma_free_behind_first(r2, lo2, hi2, a1);
        lemma_free_behind_first(r1, lo1, hi1, a2);
        assert(a1 == a2);
        if e1 < e2 {
            assert(free_at(r2, e1));
            lemma_free_behind_first(r1, lo1, hi1, e1);
        }
        if e2 < e1 {
            assert(free_at(r1, e2));
            lemma_free_behind_first(r2, lo2, hi2, e2);
        }
        assert(r1[0] == r2[0]);
        let t1 = r1.subrange(1, r1.len() as int);
        let t2 = r2.subrange(1, r2.len() as int);
        lemma_rest_valid(r1, lo1, hi1);
        lemma_rest_valid(r2, lo2, hi2);
        assert forall|x: int| free_at(t1, x) <==> free_at(t2, x) by {
            if free_at(t1, x) {
                lemma_free_behind_first(r2, lo2, hi2, x);
            }
            if free_at(t2, x) {
                lemma_free_behind_first(r1, lo1, hi1, x);
            }
        }
        lemma_regions_unique(t1, t2, lo1, hi1, lo2, hi2);
        assert(r1 =~= seq![r1[0]] + t1);
        assert(r2 =~= seq![r2[0]] + t2);
    }
}

/// Regions may be given back in either order: two regions that share no byte with
/// one another nor with a free region leave the same free regions behind,
/// whichever is inserted first.
pub proof fn lemma_inserts_commute(
    rs: Seq<Region>,
    a: Region,
    b: Region,
    lo: int,
    hi: int,
)
    requires
        hi <= usize::MAX,
        regions_valid(rs, lo, hi),
        region_valid(a, lo, hi),
        region_valid(b, lo, hi),
        regions_apart(a, b),
        no_region_meets(rs, a.start as int, a.start + a.size),
        no_region_meets(rs, b.start as int, b.start + b.size),
    ensures
        insert_region(
            insert_region(rs, a.start as int, a.size as int),
            b.start as int,
            b.size as int,
        ) == insert_region(
            insert_region(rs, b.start as int, b.size as int),
            a.start as int,
            a.size as int,
        ),
{
    let (sa, na) = (a.start as int, a.size as int);
    let (sb, nb) = (b.start as int, b.size as int);
    let with_a = insert_region(rs, sa, na);
    let with_b = insert_region(rs, sb, nb);
    lemma_insertable(rs, sa, na, lo, hi);
    lemma_insertable(rs, sb, nb, lo, hi);
    lemma_insert_keeps_clear(rs, sa, na, lo, hi, sb, sb + nb);
    lemma_insert_keeps_clear(rs, sb, nb, lo, hi, sa, sa + na);
    lemma_insertable(with_a, sb, nb, lo, hi);
    lemma_insertable(with_b, sa, na, lo, hi);
    let both = insert_region(with_a, sb, nb);
    let other = insert_region(with_b, sa, na);
    assert forall|x: int| free_at(both, x) <==> free_at(other, x) by {
        lemma_insert_frees(rs, sa, na, lo, hi, x);
        lemma_insert_frees(rs, sb, nb, lo, hi, x);
        lemma_insert_frees(with_a, sb, nb, lo, hi, x);
        lemma_insert_frees(with_b, sa, na, lo, hi, x);
    }
    lemma_regions_unique(both, other, lo, hi, lo, hi);
}

} // verus!
