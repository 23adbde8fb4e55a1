//! Free lists in which nothing is left to merge are told by their free bytes:
//! whatever the order in which blocks were given back, the buckets hold the same
//! blocks.

use crate::allocator::buddy::laws::{
    free_byte, lemma_add_region_free_bytes, lemma_add_region_frees, lemma_add_region_valid,
    lemma_dealloc_frees, lemma_dealloc_keeps_clear, lemma_dealloc_valid, lemma_first_nonempty,
    lemma_nothing_free, lemma_region_order_exists,
};
use crate::allocator::buddy::model::{
    add_region_lists, alloc_lists, apart, block_at, block_fits, block_valid, dealloc_lists,
    empty_lists, first_nonempty, lemma_empty_lists_valid, lemma_push_valid, lemma_remove_valid,
    lists_valid, no_block_meets, region_order,
};
use crate::allocator::power::{
    aligned, buddy, lemma_buddy, lemma_pow2_double, lemma_pow2_ge_16, lemma_pow2_order,
    lemma_split,
};
use vstd::arithmetic::div_mod::lemma_fundamental_div_mod;
use vstd::arithmetic::power2::{lemma2_to64, lemma_pow2_pos, pow2};
use vstd::prelude::*;

verus! {

/// No two free blocks are buddies below the largest bucket: whatever could be
/// merged has been.
pub open spec fn merged(lists: Seq<Seq<usize>>) -> bool {
    forall|k: int, i: int, j: int|
        #![trigger lists[k][i], lists[k][j]]
        block_at(lists, k, i) && block_at(lists, k, j) && k + 1 < lists.len() ==> lists[k][j]
            != buddy(lists[k][i] as int, k as nat)
}

/// Bucket `k` holds the block at `a`.
pub open spec fn free_block(lists: Seq<Seq<usize>>, a: int, k: int) -> bool {
    exists|j: int| block_at(lists, k, j) && (#[trigger] lists[k][j]) == a
}

/// Aligned blocks nest: of two blocks that are aligned to their sizes and share a
/// byte, the smaller lies within the larger.
pub proof fn lemma_blocks_nest(a: int, k: nat, c: int, m: nat)
    requires
        aligned(a, k),
        aligned(c, m),
        k <= m,
        a < c + pow2(m),
        c < a + pow2(k),
    ensures
        c <= a,
        a + pow2(k) <= c + pow2(m),
    decreases m - k,
{
    lemma_pow2_pos(k);
    if m == k {
        let p = pow2(k) as int;
        let qa = a / p;
        let qc = c / p;
        lemma_fundamental_div_mod(a, p);
        lemma_fundamental_div_mod(c, p);
        assert(qa == qc) by (nonlinear_arith)
            requires
                p > 0,
                p * qa < p * qc + p,
                p * qc < p * qa + p,
        ;
    } else {
        let half = (m - 1) as nat;
        lemma_split(c, half);
        lemma_pow2_double(half);
        if a < c + pow2(half) {
            lemma_blocks_nest(a, k, c, half);
        } else {
            lemma_blocks_nest(a, k, c + pow2(half), half);
        }
    }
}

/// Where every byte of an aligned block is free and nothing is left to merge, the
/// block lies within one free block: it is not made up of smaller ones.
proof fn lemma_whole_block_free(lists: Seq<Seq<usize>>, lo: int, hi: int, c: int, n: int) -> (r: (
    int,
    int,
))
    requires
        lists_valid(lists, lo, hi),
        merged(lists),
        4 <= n < lists.len(),
        aligned(c, n as nat),
        forall|x: int| c <= x < c + pow2(n as nat) ==> free_byte(lists, x),
    ensures
        block_at(lists, r.0, r.1),
        r.0 >= n,
        lists[r.0][r.1] <= c,
        c + pow2(n as nat) <= lists[r.0][r.1] + pow2(r.0 as nat),
    decreases n,
{
    lemma_pow2_pos(n as nat);
    assert(free_byte(lists, c));
    let (m, j) = choose|m: int, j: int|
        block_at(lists, m, j) && (#[trigger] lists[m][j]) <= c < lists[m][j] + pow2(m as nat);
    assert(block_valid(lists[m][j] as int, m, lo, hi));
    if m >= n {
        lemma_blocks_nest(c, n as nat, lists[m][j] as int, m as nat);
        (m, j)
    } else {
        let half = (n - 1) as nat;
        lemma_split(c, half);
        lemma_pow2_double(half);
        let (m1, j1) = lemma_whole_block_free(lists, lo, hi, c, n - 1);
        let (m2, j2) = lemma_whole_block_free(lists, lo, hi, c + pow2(half), n - 1);
        assert(block_valid(lists[m1][j1] as int, m1, lo, hi));
        assert(block_valid(lists[m2][j2] as int, m2, lo, hi));
        if m1 >= n {
            lemma_blocks_nest(c, n as nat, lists[m1][j1] as int, m1 as nat);
            (m1, j1)
        } else if m2 >= n {
            lemma_blocks_nest(c, n as nat, lists[m2][j2] as int, m2 as nat);
            (m2, j2)
        } else {
            assert(lists[m1][j1] == c);
            assert(lists[m2][j2] == c + pow2(half));
            assert(false);
            (m, j)
        }
    }
}

/// A free block lies within no larger block of other lists that free the same
/// bytes: its buddy would be free beside it.
proof fn lemma_no_larger_cover(
    l1: Seq<Seq<usize>>,
    l2: Seq<Seq<usize>>,
    lo1: int,
    hi1: int,
    lo2: int,
    hi2: int,
    k: int,
    j: int,
    k2: int,
    j2: int,
)
    requires
        lists_valid(l1, lo1, hi1),
        lists_valid(l2, lo2, hi2),
        merged(l1),
        l1.len() == l2.len(),
        forall|x: int| free_byte(l1, x) <==> free_byte(l2, x),
        block_at(l1, k, j),
        block_at(l2, k2, j2),
        l2[k2][j2] <= l1[k][j] < l2[k2][j2] + pow2(k2 as nat),
    ensures
        k2 <= k,
{
    if k2 <= k {
        return ;
    }
    let a = l1[k][j] as int;
    let d = l2[k2][j2] as int;
    assert(block_valid(a, k, lo1, hi1));
    assert(block_valid(d, k2, lo2, hi2));
    lemma_buddy(a, k as nat);
    let b = buddy(a, k as nat);
    let low = if a < b { a } else { b };
    lemma_blocks_nest(low, (k + 1) as nat, d, k2 as nat);
    assert forall|x: int| b <= x < b + pow2(k as nat) implies free_byte(l1, x) by {
        assert(l2[k2][j2] <= x < l2[k2][j2] + pow2(k2 as nat));
        assert(free_byte(l2, x));
    }
    let (m, i) = lemma_whole_block_free(l1, lo1, hi1, b, k);
    let e = l1[m][i] as int;
    assert(block_valid(e, m, lo1, hi1));
    if m == k {
        assert(l1[k][i] == buddy(l1[k][j] as int, k as nat));
    } else {
        lemma_blocks_nest(low, (k + 1) as nat, e, m as nat);
        assert(apart(l1[m][i] as int, m, l1[k][j] as int, k));
    }
}

/// Lists with nothing left to merge are told by their free bytes: a block that is
/// free in one of two such lists that free the same bytes is free in the other.
pub proof fn lemma_same_bytes_same_blocks(
    l1: Seq<Seq<usize>>,
    l2: Seq<Seq<usize>>,
    lo1: int,
    hi1: int,
    lo2: int,
    hi2: int,
    a: int,
    k: int,
)
    requires
        lists_valid(l1, lo1, hi1),
        lists_valid(l2, lo2, hi2),
        merged(l1),
        merged(l2),
        l1.len() == l2.len(),
        forall|x: int| free_byte(l1, x) <==> free_byte(l2, x),
    ensures
        free_block(l1, a, k) <==> free_block(l2, a, k),
{
    if free_block(l1, a, k) {
        lemma_block_free_in_both(l1, l2, lo1, hi1, lo2, hi2, a, k);
    }
    if free_block(l2, a, k) {
        lemma_block_free_in_both(l2, l1, lo2, hi2, lo1, hi1, a, k);
    }
}

/// One direction of `lemma_same_bytes_same_blocks`.
proof fn lemma_block_free_in_both(
    l1: Seq<Seq<usize>>,
    l2: Seq<Seq<usize>>,
    lo1: int,
    hi1: int,
    lo2: int,
    hi2: int,
    a: int,
    k: int,
)
    requires
        lists_valid(l1, lo1, hi1),
        lists_valid(l2, lo2, hi2),
        merged(l1),
        merged(l2),
        l1.len() == l2.len(),
        forall|x: int| free_byte(l1, x) <==> free_byte(l2, x),
        free_block(l1, a, k),
    ensures
        free_block(l2, a, k),
{
    let j = choose|j: int| block_at(l1, k, j) && (#[trigger] l1[k][j]) == a;
    assert(block_valid(a, k, lo1, hi1));
    lemma_pow2_pos(k as nat);
    assert(l1[k][j] <= a < l1[k][j] + pow2(k as nat));
    assert(free_byte(l1, a));
    let (k2, j2) = choose|k2: int, j2: int|
        block_at(l2, k2, j2) && (#[trigger] l2[k2][j2]) <= a < l2[k2][j2] + pow2(k2 as nat);
    let d = l2[k2][j2] as int;
    assert(block_valid(d, k2, lo2, hi2));
    lemma_no_larger_cover(l1, l2, lo1, hi1, lo2, hi2, k, j, k2, j2);
    lemma_blocks_nest(d, k2 as nat, a, k as nat);
    lemma_no_larger_cover(l2, l1, lo2, hi2, lo1, hi1, k2, j2, k, j);
}

/// An allocation leaves nothing to merge: the block it takes only leaves its
/// bucket, and each bucket that receives a half was empty.
pub proof fn lemma_alloc_merged(lists: Seq<Seq<usize>>, k: int)
    requires
        merged(lists),
        0 <= k,
    ensures
        merged(alloc_lists(lists, k)),
{
    lemma_first_nonempty(lists, k);
    let i = first_nonempty(lists, k);
    let now = alloc_lists(lists, k);
    if i < lists.len() {
        assert forall|m: int, p: int, q: int|
            #![trigger now[m][p], now[m][q]]
            block_at(now, m, p) && block_at(now, m, q) && m + 1 < now.len() implies now[m][q]
            != buddy(now[m][p] as int, m as nat) by {
            lemma_pow2_pos(m as nat);
            if m == i {
                assert(now[m][p] == lists[m][p + 1]);
                assert(now[m][q] == lists[m][q + 1]);
            } else if k <= m < i {
            } else {
                assert(now[m][p] == lists[m][p]);
                assert(now[m][q] == lists[m][q]);
            }
        }
    }
}

/// Giving a block back leaves nothing to merge: the block goes up while its buddy
/// is free, and rests where it is not.
pub proof fn lemma_dealloc_merged(lists: Seq<Seq<usize>>, a: int, k: int, lo: int, hi: int)
    requires
        lists_valid(lists, lo, hi),
        merged(lists),
        0 <= k < lists.len(),
        block_valid(a, k, lo, hi),
        no_block_meets(lists, a, a + pow2(k as nat)),
        hi <= usize::MAX,
    ensures
        merged(dealloc_lists(lists, a, k)),
    decreases lists.len() - k,
{
    let b = buddy(a, k as nat);
    lemma_buddy(a, k as nat);
    if k + 1 < lists.len() && 0 <= b <= usize::MAX && lists[k].contains(b as usize) {
        let j = lists[k].index_of(b as usize);
        let l2 = lists.update(k, lists[k].remove(j));
        let low = if a < b { a } else { b };
        assert(block_at(lists, k, j));
        lemma_remove_valid(lists, k, j, lo, hi);
        assert forall|m: int, n: int| block_at(l2, m, n)
            implies (#[trigger] l2[m][n]) + pow2(m as nat) <= low
            || low + pow2((k + 1) as nat) <= l2[m][n] by {
            let n0 = if m == k && n >= j { n + 1 } else { n };
            assert(block_at(lists, m, n0));
            assert(l2[m][n] == lists[m][n0]);
            lemma_pow2_pos(m as nat);
        }
        assert forall|m: int, p: int, q: int|
            #![trigger l2[m][p], l2[m][q]]
            block_at(l2, m, p) && block_at(l2, m, q) && m + 1 < l2.len() implies l2[m][q] != buddy(
            l2[m][p] as int,
            m as nat,
        ) by {
            let before_p = if m == k && p >= j { p + 1 } else { p };
            let before_q = if m == k && q >= j { q + 1 } else { q };
            assert(l2[m][p] == lists[m][before_p]);
            assert(l2[m][q] == lists[m][before_q]);
        }
        lemma_dealloc_merged(l2, low, k + 1, lo, hi);
    } else {
        let l2 = lists.update(k, seq![a as usize] + lists[k]);
        assert forall|m: int, p: int, q: int|
            #![trigger l2[m][p], l2[m][q]]
            block_at(l2, m, p) && block_at(l2, m, q) && m + 1 < l2.len() implies l2[m][q] != buddy(
            l2[m][p] as int,
            m as nat,
        ) by {
            if m != k {
                assert(l2[m][p] == lists[m][p]);
                assert(l2[m][q] == lists[m][q]);
            } else if p > 0 && q > 0 {
                assert(l2[m][p] == lists[m][p - 1]);
                assert(l2[m][q] == lists[m][q - 1]);
            } else if p == 0 && q > 0 {
                assert(l2[m][q] == lists[k][q - 1]);
                if l2[m][q] == b {
                    assert(lists[k].contains(b as usize));
                }
            } else if p > 0 {
                let c = lists[k][p - 1];
                assert(l2[m][p] == c);
                assert(block_valid(c as int, k, lo, hi));
                lemma_buddy(c as int, k as nat);
                if a == buddy(c as int, k as nat) {
                    assert(lists[k].contains(b as usize));
                }
            }
        }
    }
}

/// Every block lies below `cur` and is the largest that could start at its place
/// in a region that ends at `end`.
pub open spec fn largest_below(lists: Seq<Seq<usize>>, cur: int, end: int) -> bool {
    forall|k: int, j: int|
        block_at(lists, k, j) ==> (#[trigger] lists[k][j]) + pow2(k as nat) <= cur && !block_fits(
            lists[k][j] as int,
            end,
            (k + 1) as nat,
        )
}

/// Handing over a region leaves nothing to merge where the blocks before it are
/// the largest possible: two blocks that are buddies would have been one.
pub proof fn lemma_add_region_merged(lists: Seq<Seq<usize>>, cur: int, end: int, lo: int, hi: int)
    requires
        lists_valid(lists, lo, hi),
        merged(lists),
        largest_below(lists, cur, end),
        cur % 16 == 0,
        end % 16 == 0,
        0 <= cur <= end,
        lo <= cur,
        end <= hi <= usize::MAX,
        end - cur < pow2(lists.len()),
    ensures
        merged(add_region_lists(lists, cur, end)),
    decreases end - cur,
{
    if cur + 16 <= end {
        lemma2_to64();
        lemma_region_order_exists(cur, end, 4);
        let k = region_order(cur, end);
        lemma_pow2_order(k, lists.len());
        lemma_pow2_ge_16(k, cur);
        lemma_pow2_pos(k);
        lemma_buddy(cur, k);
        let l2 = lists.update(k as int, seq![cur as usize] + lists[k as int]);
        assert(no_block_meets(lists, cur, cur + pow2(k)));
        lemma_push_valid(lists, k as int, cur as usize, lo, hi);
        assert forall|m: int, p: int, q: int|
            #![trigger l2[m][p], l2[m][q]]
            block_at(l2, m, p) && block_at(l2, m, q) && m + 1 < l2.len() implies l2[m][q] != buddy(
            l2[m][p] as int,
            m as nat,
        ) by {
            if m != k {
                assert(l2[m][p] == lists[m][p]);
                assert(l2[m][q] == lists[m][q]);
            } else if p > 0 && q > 0 {
                assert(l2[m][p] == lists[m][p - 1]);
                assert(l2[m][q] == lists[m][q - 1]);
            } else if p == 0 && q > 0 {
                let c = lists[m][q - 1];
                assert(l2[m][q] == c);
                assert(c + pow2(m as nat) <= cur);
                assert(!block_fits(c as int, end, (m + 1) as nat));
            } else if p > 0 {
                let c = lists[m][p - 1];
                assert(l2[m][p] == c);
                assert(c + pow2(m as nat) <= cur);
                assert(!block_fits(c as int, end, (m + 1) as nat));
                assert(block_valid(c as int, m, lo, hi));
                lemma_buddy(c as int, m as nat);
            }
        }
        assert forall|m: int, n: int| block_at(l2, m, n) implies (#[trigger] l2[m][n]) + pow2(
            m as nat,
        ) <= cur + pow2(k) && !block_fits(l2[m][n] as int, end, (m + 1) as nat) by {
            if m == k && n == 0 {
            } else {
                let n0 = if m == k { n - 1 } else { n };
                assert(block_at(lists, m, n0));
                assert(l2[m][n] == lists[m][n0]);
            }
        }
        lemma_add_region_merged(l2, cur + pow2(k), end, lo, hi);
    }
}

/// A heap at its start has nothing to merge.
pub proof fn lemma_init_merged(order: nat, start: int, end: int)
    requires
        start % 16 == 0,
        end % 16 == 0,
        0 <= start <= end <= usize::MAX,
        end - start < pow2(order),
    ensures
        merged(add_region_lists(empty_lists(order), start, end)),
{
    lemma_empty_lists_valid(order, start, end);
    lemma_add_region_merged(empty_lists(order), start, end, start, end);
}

/// Blocks may be given back in either order: after two blocks that share no byte
/// with one another nor with a free block have been given back to lists with
/// nothing to merge, each bucket holds the same blocks whichever block went first.
pub proof fn lemma_frees_commute(
    lists: Seq<Seq<usize>>,
    a: int,
    ka: int,
    b: int,
    kb: int,
    lo: int,
    hi: int,
    c: int,
    k: int,
)
    requires
        lists_valid(lists, lo, hi),
        merged(lists),
        hi <= usize::MAX,
        0 <= ka < lists.len(),
        0 <= kb < lists.len(),
        block_valid(a, ka, lo, hi),
        block_valid(b, kb, lo, hi),
        apart(a, ka, b, kb),
        no_block_meets(lists, a, a + pow2(ka as nat)),
        no_block_meets(lists, b, b + pow2(kb as nat)),
    ensures
        free_block(dealloc_lists(dealloc_lists(lists, a, ka), b, kb), c, k) <==> free_block(
            dealloc_lists(dealloc_lists(lists, b, kb), a, ka),
            c,
            k,
        ),
{
    let with_a = dealloc_lists(lists, a, ka);
    let with_b = dealloc_lists(lists, b, kb);
    lemma_pow2_pos(ka as nat);
    lemma_pow2_pos(kb as nat);
    lemma_dealloc_valid(lists, a, ka, lo, hi);
    lemma_dealloc_valid(lists, b, kb, lo, hi);
    lemma_dealloc_merged(lists, a, ka, lo, hi);
    lemma_dealloc_merged(lists, b, kb, lo, hi);
    lemma_dealloc_keeps_clear(lists, a, ka, b, b + pow2(kb as nat));
    lemma_dealloc_keeps_clear(lists, b, kb, a, a + pow2(ka as nat));
    let both = dealloc_lists(with_a, b, kb);
    let other = dealloc_lists(with_b, a, ka);
    lemma_dealloc_valid(with_a, b, kb, lo, hi);
    lemma_dealloc_valid(with_b, a, ka, lo, hi);
    lemma_dealloc_merged(with_a, b, kb, lo, hi);
    lemma_dealloc_merged(with_b, a, ka, lo, hi);
    assert forall|x: int| free_byte(both, x) <==> free_byte(other, x) by {
        lemma_dealloc_frees(lists, a, ka, lo, hi, x);
        lemma_dealloc_frees(lists, b, kb, lo, hi, x);
        lemma_dealloc_frees(with_a, b, kb, lo, hi, x);
        lemma_dealloc_frees(with_b, a, ka, lo, hi, x);
    }
    lemma_same_bytes_same_blocks(both, other, lo, hi, lo, hi, c, k);
}

/// Once every byte of the heap is free again and nothing is left to merge, each
/// bucket holds the blocks it held at the start.
pub proof fn lemma_all_free_is_the_start(
    lists: Seq<Seq<usize>>,
    start: int,
    end: int,
    a: int,
    k: int,
)
    requires
        lists_valid(lists, start, end),
        merged(lists),
        start % 16 == 0,
        end % 16 == 0,
        0 <= start <= end <= usize::MAX,
        end - start < pow2(lists.len()),
        forall|x: int| free_byte(lists, x) <==> start <= x < end,
    ensures
        free_block(lists, a, k) <==> free_block(
            add_region_lists(empty_lists(lists.len()), start, end),
            a,
            k,
        ),
{
    let none = empty_lists(lists.len());
    let first = add_region_lists(none, start, end);
    lemma_empty_lists_valid(lists.len(), start, end);
    lemma_add_region_valid(none, start, end, start, end);
    lemma_add_region_free_bytes(none, start, end);
    lemma_init_merged(lists.len(), start, end);
    assert forall|x: int| free_byte(lists, x) <==> free_byte(first, x) by {
        lemma_nothing_free(lists.len(), x);
        lemma_add_region_frees(none, start, end, x);
    }
    lemma_same_bytes_same_blocks(lists, first, start, end, start, end, a, k);
}

} // verus!
