//! What holds of the buddy allocator over any run of allocations and
//! deallocations: the bytes it accounts for are conserved, and the blocks it has
//! handed out never overlap.

use crate::allocator::buddy::model::{
    add_region_lists, alloc_block, alloc_lists, apart, block_at, block_fits, block_valid,
    dealloc_lists, empty_lists, first_nonempty, is_region_order, lemma_block_fits,
    lemma_distinct_from_list, lemma_empty_lists_valid, lemma_index_of, lemma_push_valid,
    lemma_region_order, lemma_remove_valid, link_word, lists_valid, no_block_meets, region_order,
};
use crate::allocator::power::{
    aligned, buddy, lemma_buddy, lemma_pow2_double, lemma_pow2_ge_16, lemma_pow2_order, lemma_split,
};
use vstd::arithmetic::power2::{lemma2_to64, lemma_pow2_pos, pow2};
use vstd::prelude::*;

verus! {

/// Bytes in the free blocks of `lists`: each block of bucket `k` counts `2^k`.
pub open spec fn free_bytes(lists: Seq<Seq<usize>>) -> nat
    decreases lists.len(),
{
    if lists.len() == 0 {
        0
    } else {
        free_bytes(lists.drop_last()) + lists.last().len() * pow2((lists.len() - 1) as nat)
    }
}

/// A block that has been handed out and not yet given back.
pub struct LiveBlock {
    pub addr: usize,
    pub order: usize,
}

/// Bytes in the blocks of `live`.
pub open spec fn live_bytes(live: Seq<LiveBlock>) -> nat
    decreases live.len(),
{
    if live.len() == 0 {
        0
    } else {
        live_bytes(live.drop_last()) + pow2(live.last().order as nat)
    }
}

/// Replacing bucket `k` changes the free bytes by the change in its length times
/// the bucket's block size.
pub proof fn lemma_free_bytes_update(lists: Seq<Seq<usize>>, k: int, s: Seq<usize>)
    requires
        0 <= k < lists.len(),
    ensures
        free_bytes(lists.update(k,
            s)) + lists[k].len() * pow2(k as nat) == free_bytes(lists) + s.len() * pow2(
            k as nat,
        ),
    decreases lists.len(),
{
    let l2 = lists.update(k, s);
    if k == lists.len() - 1 {
        assert(l2.drop_last() =~= lists.drop_last());
    } else {
        assert(l2.drop_last() =~= lists.drop_last().update(k, s));
        lemma_free_bytes_update(lists.drop_last(), k, s);
    }
}

/// Empty buckets hold no byte.
pub proof fn lemma_free_bytes_empty(n: nat)
    ensures
        free_bytes(empty_lists(n)) == 0,
    decreases n,
{
    if n > 0 {
        assert(empty_lists(n).drop_last() =~= empty_lists((n - 1) as nat));
        lemma_free_bytes_empty((n - 1) as nat);
    }
}

/// One more block in front of bucket `k` is `2^k` more free bytes.
pub proof fn lemma_free_bytes_push(lists: Seq<Seq<usize>>, k: int, a: usize)
    requires
        0 <= k < lists.len(),
    ensures
        free_bytes(lists.update(k, seq![a] + lists[k])) == free_bytes(lists) + pow2(k as nat),
{
    lemma_free_bytes_update(lists, k, seq![a] + lists[k]);
    let n = lists[k].len() as int;
    let p = pow2(k as nat) as int;
    assert((n + 1) * p == n * p + p) by (nonlinear_arith);
}

/// One block less in bucket `k` is `2^k` fewer free bytes.
pub proof fn lemma_free_bytes_remove(lists: Seq<Seq<usize>>, k: int, j: int)
    requires
        block_at(lists, k, j),
    ensures
        free_bytes(lists.update(k, lists[k].remove(j))) + pow2(k as nat) == free_bytes(lists),
{
    lemma_free_bytes_update(lists, k, lists[k].remove(j));
    let n = lists[k].len() as int;
    let p = pow2(k as nat) as int;
    assert((n - 1) * p == n * p - p) by (nonlinear_arith);
}

/// Giving a block of order `k` back adds `2^k` to the free bytes, however far the
/// block merges upward.
pub proof fn lemma_dealloc_free_bytes(lists: Seq<Seq<usize>>, a: int, k: int)
    requires
        0 <= k < lists.len(),
    ensures
        free_bytes(dealloc_lists(lists, a, k)) == free_bytes(lists) + pow2(k as nat),
    decreases lists.len() - k,
{
    let b = buddy(a, k as nat);
    if k + 1 < lists.len() && 0 <= b <= usize::MAX && lists[k].contains(b as usize) {
        let j = lists[k].index_of(b as usize);
        let l2 = lists.update(k, lists[k].remove(j));
        lemma_free_bytes_remove(lists, k, j);
        lemma_dealloc_free_bytes(l2, if a < b { a } else { b }, k + 1);
        lemma_pow2_double(k as nat);
    } else {
        lemma_free_bytes_push(lists, k, a as usize);
    }
}

/// The free lists after a block found in bucket `i` has been split down to bucket
/// `j`, the lower half of the last split taken out.
pub open spec fn taken_lists(lists: Seq<Seq<usize>>, i: int, j: int) -> Seq<Seq<usize>> {
    let b = lists[i][0];
    Seq::new(
        lists.len(),
        |m: int|
            if m == i {
                lists[i].remove(0)
            } else if j <= m < i {
                seq![(b + pow2(m as nat)) as usize]
            } else {
                lists[m]
            },
    )
}

/// Taking a block of order `j` out of a block of bucket `i` takes `2^j` from the
/// free bytes.
pub proof fn lemma_taken_free_bytes(lists: Seq<Seq<usize>>, i: int, j: int)
    requires
        block_at(lists, i, 0),
        0 <= j <= i,
        forall|m: int| j <= m < i ==> (#[trigger] lists[m]).len() == 0,
    ensures
        free_bytes(taken_lists(lists, i, j)) + pow2(j as nat) == free_bytes(lists),
    decreases i - j,
{
    if j == i {
        assert(taken_lists(lists, i, i) =~= lists.update(i, lists[i].remove(0)));
        lemma_free_bytes_remove(lists, i, 0);
    } else {
        let up = taken_lists(lists, i, j + 1);
        let b = lists[i][0];
        lemma_taken_free_bytes(lists, i, j + 1);
        assert(up[j] == lists[j]);
        assert(taken_lists(lists, i, j) =~= up.update(j,
            seq![(b + pow2(j as nat)) as usize] + up[j]));
        lemma_free_bytes_push(up, j, (b + pow2(j as nat)) as usize);
        lemma_pow2_double(j as nat);
    }
}

/// Buckets between the one asked for and the first that holds a block are empty.
pub proof fn lemma_first_nonempty(lists: Seq<Seq<usize>>, k: int)
    requires
        0 <= k,
    ensures
        k <= first_nonempty(lists, k) || first_nonempty(lists, k) == lists.len(),
        first_nonempty(lists, k) < lists.len() ==> lists[first_nonempty(lists, k)].len() > 0,
        forall|m: int| k <= m < first_nonempty(lists, k) ==> (#[trigger] lists[m]).len() == 0,
        first_nonempty(lists, k) <= lists.len(),
    decreases lists.len() - k,
{
    if k < lists.len() && lists[k].len() == 0 {
        lemma_first_nonempty(lists, k + 1);
    }
}

/// An allocation from bucket `k` that succeeds takes `2^k` from the free bytes;
/// one that fails takes nothing.
pub proof fn lemma_alloc_free_bytes(lists: Seq<Seq<usize>>, k: int)
    requires
        0 <= k,
    ensures
        alloc_block(lists, k).is_some()
            ==> free_bytes(alloc_lists(lists, k)) + pow2(k as nat) == free_bytes(
            lists,
        ),
        alloc_block(lists, k).is_none() ==> alloc_lists(lists, k) == lists,
{
    lemma_first_nonempty(lists, k);
    let i = first_nonempty(lists, k);
    if i < lists.len() {
        assert(alloc_lists(lists, k) =~= taken_lists(lists, i, k));
        lemma_taken_free_bytes(lists, i, k);
    }
}

/// Where a block of order `k` can start a region, the region has an order, and it
/// is at least `k`.
pub proof fn lemma_region_order_exists(cur: int, end: int, k: nat)
    requires
        block_fits(cur, end, k),
    ensures
        is_region_order(cur, end, region_order(cur, end)),
        region_order(cur, end) >= k,
    decreases end - cur - pow2(k),
{
    lemma_pow2_double(k);
    if block_fits(cur, end, k + 1) {
        lemma_region_order_exists(cur, end, k + 1);
    } else {
        lemma_region_order(cur, end, k);
    }
}

/// A region between multiples of the minimum block size, shorter than the block
/// above the largest bucket, goes to the free lists whole.
pub proof fn lemma_add_region_free_bytes(lists: Seq<Seq<usize>>, cur: int, end: int)
    requires
        cur % 16 == 0,
        end % 16 == 0,
        cur <= end,
        end - cur < pow2(lists.len()),
    ensures
        free_bytes(add_region_lists(lists, cur, end)) == free_bytes(lists) + (end - cur),
        add_region_lists(lists, cur, end).len() == lists.len(),
    decreases end - cur,
{
    if cur + 16 <= end {
        lemma2_to64();
        lemma_region_order_exists(cur, end, 4);
        let k = region_order(cur, end);
        lemma_pow2_order(k, lists.len());
        lemma_pow2_ge_16(k, cur);
        lemma_pow2_pos(k);
        let l2 = lists.update(k as int, seq![cur as usize] + lists[k as int]);
        lemma_free_bytes_push(lists, k as int, cur as usize);
        lemma_add_region_free_bytes(l2, cur + pow2(k), end);
    }
}

/// A region that is exactly one aligned block becomes that block.
pub proof fn lemma_add_region_single_block(lists: Seq<Seq<usize>>, cur: int, k: nat)
    requires
        4 <= k < lists.len(),
        aligned(cur, k),
    ensures
        add_region_lists(lists, cur, cur + pow2(k)) == lists.update(k as int,
            seq![cur as usize] + lists[k as int]),
{
    let end = cur + pow2(k);
    lemma_pow2_double(k);
    lemma_pow2_ge_16(k, cur);
    lemma_region_order(cur, end, k);
    let l2 = lists.update(k as int, seq![cur as usize] + lists[k as int]);
    assert(add_region_lists(l2, end, end) == l2);
}

/// The ledger balances: the free bytes and the live bytes together are `total`.
pub open spec fn balanced(lists: Seq<Seq<usize>>, live: Seq<LiveBlock>, total: int) -> bool {
    free_bytes(lists) + live_bytes(live) == total
}

/// One block less in the ledger is its size fewer live bytes.
pub proof fn lemma_live_bytes_remove(live: Seq<LiveBlock>, i: int)
    requires
        0 <= i < live.len(),
    ensures
        live_bytes(live.remove(i)) + pow2(live[i].order as nat) == live_bytes(live),
    decreases live.len(),
{
    if i == live.len() - 1 {
        assert(live.remove(i) =~= live.drop_last());
    } else {
        assert(live.remove(i).drop_last() =~= live.drop_last().remove(i));
        assert(live.remove(i).last() == live.last());
        lemma_live_bytes_remove(live.drop_last(), i);
    }
}

/// Conservation at the start: a heap just handed over, with nothing allocated,
/// balances at its size.
pub proof fn lemma_init_balanced(order: nat, start: int, end: int)
    requires
        start % 16 == 0,
        end % 16 == 0,
        start <= end,
        end - start < pow2(order),
    ensures
        balanced(add_region_lists(empty_lists(order), start, end), Seq::empty(), end - start),
{
    lemma_free_bytes_empty(order);
    lemma_add_region_free_bytes(empty_lists(order), start, end);
}

/// Conservation under allocation: an allocation from bucket `k` that succeeds
/// moves `2^k` bytes from the free lists to the ledger; one that fails moves
/// nothing.
pub proof fn lemma_alloc_balanced(
    lists: Seq<Seq<usize>>,
    live: Seq<LiveBlock>,
    total: int,
    k: usize,
)
    requires
        balanced(lists, live, total),
    ensures
        alloc_block(lists, k as int) matches Some(a) ==> balanced(
            alloc_lists(lists, k as int),
            live.push(LiveBlock { addr: a, order: k }),
            total,
        ),
        alloc_block(lists, k as int).is_none()
            ==> balanced(alloc_lists(lists, k as int), live, total),
{
    lemma_alloc_free_bytes(lists, k as int);
    if let Some(a) = alloc_block(lists, k as int) {
        let l2 = live.push(LiveBlock { addr: a, order: k });
        assert(l2.drop_last() =~= live);
    }
}

/// Conservation under deallocation: giving back the block at position `i` of the
/// ledger moves its bytes to the free lists.
pub proof fn lemma_dealloc_balanced(
    lists: Seq<Seq<usize>>,
    live: Seq<LiveBlock>,
    total: int,
    i: int,
)
    requires
        balanced(lists, live, total),
        0 <= i < live.len(),
        live[i].order < lists.len(),
    ensures
        balanced(dealloc_lists(lists, live[i].addr as int, live[i].order as int), live.remove(i),
            total),
{
    lemma_dealloc_free_bytes(lists, live[i].addr as int, live[i].order as int);
    lemma_live_bytes_remove(live, i);
}

/// `[x_lo, x_hi)` shares no byte with the block of order `k` at `a`.
pub open spec fn range_apart(x_lo: int, x_hi: int, a: int, k: int) -> bool {
    x_hi <= a || a + pow2(k as nat) <= x_lo
}

/// Splitting keeps the lists valid: after a block of bucket `i` has been split down
/// to bucket `j` and its lowest part taken out, the lists are valid, the part is a
/// valid block of order `j`, and it meets no free block.
pub proof fn lemma_taken_valid(lists: Seq<Seq<usize>>, i: int, j: int, lo: int, hi: int)
    requires
        lists_valid(lists, lo, hi),
        block_at(lists, i, 0),
        4 <= j <= i,
        hi <= usize::MAX,
        forall|m: int| j <= m < i ==> (#[trigger] lists[m]).len() == 0,
    ensures
        lists_valid(taken_lists(lists, i, j), lo, hi),
        block_valid(lists[i][0] as int, j, lo, hi),
        no_block_meets(taken_lists(lists, i, j), lists[i][0] as int, lists[i][0] + pow2(j as nat)),
    decreases i - j,
{
    let b = lists[i][0];
    if j == i {
        assert(taken_lists(lists, i, i) =~= lists.update(i, lists[i].remove(0)));
        lemma_remove_valid(lists, i, 0, lo, hi);
    } else {
        let up = taken_lists(lists, i, j + 1);
        lemma_taken_valid(lists, i, j + 1, lo, hi);
        lemma_split(b as int, j as nat);
        lemma_pow2_double(j as nat);
        let upper = (b + pow2(j as nat)) as usize;
        assert(up[j] =~= Seq::<usize>::empty());
        let now = up.update(j, seq![upper] + up[j]);
        assert(taken_lists(lists, i, j) =~= now);
        assert(no_block_meets(up, upper as int, upper + pow2(j as nat)));
        lemma_push_valid(up, j, upper, lo, hi);
        assert forall|k: int, n: int| block_at(now, k, n)
            implies (#[trigger] now[k][n]) + pow2(k as nat) <= b
            || b + pow2(j as nat) <= now[k][n] by {
            if k == j {
            } else {
                assert(block_at(up, k, n));
                assert(now[k][n] == up[k][n]);
            }
        }
    }
}

/// Splitting frees nothing: a range that met no free block before the split meets
/// none after it.
pub proof fn lemma_taken_keeps_clear(
    lists: Seq<Seq<usize>>,
    i: int,
    j: int,
    x_lo: int,
    x_hi: int,
    lo: int,
    hi: int,
)
    requires
        lists_valid(lists, lo, hi),
        hi <= usize::MAX,
        block_at(lists, i, 0),
        0 <= j <= i,
        no_block_meets(lists, x_lo, x_hi),
    ensures
        no_block_meets(taken_lists(lists, i, j), x_lo, x_hi),
{
    let now = taken_lists(lists, i, j);
    let b = lists[i][0];
    assert forall|k: int, n: int| block_at(now, k, n)
        implies (#[trigger] now[k][n]) + pow2(k as nat) <= x_lo
        || x_hi <= now[k][n] by {
        if k == i {
            assert(block_at(lists, i, n + 1));
            assert(now[k][n] == lists[i][n + 1]);
        } else if j <= k < i {
            lemma_pow2_double(k as nat);
            lemma_pow2_order((k + 1) as nat, i as nat);
            lemma_pow2_pos(k as nat);
            assert(block_valid(lists[i][0] as int, i, lo, hi));
            assert(now[k][n] == b + pow2(k as nat));
        } else {
            assert(block_at(lists, k, n));
        }
    }
}

/// Merging keeps the lists valid: giving back a valid block that meets no free
/// block leaves valid lists.
pub proof fn lemma_dealloc_valid(lists: Seq<Seq<usize>>, a: int, k: int, lo: int, hi: int)
    requires
        lists_valid(lists, lo, hi),
        0 <= k < lists.len(),
        block_valid(a, k, lo, hi),
        no_block_meets(lists, a, a + pow2(k as nat)),
        hi <= usize::MAX,
    ensures
        lists_valid(dealloc_lists(lists, a, k), lo, hi),
        dealloc_lists(lists, a, k).len() == lists.len(),
    decreases lists.len() - k,
{
    let b = buddy(a, k as nat);
    lemma_buddy(a, k as nat);
    if k + 1 < lists.len() && 0 <= b <= usize::MAX && lists[k].contains(b as usize) {
        let j = lists[k].index_of(b as usize);
        let l2 = lists.update(k, lists[k].remove(j));
        let low = if a < b { a } else { b };
        assert(block_at(lists, k, j));
        lemma_remove_valid(lists, k, j, lo, hi);
        assert forall|m: int, n: int| block_at(l2, m, n)
            implies (#[trigger] l2[m][n]) + pow2(m as nat) <= low
            || low + pow2((k + 1) as nat) <= l2[m][n] by {
            let n0 = if m == k && n >= j { n + 1 } else { n };
            assert(block_at(lists, m, n0));
            assert(l2[m][n] == lists[m][n0]);
            lemma_pow2_pos(m as nat);
        }
        lemma_dealloc_valid(l2, low, k + 1, lo, hi);
    } else {
        lemma_push_valid(lists, k, a as usize, lo, hi);
    }
}

/// Merging frees the block and nothing else: a range that met no free block and
/// does not meet the block given back meets no free block afterwards.
pub proof fn lemma_dealloc_keeps_clear(lists: Seq<Seq<usize>>, a: int, k: int, x_lo: int, x_hi: int)
    requires
        0 <= k < lists.len(),
        0 <= a <= usize::MAX,
        aligned(a, k as nat),
        x_lo < x_hi,
        no_block_meets(lists, x_lo, x_hi),
        range_apart(x_lo, x_hi, a, k),
    ensures
        no_block_meets(dealloc_lists(lists, a, k), x_lo, x_hi),
    decreases lists.len() - k,
{
    let b = buddy(a, k as nat);
    lemma_buddy(a, k as nat);
    if k + 1 < lists.len() && 0 <= b <= usize::MAX && lists[k].contains(b as usize) {
        let j = lists[k].index_of(b as usize);
        let l2 = lists.update(k, lists[k].remove(j));
        let low = if a < b { a } else { b };
        assert(block_at(lists, k, j));
        assert(lists[k][j] == b);
        assert forall|m: int, n: int| block_at(l2, m, n)
            implies (#[trigger] l2[m][n]) + pow2(m as nat) <= x_lo
            || x_hi <= l2[m][n] by {
            let n0 = if m == k && n >= j { n + 1 } else { n };
            assert(block_at(lists, m, n0));
            assert(l2[m][n] == lists[m][n0]);
        }
        lemma_dealloc_keeps_clear(l2, low, k + 1, x_lo, x_hi);
    } else {
        let l2 = lists.update(k, seq![a as usize] + lists[k]);
        assert forall|m: int, n: int| block_at(l2, m, n)
            implies (#[trigger] l2[m][n]) + pow2(m as nat) <= x_lo
            || x_hi <= l2[m][n] by {
            if m == k && n == 0 {
            } else {
                let n0 = if m == k { n - 1 } else { n };
                assert(block_at(lists, m, n0));
                assert(l2[m][n] == lists[m][n0]);
            }
        }
    }
}

/// The state of a heap and of the blocks handed out from it fit together: the free
/// lists are valid, every live block is a valid block, no live block shares a byte
/// with a free block, and no two live blocks share a byte.
pub open spec fn heap_consistent(
    lists: Seq<Seq<usize>>,
    live: Seq<LiveBlock>,
    lo: int,
    hi: int,
) -> bool {
    &&& hi <= usize::MAX
    &&& lists_valid(lists, lo, hi)
    &&& forall|i: int|
        0 <= i < live.len() ==> block_valid((#[trigger] live[i]).addr as int, live[i].order as int,
            lo, hi)
    &&& forall|i: int|
        0 <= i < live.len() ==> no_block_meets(
            lists,
            (#[trigger] live[i]).addr as int,
            live[i].addr + pow2(live[i].order as nat),
        )
    &&& forall|i: int, j: int|
        #![trigger live[i], live[j]]
        0 <= i < j < live.len() ==> apart(
            live[i].addr as int,
            live[i].order as int,
            live[j].addr as int,
            live[j].order as int,
        )
}

/// No overlap under allocation: the block an allocation returns is a valid block
/// that shares no byte with any block handed out before, and the heap stays
/// consistent with the block added to the live ones.
pub proof fn lemma_alloc_consistent(
    lists: Seq<Seq<usize>>,
    live: Seq<LiveBlock>,
    lo: int,
    hi: int,
    k: usize,
)
    requires
        heap_consistent(lists, live, lo, hi),
        4 <= k,
    ensures
        alloc_block(lists, k as int) matches Some(a) ==> heap_consistent(
            alloc_lists(lists, k as int),
            live.push(LiveBlock { addr: a, order: k }),
            lo,
            hi,
        ),
        alloc_block(lists, k as int).is_none()
            ==> heap_consistent(alloc_lists(lists, k as int), live, lo, hi),
{
    lemma_first_nonempty(lists, k as int);
    let i = first_nonempty(lists, k as int);
    if i < lists.len() {
        let a = lists[i][0];
        let now = alloc_lists(lists, k as int);
        let live2 = live.push(LiveBlock { addr: a, order: k });
        assert(now =~= taken_lists(lists, i, k as int));
        assert(block_at(lists, i, 0));
        lemma_taken_valid(lists, i, k as int, lo, hi);
        lemma_pow2_order(k as nat, i as nat);
        assert forall|n: int| 0 <= n < live2.len() implies no_block_meets(
            now,
            (#[trigger] live2[n]).addr as int,
            live2[n].addr + pow2(live2[n].order as nat),
        ) by {
            if n < live.len() {
                assert(live2[n] == live[n]);
                lemma_taken_keeps_clear(
                    lists,
                    i,
                    k as int,
                    live[n].addr as int,
                    live[n].addr + pow2(live[n].order as nat),
                    lo,
                    hi,
                );
            }
        }
        assert forall|n: int, m: int|
            #![trigger live2[n], live2[m]]
            0 <= n < m < live2.len() implies apart(
            live2[n].addr as int,
            live2[n].order as int,
            live2[m].addr as int,
            live2[m].order as int,
        ) by {
            assert(live2[n] == live[n]);
            if m < live.len() {
                assert(live2[m] == live[m]);
            } else {
                assert(no_block_meets(lists, live[n].addr as int,
                    live[n].addr + pow2(live[n].order as nat)));
                lemma_pow2_pos(live[n].order as nat);
            }
        }
        assert forall|n: int| 0 <= n < live2.len() implies block_valid(
            (#[trigger] live2[n]).addr as int,
            live2[n].order as int,
            lo,
            hi,
        ) by {
            if n < live.len() {
                assert(live2[n] == live[n]);
            }
        }
    }
}

/// No overlap under deallocation: the block at position `i` of the live ones meets
/// what `deallocate` asks of a block, and once it is given back the heap is
/// consistent with the live ones that remain.
pub proof fn lemma_dealloc_consistent(
    lists: Seq<Seq<usize>>,
    live: Seq<LiveBlock>,
    lo: int,
    hi: int,
    i: int,
)
    requires
        heap_consistent(lists, live, lo, hi),
        0 <= i < live.len(),
        live[i].order < lists.len(),
    ensures
        block_valid(live[i].addr as int, live[i].order as int, lo, hi),
        no_block_meets(lists, live[i].addr as int, live[i].addr + pow2(live[i].order as nat)),
        heap_consistent(dealloc_lists(lists, live[i].addr as int, live[i].order as int),
            live.remove(i), lo, hi),
{
    let a = live[i].addr as int;
    let k = live[i].order as int;
    let now = dealloc_lists(lists, a, k);
    let live2 = live.remove(i);
    lemma_dealloc_valid(lists, a, k, lo, hi);
    assert forall|n: int| 0 <= n < live2.len() implies no_block_meets(
        now,
        (#[trigger] live2[n]).addr as int,
        live2[n].addr + pow2(live2[n].order as nat),
    ) && block_valid(live2[n].addr as int, live2[n].order as int, lo, hi) by {
        let n0 = if n < i { n } else { n + 1 };
        assert(live2[n] == live[n0]);
        if n0 < i {
            assert(apart(live[n0].addr as int, live[n0].order as int, live[i].addr as int,
                live[i].order as int));
        } else {
            assert(apart(live[i].addr as int, live[i].order as int, live[n0].addr as int,
                live[n0].order as int));
        }
        lemma_pow2_pos(live[n0].order as nat);
        lemma_block_fits(a, k as nat, lo, hi);
        lemma_dealloc_keeps_clear(lists, a, k, live[n0].addr as int,
            live[n0].addr + pow2(live[n0].order as nat));
    }
    assert forall|n: int, m: int|
        #![trigger live2[n], live2[m]]
        0 <= n < m < live2.len() implies apart(
        live2[n].addr as int,
        live2[n].order as int,
        live2[m].addr as int,
        live2[m].order as int,
    ) by {
        let n0 = if n < i { n } else { n + 1 };
        let m0 = if m < i { m } else { m + 1 };
        assert(live2[n] == live[n0]);
        assert(live2[m] == live[m0]);
    }
}

/// Giving a block back leaves the buckets below its own as they were.
pub proof fn lemma_dealloc_below(lists: Seq<Seq<usize>>, a: int, k: int, m: int)
    requires
        0 <= m < k < lists.len(),
    ensures
        dealloc_lists(lists, a, k).len() == lists.len(),
        dealloc_lists(lists, a, k)[m] == lists[m],
    decreases lists.len() - k,
{
    let b = buddy(a, k as nat);
    if k + 1 < lists.len() && 0 <= b <= usize::MAX && lists[k].contains(b as usize) {
        let j = lists[k].index_of(b as usize);
        lemma_dealloc_below(lists.update(k, lists[k].remove(j)), if a < b { a } else { b }, k + 1,
            m);
    }
}

/// Buddies do not stay apart: where the buddy of a block that is given back is
/// free and a bucket above exists, the buddy leaves the bucket and the block does
/// not enter it; the two go up as one block at the lower address. Where that block
/// has no free buddy in turn, it stands at the front of the bucket above.
pub proof fn lemma_dealloc_merges(lists: Seq<Seq<usize>>, a: int, k: int)
    requires
        0 <= k,
        k + 1 < lists.len(),
        0 <= buddy(a, k as nat) <= usize::MAX,
        lists[k].contains(buddy(a, k as nat) as usize),
    ensures
        ({
            let b = buddy(a, k as nat);
            let j = lists[k].index_of(b as usize);
            let low = if a < b { a } else { b };
            let up = buddy(low, (k + 1) as nat);
            &&& lists[k][j] == b
            &&& dealloc_lists(lists, a, k)[k] == lists[k].remove(j)
            &&& !(k + 2 < lists.len() && 0 <= up <= usize::MAX
                && lists[k + 1].contains(up as usize))
                ==> dealloc_lists(lists, a, k)[k + 1] == seq![low as usize] + lists[k + 1]
        }),
{
    let b = buddy(a, k as nat);
    let j = lists[k].index_of(b as usize);
    let low = if a < b { a } else { b };
    let l2 = lists.update(k, lists[k].remove(j));
    lemma_dealloc_below(l2, low, k + 1, k);
}

/// The buddy, and only the buddy, leaves the bucket of a block that is given back:
/// a block of that bucket is gone afterwards exactly when it is the buddy, and
/// the block given back does not enter the bucket then. Where the buddy is not
/// free, the block goes to the front of its bucket and nothing else changes.
///
/// This is said of every block but one of the largest bucket whose buddy is
/// free: no bucket above exists to take the two as one, so they stay apart (see
/// `lemma_dealloc_top_bucket`).
pub proof fn lemma_dealloc_takes_the_buddy_only(
    lists: Seq<Seq<usize>>,
    a: int,
    k: int,
    lo: int,
    hi: int,
    x: usize,
)
    requires
        lists_valid(lists, lo, hi),
        0 <= k < lists.len(),
        block_valid(a, k, lo, hi),
        no_block_meets(lists, a, a + pow2(k as nat)),
        hi <= usize::MAX,
        k + 1 < lists.len() || !lists[k].contains(buddy(a, k as nat) as usize),
    ensures
        0 <= buddy(a, k as nat) <= usize::MAX,
        lists[k].contains(x) ==> (!dealloc_lists(lists, a, k)[k].contains(x) <==> x as int == buddy(
            a,
            k as nat,
        )),
        lists[k].contains(buddy(a, k as nat) as usize) ==> !dealloc_lists(lists, a, k)[k].contains(
            a as usize,
        ),
        !lists[k].contains(buddy(a, k as nat) as usize) ==> dealloc_lists(lists, a, k)
            == lists.update(k, seq![a as usize] + lists[k]),
{
    let b = buddy(a, k as nat);
    let s = lists[k];
    let now = dealloc_lists(lists, a, k);
    lemma_buddy(a, k as nat);
    lemma_pow2_pos(k as nat);
    if s.contains(b as usize) {
        let j = s.index_of(b as usize);
        let l2 = lists.update(k, s.remove(j));
        lemma_dealloc_below(l2, if a < b { a } else { b }, k + 1, k);
        assert(now[k] == s.remove(j));
        assert(block_at(lists, k, j));
        lemma_index_of(lists, k, j, lo, hi);
        if s.contains(x) {
            let i = choose|i: int| 0 <= i < s.len() && s[i] == x;
            assert(block_at(lists, k, i));
            lemma_index_of(lists, k, i, lo, hi);
            if i != j {
                let i2 = if i < j { i } else { i - 1 };
                assert(now[k][i2] == x);
            } else if now[k].contains(x) {
                let i2 = choose|i2: int| 0 <= i2 < now[k].len() && now[k][i2] == x;
                let i0 = if i2 < j { i2 } else { i2 + 1 };
                assert(block_at(lists, k, i0) && s[i0] == x);
                lemma_index_of(lists, k, i0, lo, hi);
            }
        }
        lemma_distinct_from_list(lists, k, a as usize);
        if now[k].contains(a as usize) {
            let i2 = choose|i2: int| 0 <= i2 < now[k].len() && now[k][i2] == a as usize;
            let i0 = if i2 < j { i2 } else { i2 + 1 };
            assert(s[i0] == a as usize);
        }
    } else if s.contains(x) {
        let i = choose|i: int| 0 <= i < s.len() && s[i] == x;
        assert(now[k][i + 1] == x);
    }
}

/// In the largest bucket nothing is merged: a block of its order goes to the
/// front of the bucket, whether its buddy is free or not.
pub proof fn lemma_dealloc_top_bucket(lists: Seq<Seq<usize>>, a: int)
    requires
        lists.len() > 0,
    ensures
        dealloc_lists(lists, a, lists.len() - 1) == lists.update(
            lists.len() - 1,
            seq![a as usize] + lists[lists.len() - 1],
        ),
{
}

/// In a heap shorter than the block above the largest bucket, as `init` makes
/// it, a block of the largest bucket has no free buddy: the two would not fit.
/// So there the buddy, and only the buddy, leaves the bucket of every block that
/// is given back.
pub proof fn lemma_top_buddy_not_free(lists: Seq<Seq<usize>>, a: int, lo: int, hi: int)
    requires
        lists_valid(lists, lo, hi),
        lists.len() > 0,
        block_valid(a, lists.len() - 1, lo, hi),
        hi - lo < pow2(lists.len()),
        hi <= usize::MAX,
    ensures
        0 <= buddy(a, (lists.len() - 1) as nat) <= usize::MAX,
        !lists[lists.len() - 1].contains(buddy(a, (lists.len() - 1) as nat) as usize),
{
    let k = lists.len() - 1;
    let b = buddy(a, k as nat);
    lemma_buddy(a, k as nat);
    lemma_pow2_double(k as nat);
    if lists[k].contains(b as usize) {
        let j = lists[k].index_of(b as usize);
        assert(block_at(lists, k, j));
        assert(block_valid(lists[k][j] as int, k, lo, hi));
    }
}

/// The free lists after a block of order `k` at `a` and then its buddy have been
/// given back, neither of them free before: the first waits in bucket `k`, the
/// second takes it out again, and the two go on as one block of the next order.
proof fn lemma_dealloc_pair(lists: Seq<Seq<usize>>, a: int, k: int)
    requires
        0 <= k,
        k + 1 < lists.len(),
        aligned(a, k as nat),
        0 <= a <= usize::MAX,
        0 <= buddy(a, k as nat) <= usize::MAX,
        !lists[k].contains(a as usize),
        !lists[k].contains(buddy(a, k as nat) as usize),
    ensures
        dealloc_lists(dealloc_lists(lists, a, k), buddy(a, k as nat), k) == dealloc_lists(
            lists,
            if a < buddy(a, k as nat) { a } else { buddy(a, k as nat) },
            k + 1,
        ),
{
    let b = buddy(a, k as nat);
    lemma_buddy(a, k as nat);
    let first = lists.update(k, seq![a as usize] + lists[k]);
    assert(dealloc_lists(lists, a, k) == first);
    assert(first[k][0] == a as usize);
    assert(first[k].contains(a as usize));
    let j = first[k].index_of(a as usize);
    if j != 0 {
        assert(lists[k][j - 1] == a as usize);
    }
    assert(first.update(k, first[k].remove(0)) =~= lists) by {
        assert(first[k].remove(0) =~= lists[k]);
    }
}

/// Buddies may be given back in either order: where neither of two buddies is free
/// and a bucket above theirs exists, the free lists after both have been given
/// back are the same whichever went first, and they are the lists after the block
/// of the next order that the two make up has been given back.
pub proof fn lemma_buddies_merge_in_either_order(lists: Seq<Seq<usize>>, a: int, k: int)
    requires
        0 <= k,
        k + 1 < lists.len(),
        aligned(a, k as nat),
        0 <= a <= usize::MAX,
        0 <= buddy(a, k as nat) <= usize::MAX,
        !lists[k].contains(a as usize),
        !lists[k].contains(buddy(a, k as nat) as usize),
    ensures
        ({
            let b = buddy(a, k as nat);
            let low = if a < b { a } else { b };
            &&& dealloc_lists(dealloc_lists(lists, a, k), b, k) == dealloc_lists(lists, low, k + 1)
            &&& dealloc_lists(dealloc_lists(lists, b, k), a, k) == dealloc_lists(lists, low, k + 1)
        }),
{
    let b = buddy(a, k as nat);
    lemma_buddy(a, k as nat);
    lemma_dealloc_pair(lists, a, k);
    lemma_dealloc_pair(lists, b, k);
}

/// The free bytes are none exactly when every bucket is empty.
pub proof fn lemma_free_bytes_zero(lists: Seq<Seq<usize>>)
    ensures
        free_bytes(lists) == 0 <==> (forall|k: int| 0 <= k < lists.len()
            ==> (#[trigger] lists[k]).len() == 0),
    decreases lists.len(),
{
    if lists.len() > 0 {
        let front = lists.drop_last();
        let top = (lists.len() - 1) as nat;
        lemma_free_bytes_zero(front);
        lemma_pow2_pos(top);
        let n = lists.last().len() as int;
        let p = pow2(top) as int;
        assert(n * p == 0 <==> n == 0) by (nonlinear_arith)
            requires
                n >= 0,
                p > 0,
        ;
        if free_bytes(lists) == 0 {
            assert forall|k: int| 0 <= k < lists.len() implies (#[trigger] lists[k]).len() == 0 by {
                if k < top {
                    assert(front[k] == lists[k]);
                }
            }
        } else if forall|k: int| 0 <= k < lists.len() ==> (#[trigger] lists[k]).len() == 0 {
            assert(lists[top as int].len() == 0);
            assert forall|k: int| 0 <= k < front.len() implies (#[trigger] front[k]).len() == 0 by {
                assert(front[k] == lists[k]);
            }
        }
    }
}

/// The smallest block fails only on an exhausted heap: an allocation from the
/// bucket of the minimum block size succeeds exactly when a byte is free.
pub proof fn lemma_min_alloc_succeeds(lists: Seq<Seq<usize>>, lo: int, hi: int)
    requires
        lists_valid(lists, lo, hi),
    ensures
        alloc_block(lists, 4).is_some() <==> free_bytes(lists) > 0,
{
    lemma_first_nonempty(lists, 4);
    lemma_free_bytes_zero(lists);
    let i = first_nonempty(lists, 4);
    if free_bytes(lists) > 0 {
        let k = choose|k: int| 0 <= k < lists.len() && (#[trigger] lists[k]).len() != 0;
        assert(block_at(lists, k, 0));
        assert(block_valid(lists[k][0] as int, k, lo, hi));
    }
}

/// More than the heap is never handed out: an allocation from a bucket whose
/// blocks are larger than the heap fails.
pub proof fn lemma_alloc_too_large(lists: Seq<Seq<usize>>, lo: int, hi: int, k: int)
    requires
        lists_valid(lists, lo, hi),
        0 <= k,
        pow2(k as nat) > hi - lo,
    ensures
        alloc_block(lists, k).is_none(),
        alloc_lists(lists, k) == lists,
{
    lemma_first_nonempty(lists, k);
    let i = first_nonempty(lists, k);
    if i < lists.len() {
        assert(block_at(lists, i, 0));
        assert(block_valid(lists[i][0] as int, i, lo, hi));
        lemma_pow2_order(k as nat, i as nat);
    }
}

/// Handing over a region keeps the lists valid: a region between multiples of the
/// minimum block size that lies in the heap, meets no free block and is shorter
/// than the block above the largest bucket leaves valid lists, and what it adds
/// lies in the region.
pub proof fn lemma_add_region_valid(lists: Seq<Seq<usize>>, cur: int, end: int, lo: int, hi: int)
    requires
        lists_valid(lists, lo, hi),
        cur % 16 == 0,
        end % 16 == 0,
        0 <= cur <= end,
        lo <= cur,
        end <= hi <= usize::MAX,
        end - cur < pow2(lists.len()),
        no_block_meets(lists, cur, end),
    ensures
        lists_valid(add_region_lists(lists, cur, end), lo, hi),
        forall|x_lo: int, x_hi: int|
            no_block_meets(lists, x_lo, x_hi) && x_lo < x_hi && (x_hi <= cur || end <= x_lo)
                ==> #[trigger] no_block_meets(
                add_region_lists(lists, cur, end),
                x_lo,
                x_hi,
            ),
    decreases end - cur,
{
    if cur + 16 <= end {
        lemma2_to64();
        lemma_region_order_exists(cur, end, 4);
        let k = region_order(cur, end);
        lemma_pow2_order(k, lists.len());
        lemma_pow2_ge_16(k, cur);
        lemma_pow2_pos(k);
        let l2 = lists.update(k as int, seq![cur as usize] + lists[k as int]);
        lemma_push_valid(lists, k as int, cur as usize, lo, hi);
        assert forall|m: int, n: int| block_at(l2, m, n)
            implies (#[trigger] l2[m][n]) + pow2(m as nat) <= cur + pow2(
            k,
        ) || end <= l2[m][n] by {
            if m == k && n == 0 {
            } else {
                let n0 = if m == k { n - 1 } else { n };
                assert(block_at(lists, m, n0));
                assert(l2[m][n] == lists[m][n0]);
            }
        }
        lemma_add_region_valid(l2, cur + pow2(k), end, lo, hi);
        assert forall|x_lo: int, x_hi: int|
            no_block_meets(lists, x_lo, x_hi) && x_lo < x_hi && (x_hi <= cur
                || end <= x_lo) implies #[trigger] no_block_meets(
            add_region_lists(lists, cur, end),
            x_lo,
            x_hi,
        ) by {
            assert forall|m: int, n: int| block_at(l2, m, n)
                implies (#[trigger] l2[m][n]) + pow2(m as nat) <= x_lo
                || x_hi <= l2[m][n] by {
                if m == k && n == 0 {
                } else {
                    let n0 = if m == k { n - 1 } else { n };
                    assert(block_at(lists, m, n0));
                    assert(l2[m][n] == lists[m][n0]);
                }
            }
            assert(no_block_meets(l2, x_lo, x_hi));
        }
    }
}

/// A heap at its start: once the heap has been handed over and before anything is
/// allocated, the heap is consistent and balances at its size.
pub proof fn lemma_init_consistent(order: nat, start: int, end: int)
    requires
        start % 16 == 0,
        end % 16 == 0,
        0 <= start <= end <= usize::MAX,
        end - start < pow2(order),
    ensures
        heap_consistent(add_region_lists(empty_lists(order), start, end), Seq::empty(), start, end),
        balanced(add_region_lists(empty_lists(order), start, end), Seq::empty(), end - start),
{
    lemma_empty_lists_valid(order, start, end);
    lemma_add_region_valid(empty_lists(order), start, end, start, end);
    lemma_init_balanced(order, start, end);
}

/// Live blocks of the minimum size count sixteen bytes each.
pub proof fn lemma_live_bytes_min(live: Seq<LiveBlock>)
    requires
        forall|i: int| 0 <= i < live.len() ==> (#[trigger] live[i]).order == 4,
    ensures
        live_bytes(live) == 16 * live.len(),
    decreases live.len(),
{
    lemma2_to64();
    if live.len() > 0 {
        let front = live.drop_last();
        assert forall|i: int| 0 <= i < front.len() implies (#[trigger] front[i]).order == 4 by {
            assert(front[i] == live[i]);
        }
        lemma_live_bytes_min(front);
    }
}

/// Minimum blocks fill the heap exactly: while every live block is of the minimum
/// size, another one can be had exactly as long as fewer are live than the heap
/// has room for.
pub proof fn lemma_min_blocks_fill_heap(
    lists: Seq<Seq<usize>>,
    live: Seq<LiveBlock>,
    total: int,
    lo: int,
    hi: int,
)
    requires
        lists_valid(lists, lo, hi),
        balanced(lists, live, total),
        forall|i: int| 0 <= i < live.len() ==> (#[trigger] live[i]).order == 4,
    ensures
        16 * live.len() <= total,
        alloc_block(lists, 4).is_some() <==> 16 * live.len() < total,
{
    lemma_live_bytes_min(live);
    lemma_min_alloc_succeeds(lists, lo, hi);
}

/// The byte at `x` lies in a free block.
pub open spec fn free_byte(lists: Seq<Seq<usize>>, x: int) -> bool {
    exists|k: int, j: int|
        block_at(lists, k, j) && (#[trigger] lists[k][j]) <= x < lists[k][j] + pow2(k as nat)
}

/// Empty buckets free no byte.
pub proof fn lemma_nothing_free(n: nat, x: int)
    ensures
        !free_byte(empty_lists(n), x),
{
}

/// A block put in front of a bucket frees its bytes and no others.
pub proof fn lemma_free_byte_push(lists: Seq<Seq<usize>>, k: int, a: usize, x: int)
    requires
        0 <= k < lists.len(),
    ensures
        free_byte(lists.update(k, seq![a] + lists[k]), x) <==> free_byte(lists, x) || a <= x < a
            + pow2(k as nat),
{
    let l2 = lists.update(k, seq![a] + lists[k]);
    if a <= x < a + pow2(k as nat) {
        assert(block_at(l2, k, 0) && l2[k][0] == a);
    }
    if free_byte(lists, x) {
        let (m, n) = choose|m: int, n: int|
            block_at(lists, m, n) && (#[trigger] lists[m][n]) <= x < lists[m][n] + pow2(m as nat);
        let n2 = if m == k { n + 1 } else { n };
        assert(block_at(l2, m, n2) && l2[m][n2] == lists[m][n]);
    }
    if free_byte(l2, x) {
        let (m, n) = choose|m: int, n: int|
            block_at(l2, m, n) && (#[trigger] l2[m][n]) <= x < l2[m][n] + pow2(m as nat);
        if m != k || n > 0 {
            let n0 = if m == k { n - 1 } else { n };
            assert(block_at(lists, m, n0) && lists[m][n0] == l2[m][n]);
        }
    }
}

/// A block taken out of its bucket takes its bytes along and no others.
pub proof fn lemma_free_byte_remove(
    lists: Seq<Seq<usize>>,
    k: int,
    j: int,
    lo: int,
    hi: int,
    x: int,
)
    requires
        lists_valid(lists, lo, hi),
        block_at(lists, k, j),
    ensures
        free_byte(lists.update(k, lists[k].remove(j)), x) <==> free_byte(lists, x) && !(
        lists[k][j] <= x < lists[k][j] + pow2(k as nat)),
{
    let l2 = lists.update(k, lists[k].remove(j));
    lemma_remove_valid(lists, k, j, lo, hi);
    if free_byte(l2, x) {
        let (m, n) = choose|m: int, n: int|
            block_at(l2, m, n) && (#[trigger] l2[m][n]) <= x < l2[m][n] + pow2(m as nat);
        let n0 = if m == k && n >= j { n + 1 } else { n };
        assert(block_at(lists, m, n0) && lists[m][n0] == l2[m][n]);
    }
    if free_byte(lists, x) && !(lists[k][j] <= x < lists[k][j] + pow2(k as nat)) {
        let (m, n) = choose|m: int, n: int|
            block_at(lists, m, n) && (#[trigger] lists[m][n]) <= x < lists[m][n] + pow2(m as nat);
        let n2 = if m == k && n > j { n - 1 } else { n };
        assert(block_at(l2, m, n2) && l2[m][n2] == lists[m][n]);
    }
}

/// Handing over a region frees its bytes and no others: after a region between
/// multiples of the minimum block size, shorter than the block above the largest
/// bucket, has been handed over, a byte is free exactly when it was free before or
/// lies in the region.
pub proof fn lemma_add_region_frees(lists: Seq<Seq<usize>>, cur: int, end: int, x: int)
    requires
        cur % 16 == 0,
        end % 16 == 0,
        0 <= cur <= end <= usize::MAX,
        end - cur < pow2(lists.len()),
    ensures
        free_byte(add_region_lists(lists, cur, end), x) <==> free_byte(lists, x) || cur <= x < end,
    decreases end - cur,
{
    if cur + 16 <= end {
        lemma2_to64();
        lemma_region_order_exists(cur, end, 4);
        let k = region_order(cur, end);
        lemma_pow2_order(k, lists.len());
        lemma_pow2_ge_16(k, cur);
        lemma_pow2_pos(k);
        let l2 = lists.update(k as int, seq![cur as usize] + lists[k as int]);
        lemma_free_byte_push(lists, k as int, cur as usize, x);
        lemma_add_region_frees(l2, cur + pow2(k), end, x);
    }
}

/// Giving a block back frees its bytes and no others: a byte is free afterwards
/// exactly when it was free before or lies in the block. So the bytes that are
/// free after several blocks have been given back do not depend on the order in
/// which they went.
pub proof fn lemma_dealloc_frees(
    lists: Seq<Seq<usize>>,
    a: int,
    k: int,
    lo: int,
    hi: int,
    x: int,
)
    requires
        lists_valid(lists, lo, hi),
        0 <= k < lists.len(),
        block_valid(a, k, lo, hi),
        no_block_meets(lists, a, a + pow2(k as nat)),
        hi <= usize::MAX,
    ensures
        free_byte(dealloc_lists(lists, a, k), x) <==> free_byte(lists, x) || a <= x < a + pow2(
            k as nat,
        ),
    decreases lists.len() - k,
{
    let b = buddy(a, k as nat);
    lemma_buddy(a, k as nat);
    if k + 1 < lists.len() && 0 <= b <= usize::MAX && lists[k].contains(b as usize) {
        let j = lists[k].index_of(b as usize);
        let l2 = lists.update(k, lists[k].remove(j));
        let low = if a < b { a } else { b };
        assert(block_at(lists, k, j));
        lemma_remove_valid(lists, k, j, lo, hi);
        assert forall|m: int, n: int| block_at(l2, m, n)
            implies (#[trigger] l2[m][n]) + pow2(m as nat) <= low
            || low + pow2((k + 1) as nat) <= l2[m][n] by {
            let n0 = if m == k && n >= j { n + 1 } else { n };
            assert(block_at(lists, m, n0));
            assert(l2[m][n] == lists[m][n0]);
            lemma_pow2_pos(m as nat);
        }
        lemma_free_byte_remove(lists, k, j, lo, hi, x);
        lemma_dealloc_frees(l2, low, k + 1, lo, hi, x);
        if free_byte(lists, x) && b <= x < b + pow2(k as nat) {
        }
    } else {
        lemma_free_byte_push(lists, k, a as usize, x);
    }
}

/// Splitting takes the bytes of the part that is taken out and no others.
pub proof fn lemma_taken_takes(lists: Seq<Seq<usize>>, i: int, j: int, lo: int, hi: int, x: int)
    requires
        lists_valid(lists, lo, hi),
        block_at(lists, i, 0),
        4 <= j <= i,
        hi <= usize::MAX,
        forall|m: int| j <= m < i ==> (#[trigger] lists[m]).len() == 0,
    ensures
        free_byte(taken_lists(lists, i, j), x) <==> free_byte(lists, x) && !(lists[i][0] <= x
            < lists[i][0] + pow2(j as nat)),
    decreases i - j,
{
    let b = lists[i][0];
    if j == i {
        assert(taken_lists(lists, i, i) =~= lists.update(i, lists[i].remove(0)));
        lemma_free_byte_remove(lists, i, 0, lo, hi, x);
    } else {
        let up = taken_lists(lists, i, j + 1);
        lemma_taken_takes(lists, i, j + 1, lo, hi, x);
        lemma_pow2_double(j as nat);
        lemma_pow2_order((j + 1) as nat, i as nat);
        assert(block_valid(b as int, i, lo, hi));
        let upper = (b + pow2(j as nat)) as usize;
        assert(up[j] =~= Seq::<usize>::empty());
        let now = up.update(j, seq![upper] + up[j]);
        assert(taken_lists(lists, i, j) =~= now);
        lemma_free_byte_push(up, j, upper, x);
        if upper <= x < upper + pow2(j as nat) {
            assert(block_at(lists, i, 0) && lists[i][0] <= x < lists[i][0] + pow2(i as nat));
        }
    }
}

/// An allocation takes the bytes of the block it returns and no others: a byte is
/// free afterwards exactly when it was free before and does not lie in the block.
pub proof fn lemma_alloc_takes(lists: Seq<Seq<usize>>, k: int, lo: int, hi: int, x: int)
    requires
        lists_valid(lists, lo, hi),
        4 <= k,
        hi <= usize::MAX,
    ensures
        alloc_block(lists, k) matches Some(a) ==> (free_byte(alloc_lists(lists, k), x)
            <==> free_byte(lists, x) && !(a <= x < a + pow2(k as nat))),
{
    lemma_first_nonempty(lists, k);
    let i = first_nonempty(lists, k);
    if i < lists.len() {
        assert(alloc_lists(lists, k) =~= taken_lists(lists, i, k));
        lemma_taken_takes(lists, i, k, lo, hi, x);
    }
}

/// What is in use holds no link: a word in a range of whole minimum blocks that
/// meets no free block is not a link word of a free block.
pub proof fn lemma_used_words_hold_no_links(
    lists: Seq<Seq<usize>>,
    lo: int,
    hi: int,
    x_lo: int,
    x_hi: int,
    x: int,
)
    requires
        lists_valid(lists, lo, hi),
        no_block_meets(lists, x_lo, x_hi),
        x_lo % 16 == 0,
        x_lo <= x < x_hi,
    ensures
        !link_word(lists, x),
{
    if link_word(lists, x) {
        let a = x - x % 16;
        let (k, j) = choose|k: int, j: int| block_at(lists, k, j) && (#[trigger] lists[k][j]) == a;
        assert(block_valid(lists[k][j] as int, k, lo, hi));
        lemma_pow2_ge_16(k as nat, a);
    }
}

} // verus!
