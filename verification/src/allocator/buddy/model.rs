//! The buddy system as mathematics: free lists as sequences of addresses, and what
//! allocating, giving back and handing over a region do to them.

use crate::allocator::arena::Arena;
use crate::allocator::power::{
    aligned, buddy, is_power_of_two, lemma_aligned_below, lemma_log2_ceil, lemma_pow2_double,
    lemma_pow2_fits_word, lemma_pow2_ge_16, lemma_pow2_order, log2_ceil,
};
use vstd::arithmetic::power2::{lemma2_to64, lemma_pow2_pos, pow2};
use vstd::prelude::*;

verus! {

/// Smallest block handed out, in bytes: room for the two link words of a free block.
pub const MIN_BLOCK_SIZE: usize = 16;

/// `lists[k][j]` exists.
pub open spec fn block_at(lists: Seq<Seq<usize>>, k: int, j: int) -> bool {
    0 <= k < lists.len() && 0 <= j < lists[k].len()
}

/// A block of order `k` at `a` is no smaller than the minimum, aligned to its own
/// size, and inside `[lo, hi)`.
pub open spec fn block_valid(a: int, k: int, lo: int, hi: int) -> bool {
    &&& 4 <= k
    &&& a % (pow2(k as nat) as int) == 0
    &&& 0 <= a
    &&& lo <= a
    &&& a + pow2(k as nat) <= hi
}

/// The block of order `k1` at `a1` and the block of order `k2` at `a2` share no byte.
pub open spec fn apart(a1: int, k1: int, a2: int, k2: int) -> bool {
    a1 + pow2(k1 as nat) <= a2 || a2 + pow2(k2 as nat) <= a1
}

/// No free block of `lists` has a byte in `[lo, hi)`.
pub open spec fn no_block_meets(lists: Seq<Seq<usize>>, lo: int, hi: int) -> bool {
    forall|k: int, j: int|
        block_at(lists, k, j)
            ==> (#[trigger] lists[k][j]) + pow2(k as nat) <= lo || hi <= lists[k][j]
}

/// Bucket `k` holds blocks of size `2^k`; every block is valid for the heap
/// `[lo, hi)` and no two blocks overlap.
pub open spec fn lists_valid(lists: Seq<Seq<usize>>, lo: int, hi: int) -> bool {
    &&& forall|k: int, j: int|
        block_at(lists, k, j) ==> block_valid(#[trigger] lists[k][j] as int, k, lo, hi)
    &&& forall|k1: int, j1: int, k2: int, j2: int|
        #![trigger lists[k1][j1], lists[k2][j2]]
        block_at(lists, k1, j1) && block_at(lists, k2, j2) && (k1 != k2 || j1 != j2) ==> apart(
            lists[k1][j1] as int,
            k1,
            lists[k2][j2] as int,
            k2,
        )
}

/// `n` empty buckets.
pub open spec fn empty_lists(n: nat) -> Seq<Seq<usize>> {
    Seq::new(n, |k: int| Seq::<usize>::empty())
}

/// Bucket that serves a request of `size` bytes aligned to `align`: the block size
/// is the largest of the size rounded up to a power of two, the minimum block
/// size and the alignment.
pub open spec fn block_order(size: nat, align: nat) -> nat {
    let by_size = if log2_ceil(size) < 4 { 4 } else { log2_ceil(size) };
    if by_size < log2_ceil(align) { log2_ceil(align) } else { by_size }
}

/// First bucket at or above `k` that holds a block; the number of buckets if there
/// is none.
pub open spec fn first_nonempty(lists: Seq<Seq<usize>>, k: int) -> int
    decreases lists.len() - k,
{
    if k < 0 || k >= lists.len() {
        lists.len() as int
    } else if lists[k].len() > 0 {
        k
    } else {
        first_nonempty(lists, k + 1)
    }
}

/// The block an allocation from bucket `k` returns: the head of the first bucket
/// at or above `k` that is not empty.
pub open spec fn alloc_block(lists: Seq<Seq<usize>>, k: int) -> Option<usize> {
    let i = first_nonempty(lists, k);
    if i < lists.len() {
        Some(lists[i][0])
    } else {
        None
    }
}

/// The free lists after an allocation from bucket `k`. The block found in bucket
/// `i` leaves it; each bucket from `k` up to `i`, empty until then, receives the
/// upper half that one split leaves behind.
pub open spec fn alloc_lists(lists: Seq<Seq<usize>>, k: int) -> Seq<Seq<usize>> {
    let i = first_nonempty(lists, k);
    if i < lists.len() {
        let b = lists[i][0];
        Seq::new(
            lists.len(),
            |m: int|
                if m == i {
                    lists[i].remove(0)
                } else if k <= m < i {
                    seq![(b + pow2(m as nat)) as usize]
                } else {
                    lists[m]
                },
        )
    } else {
        lists
    }
}

/// The free lists after the block of order `k` at `a` is given back. While the
/// block's buddy is free and a bucket above exists, the buddy leaves its bucket,
/// the two become one block at the lower address, and the search goes on one
/// bucket up; the block that remains goes to the front of its bucket.
pub open spec fn dealloc_lists(lists: Seq<Seq<usize>>, a: int, k: int) -> Seq<Seq<usize>>
    decreases lists.len() - k,
{
    if k < 0 || k >= lists.len() {
        lists
    } else {
        let b = buddy(a, k as nat);
        if k + 1 < lists.len() && 0 <= b <= usize::MAX && lists[k].contains(b as usize) {
            let j = lists[k].index_of(b as usize);
            dealloc_lists(lists.update(k, lists[k].remove(j)), if a < b { a } else { b }, k + 1)
        } else {
            lists.update(k, seq![a as usize] + lists[k])
        }
    }
}

/// A block of order `k` can start the region `[cur, end)`: `cur` is aligned to its
/// size and it ends within the region.
pub open spec fn block_fits(cur: int, end: int, k: nat) -> bool {
    aligned(cur, k) && cur + pow2(k) <= end
}

/// A block of order `k` can start the region `[cur, end)` and one of the next order
/// cannot.
pub open spec fn is_region_order(cur: int, end: int, k: nat) -> bool {
    block_fits(cur, end, k) && !block_fits(cur, end, k + 1)
}

/// Order of the largest block that can start the region `[cur, end)`.
pub open spec fn region_order(cur: int, end: int) -> nat {
    choose|k: nat| is_region_order(cur, end, k)
}

/// `a` rounded up to a multiple of the minimum block size.
pub open spec fn round_up_min(a: int) -> int {
    (a + 15) / 16 * 16
}

/// `a` rounded down to a multiple of the minimum block size.
pub open spec fn round_down_min(a: int) -> int {
    a / 16 * 16
}

/// The free lists after the region `[cur, end)` has been handed over: as long as a
/// minimum block fits, the largest block that can start the region goes to the
/// front of its bucket and the region goes on behind it.
pub open spec fn add_region_lists(lists: Seq<Seq<usize>>, cur: int, end: int) -> Seq<Seq<usize>>
    decreases end - cur,
{
    let k = region_order(cur, end);
    if cur + 16 > end || k >= lists.len() || !block_fits(cur, end, k) {
        lists
    } else {
        proof {
            lemma_pow2_pos(k);
        }
        add_region_lists(lists.update(k as int, seq![cur as usize] + lists[k as int]),
            cur + pow2(k), end)
    }
}

/// The block that serves a request is the smallest that can: it holds the size
/// and the alignment asked for and is no smaller than the minimum block, and a
/// block of half its size would fail one of the three.
pub proof fn lemma_block_order(size: nat, align: nat)
    ensures
        4 <= block_order(size, align),
        size <= pow2(block_order(size, align)),
        align <= pow2(block_order(size, align)),
        block_order(size, align) == 4 || pow2((block_order(size, align) - 1) as nat) < size || pow2(
            (block_order(size, align) - 1) as nat,
        ) < align,
{
    let k = block_order(size, align);
    lemma2_to64();
    lemma_log2_ceil(size);
    lemma_log2_ceil(align);
    lemma_pow2_order(log2_ceil(size), k);
    lemma_pow2_order(log2_ceil(align), k);
}

/// Empty buckets are valid for any heap.
pub proof fn lemma_empty_lists_valid(n: nat, lo: int, hi: int)
    ensures
        lists_valid(empty_lists(n), lo, hi),
        no_block_meets(empty_lists(n), lo, hi),
{
    let lists = empty_lists(n);
    assert forall|k: int, j: int| !block_at(lists, k, j) by {
        if 0 <= k < lists.len() {
            assert(lists[k].len() == 0);
        }
    }
}

/// A block at `a` stands in one of the buckets.
pub open spec fn listed(lists: Seq<Seq<usize>>, a: int) -> bool {
    exists|k: int, j: int| block_at(lists, k, j) && (#[trigger] lists[k][j]) == a
}

/// The word at `x` is one of the two link words of a block that stands in one of
/// the buckets: the first two words of the block.
pub open spec fn link_word(lists: Seq<Seq<usize>>, x: int) -> bool {
    listed(lists, x - x % 16)
}

/// The first two words of a free block are link words.
pub proof fn lemma_link_words_at(lists: Seq<Seq<usize>>, k: int, j: int, lo: int, hi: int)
    requires
        lists_valid(lists, lo, hi),
        block_at(lists, k, j),
    ensures
        lists[k][j] % 16 == 0,
        listed(lists, lists[k][j] as int),
        link_word(lists, lists[k][j] as int),
        link_word(lists, lists[k][j] + 8),
{
    lemma_pow2_ge_16(k as nat, lists[k][j] as int);
    assert(block_valid(lists[k][j] as int, k, lo, hi));
}

/// With a block taken out, the blocks that stand in the buckets are among those
/// that stood there before.
pub proof fn lemma_listed_remove(lists: Seq<Seq<usize>>, k: int, j: int)
    requires
        block_at(lists, k, j),
    ensures
        forall|a: int|
            #[trigger] listed(lists.update(k, lists[k].remove(j)), a) ==> listed(lists, a),
{
    let l2 = lists.update(k, lists[k].remove(j));
    assert forall|a: int| #[trigger] listed(l2, a) implies listed(lists, a) by {
        let (k1, j1) = choose|k1: int, j1: int|
            block_at(l2, k1, j1) && (#[trigger] l2[k1][j1]) == a;
        let i1 = if k1 == k && j1 >= j { j1 + 1 } else { j1 };
        assert(block_at(lists, k1, i1));
        assert(lists[k1][i1] == a);
    }
}

/// With a block put in front of a bucket, the blocks that stand in the buckets are
/// that block and those that stood there before.
pub proof fn lemma_listed_push(lists: Seq<Seq<usize>>, k: int, b: usize)
    requires
        0 <= k < lists.len(),
    ensures
        forall|a: int|
            #[trigger] listed(lists.update(k, seq![b] + lists[k]), a)
                ==> listed(lists, a) || a == b,
        listed(lists.update(k, seq![b] + lists[k]), b as int),
{
    let l2 = lists.update(k, seq![b] + lists[k]);
    assert forall|a: int| #[trigger] listed(l2, a) implies listed(lists, a) || a == b by {
        let (k1, j1) = choose|k1: int, j1: int|
            block_at(l2, k1, j1) && (#[trigger] l2[k1][j1]) == a;
        if k1 == k && j1 == 0 {
        } else {
            let i1 = if k1 == k { j1 - 1 } else { j1 };
            assert(block_at(lists, k1, i1));
            assert(lists[k1][i1] == a);
        }
    }
    assert(block_at(l2, k, 0));
    assert(l2[k][0] == b);
}

/// What changes only in words that are link words of listed blocks, or of the
/// block at `extra`, leaves every other word as it was.
pub proof fn lemma_frame_by_links(
    before: &Arena,
    after: &Arena,
    lists: Seq<Seq<usize>>,
    touched: Set<int>,
    extra: int,
)
    requires
        forall|x: int|
            before.holds(x) && !touched.contains(x) ==> #[trigger] after.word(x) == before.word(x),
        forall|x: int|
            #[trigger] touched.contains(x) ==> link_word(lists, x) || x == extra || x == extra + 8,
    ensures
        forall|x: int|
            before.holds(x) && !link_word(lists, x) && x != extra && x != extra + 8
                ==> #[trigger] after.word(x) == before.word(x),
{
}

/// Words outside the link words of the blocks in `allowed` hold in `after` what
/// they held in `before`.
pub open spec fn kept_outside(before: &Arena, after: &Arena, allowed: Set<int>) -> bool {
    forall|x: int|
        before.holds(x) && !allowed.contains(x - x % 16)
            ==> #[trigger] after.word(x) == before.word(x)
}

/// One more step that writes only link words of allowed blocks keeps what was
/// kept so far.
pub proof fn lemma_kept_step(
    first: &Arena,
    before: &Arena,
    after: &Arena,
    state: Seq<Seq<usize>>,
    extra: int,
    allowed: Set<int>,
)
    requires
        kept_outside(first, before, allowed),
        first.same_extent(before),
        forall|x: int|
            before.holds(x) && !link_word(state, x) && x != extra && x != extra + 8
                ==> #[trigger] after.word(x) == before.word(x),
        forall|a: int| #[trigger] listed(state, a) ==> allowed.contains(a),
        allowed.contains(extra),
        extra % 16 == 0,
    ensures
        kept_outside(first, after, allowed),
{
    assert forall|x: int| first.holds(x) && !allowed.contains(x - x % 16)
        implies #[trigger] after.word(x) == first.word(x) by {
        assert(!listed(state, x - x % 16));
        assert(before.word(x) == first.word(x));
    }
}

/// Lists that are valid for a heap are valid for a heap that holds it; lists that
/// are valid for an empty heap are empty, and valid for any.
pub proof fn lemma_lists_widen(lists: Seq<Seq<usize>>, lo: int, hi: int, lo2: int, hi2: int)
    requires
        lists_valid(lists, lo, hi),
        lo >= hi || (lo2 <= lo && hi <= hi2),
    ensures
        lists_valid(lists, lo2, hi2),
{
    assert forall|k: int, j: int| block_at(lists, k, j) implies block_valid(
        #[trigger] lists[k][j] as int,
        k,
        lo2,
        hi2,
    ) && lo < hi by {
        assert(block_valid(lists[k][j] as int, k, lo, hi));
        lemma_pow2_pos(k as nat);
    }
}

/// Taking a block out keeps the lists valid; the block is valid and meets none of
/// the blocks that stay.
pub proof fn lemma_remove_valid(lists: Seq<Seq<usize>>, k: int, j: int, lo: int, hi: int)
    requires
        lists_valid(lists, lo, hi),
        block_at(lists, k, j),
    ensures
        lists_valid(lists.update(k, lists[k].remove(j)), lo, hi),
        block_valid(lists[k][j] as int, k, lo, hi),
        no_block_meets(lists.update(k, lists[k].remove(j)), lists[k][j] as int,
            lists[k][j] + pow2(k as nat)),
{
    let l2 = lists.update(k, lists[k].remove(j));
    let a = lists[k][j];
    assert forall|k1: int, j1: int| block_at(l2, k1, j1) implies block_valid(
        #[trigger] l2[k1][j1] as int,
        k1,
        lo,
        hi,
    ) && (l2[k1][j1] + pow2(k1 as nat) <= a || a + pow2(k as nat) <= l2[k1][j1]) by {
        let i1 = if k1 == k && j1 >= j { j1 + 1 } else { j1 };
        assert(block_at(lists, k1, i1));
        assert(l2[k1][j1] == lists[k1][i1]);
        assert(apart(lists[k1][i1] as int, k1, lists[k][j] as int, k));
    }
    assert forall|k1: int, j1: int, k2: int, j2: int|
        #![trigger l2[k1][j1], l2[k2][j2]]
        block_at(l2, k1, j1) && block_at(l2, k2, j2) && (k1 != k2 || j1 != j2) implies apart(
        l2[k1][j1] as int,
        k1,
        l2[k2][j2] as int,
        k2,
    ) by {
        let i1 = if k1 == k && j1 >= j { j1 + 1 } else { j1 };
        let i2 = if k2 == k && j2 >= j { j2 + 1 } else { j2 };
        assert(block_at(lists, k1, i1));
        assert(l2[k1][j1] == lists[k1][i1]);
        assert(block_at(lists, k2, i2));
        assert(l2[k2][j2] == lists[k2][i2]);
    }
}

/// A block that meets no free block differs from every block of bucket `k`.
pub proof fn lemma_distinct_from_list(lists: Seq<Seq<usize>>, k: int, a: usize)
    requires
        0 <= k < lists.len(),
        no_block_meets(lists, a as int, a + pow2(k as nat)),
    ensures
        !lists[k].contains(a),
{
    lemma_pow2_pos(k as nat);
    assert forall|j: int| 0 <= j < lists[k].len() implies lists[k][j] != a by {
        assert(block_at(lists, k, j));
    }
}

/// Pushing a valid block that meets no free block keeps the lists valid.
pub proof fn lemma_push_valid(lists: Seq<Seq<usize>>, k: int, a: usize, lo: int, hi: int)
    requires
        lists_valid(lists, lo, hi),
        0 <= k < lists.len(),
        block_valid(a as int, k, lo, hi),
        no_block_meets(lists, a as int, a + pow2(k as nat)),
    ensures
        lists_valid(lists.update(k, seq![a] + lists[k]), lo, hi),
{
    let l2 = lists.update(k, seq![a] + lists[k]);
    assert forall|k1: int, j1: int| block_at(l2, k1, j1) implies block_valid(
        #[trigger] l2[k1][j1] as int,
        k1,
        lo,
        hi,
    ) by {
        if k1 == k && j1 > 0 {
            assert(block_at(lists, k1, j1 - 1));
            assert(l2[k1][j1] == lists[k1][j1 - 1]);
        } else if k1 != k {
            assert(block_at(lists, k1, j1));
        }
    }
    assert forall|k1: int, j1: int, k2: int, j2: int|
        #![trigger l2[k1][j1], l2[k2][j2]]
        block_at(l2, k1, j1) && block_at(l2, k2, j2) && (k1 != k2 || j1 != j2) implies apart(
        l2[k1][j1] as int,
        k1,
        l2[k2][j2] as int,
        k2,
    ) by {
        let i1 = if k1 == k { j1 - 1 } else { j1 };
        let i2 = if k2 == k { j2 - 1 } else { j2 };
        if i1 >= 0 {
            assert(block_at(lists, k1, i1));
            assert(l2[k1][j1] == lists[k1][i1]);
        }
        if i2 >= 0 {
            assert(block_at(lists, k2, i2));
            assert(l2[k2][j2] == lists[k2][i2]);
        }
    }
}

/// The free lists while an allocation that found its block in bucket `i` has split
/// it down to bucket `j`: the buckets between hold one upper half each, and bucket
/// `j` holds the block in front of its own upper half.
pub open spec fn split_lists(lists: Seq<Seq<usize>>, i: int, j: int) -> Seq<Seq<usize>> {
    let b = lists[i][0];
    Seq::new(
        lists.len(),
        |m: int|
            if j == i {
                lists[m]
            } else if m == i {
                lists[i].remove(0)
            } else if j < m < i {
                seq![(b + pow2(m as nat)) as usize]
            } else if m == j {
                seq![b, (b + pow2(m as nat)) as usize]
            } else {
                lists[m]
            },
    )
}

/// A valid block of order `k` leaves room for its size in a machine word, and
/// one above the lowest address for twice its size: it starts at or above `2^k`,
/// so `2^(k+1)` still fits.
pub proof fn lemma_block_fits(a: int, k: nat, lo: int, hi: int)
    requires
        block_valid(a, k as int, lo, hi),
        hi <= usize::MAX,
    ensures
        k < usize::BITS,
        a > 0 ==> k + 1 < usize::BITS && a >= pow2(k),
        aligned(a, k),
{
    lemma_pow2_pos(k);
    if 0 < a < pow2(k) {
        vstd::arithmetic::div_mod::lemma_small_mod(a as nat, pow2(k));
    }
    lemma_pow2_double(k);
    lemma_pow2_fits_word(k + 1);
    lemma_pow2_fits_word(k);
}

/// In valid lists a block stands at one position only, so the position at which
/// it was found is the position `index_of` names.
pub proof fn lemma_index_of(lists: Seq<Seq<usize>>, k: int, j: int, lo: int, hi: int)
    requires
        lists_valid(lists, lo, hi),
        block_at(lists, k, j),
    ensures
        lists[k].index_of(lists[k][j]) == j,
        lists[k].contains(lists[k][j]),
{
    let s = lists[k];
    let i = s.index_of(s[j]);
    assert(s.contains(s[j]));
    lemma_pow2_pos(k as nat);
    if i != j {
        assert(block_at(lists, k, i));
        assert(apart(lists[k][i] as int, k, lists[k][j] as int, k));
    }
}

/// The minimum block size is `2^4`.
pub proof fn lemma_min_block_is_power()
    ensures
        is_power_of_two(MIN_BLOCK_SIZE as int),
        MIN_BLOCK_SIZE == pow2(4),
{
    lemma2_to64();
}

/// The order that fits the start of a region while the next one does not is the
/// region's order.
pub proof fn lemma_region_order(cur: int, end: int, k: nat)
    requires
        block_fits(cur, end, k),
        !block_fits(cur, end, k + 1),
    ensures
        region_order(cur, end) == k,
{
    assert(is_region_order(cur, end, k));
    let r = region_order(cur, end);
    if r < k {
        lemma_aligned_below(cur, k, r + 1);
        lemma_pow2_order(r + 1, k);
    } else if k < r {
        lemma_aligned_below(cur, r, k + 1);
        lemma_pow2_order(k + 1, r);
    }
}

/// A region too short for a minimum block adds nothing.
pub proof fn lemma_region_done(lists: Seq<Seq<usize>>, cur: int, end: int)
    requires
        cur + 16 > end,
    ensures
        add_region_lists(lists, cur, end) == lists,
{
}

/// While a block is being split, every block that stands in a bucket either stood
/// in one before the allocation or stands in one after it.
pub proof fn lemma_split_listed(lists: Seq<Seq<usize>>, k: int, i: int, j: int)
    requires
        0 <= k <= j <= i,
        block_at(lists, i, 0),
        first_nonempty(lists, k) == i,
    ensures
        forall|a: int|
            #[trigger] listed(split_lists(lists, i, j), a) ==> listed(lists, a) || listed(
                alloc_lists(lists, k),
                a,
            ),
{
    let cur = split_lists(lists, i, j);
    let goal = alloc_lists(lists, k);
    assert forall|a: int| #[trigger] listed(cur, a) implies listed(lists, a) || listed(goal, a) by {
        let (m, n) = choose|m: int, n: int| block_at(cur, m, n) && (#[trigger] cur[m][n]) == a;
        if j == i {
            assert(block_at(lists, m, n) && lists[m][n] == a);
        } else if m == i {
            assert(block_at(lists, i, n + 1) && lists[i][n + 1] == a);
        } else if j < m < i || (m == j && n == 1) {
            assert(block_at(goal, m, 0) && goal[m][0] == a);
        } else if m == j {
            assert(lists[i][0] == a);
        } else {
            assert(block_at(lists, m, n) && lists[m][n] == a);
        }
    }
}

} // verus!
