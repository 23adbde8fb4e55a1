//! Powers of two as machine words, and the alignment facts the allocators rest on.

use vstd::arithmetic::div_mod::{
    lemma_fundamental_div_mod, lemma_fundamental_div_mod_converse_mod, lemma_mod_self_0,
    lemma_small_mod,
};
use vstd::arithmetic::power2::{
    lemma2_to64, lemma2_to64_rest, lemma_pow2_pos, lemma_pow2_strictly_increases, lemma_pow2_unfold,
    pow2,
};
use vstd::bits::{
    lemma_usize_low_bits_mask_is_mod, lemma_usize_pow2_no_overflow, lemma_usize_shl_is_mul,
    low_bits_mask,
};
use vstd::prelude::*;

verus! {

/// `n` is `2^k` for some `k`.
pub open spec fn is_power_of_two(n: int) -> bool {
    exists|k: nat| n == #[trigger] pow2(k)
}

/// `a` is a multiple of `2^k`.
pub open spec fn aligned(a: int, k: nat) -> bool {
    a % (pow2(k) as int) == 0
}

/// The other half of the block of order `k + 1` that holds the block of order `k`
/// at `a`: above `a` when `a` starts the larger block, below it otherwise.
pub open spec fn buddy(a: int, k: nat) -> int {
    if aligned(a, k + 1) {
        a + pow2(k)
    } else {
        a - pow2(k)
    }
}

/// The least `k` with `n <= 2^k`.
pub open spec fn log2_ceil(n: nat) -> nat
    decreases n,
{
    if n <= 1 {
        0
    } else {
        log2_ceil((n + 1) / 2) + 1
    }
}

/// The greatest `k` with `2^k <= n`, for `n` at least one.
pub open spec fn log2_floor(n: nat) -> nat
    decreases n,
{
    if n <= 1 {
        0
    } else {
        log2_floor(n / 2) + 1
    }
}

/// `2^k` fits a machine word exactly when `k` is below the word's width.
pub proof fn lemma_pow2_fits_word(k: nat)
    ensures
        pow2(k) <= usize::MAX <==> k < usize::BITS,
        pow2(k) > 0,
{
    lemma_pow2_pos(k);
    lemma2_to64();
    lemma2_to64_rest();
    if k < usize::BITS {
        lemma_usize_pow2_no_overflow(k);
    } else if k > usize::BITS {
        lemma_pow2_strictly_increases(usize::BITS as nat, k);
    }
}

/// `2^(k+1)` is twice `2^k`.
pub proof fn lemma_pow2_double(k: nat)
    ensures
        pow2(k + 1) == 2 * pow2(k),
        pow2(k) > 0,
{
    lemma_pow2_unfold(k + 1);
    lemma_pow2_pos(k);
}

/// `2^i <= 2^j` exactly when `i <= j`.
pub proof fn lemma_pow2_order(i: nat, j: nat)
    ensures
        i <= j <==> pow2(i) <= pow2(j),
        i < j <==> pow2(i) < pow2(j),
{
    if i < j {
        lemma_pow2_strictly_increases(i, j);
    } else if j < i {
        lemma_pow2_strictly_increases(j, i);
    }
}

/// A multiple of `p` is, modulo `2p`, either `0` or `p`.
pub proof fn lemma_mod_double(a: int, p: int)
    requires
        p > 0,
        a % p == 0,
    ensures
        a % (2 * p) == 0 || a % (2 * p) == p,
        a % (2 * p) == 0 ==> (a + p) % (2 * p) == p,
        a % (2 * p) == p ==> (a - p) % (2 * p) == 0,
{
    lemma_fundamental_div_mod(a, p);
    let q = a / p;
    let h = q / 2;
    assert(a == p * q);
    if q % 2 == 0 {
        assert(q == 2 * h);
        assert(a == h * (2 * p) + 0) by (nonlinear_arith)
            requires
                a == p * q,
                q == 2 * h,
        ;
        lemma_fundamental_div_mod_converse_mod(a, 2 * p, h, 0);
        assert(a + p == h * (2 * p) + p);
        lemma_fundamental_div_mod_converse_mod(a + p, 2 * p, h, p);
    } else {
        assert(q == 2 * h + 1);
        assert(a == h * (2 * p) + p) by (nonlinear_arith)
            requires
                a == p * q,
                q == 2 * h + 1,
        ;
        lemma_fundamental_div_mod_converse_mod(a, 2 * p, h, p);
        assert(a - p == h * (2 * p) + 0);
        lemma_fundamental_div_mod_converse_mod(a - p, 2 * p, h, 0);
    }
}

/// A multiple of `2p` is a multiple of `p`, and so is what lies `p` above it.
pub proof fn lemma_mod_halve(a: int, p: int)
    requires
        p > 0,
        a % (2 * p) == 0,
    ensures
        a % p == 0,
        (a + p) % p == 0,
{
    lemma_fundamental_div_mod(a, 2 * p);
    let q = a / (2 * p);
    assert(a == (2 * q) * p + 0) by (nonlinear_arith)
        requires
            a == (2 * p) * q,
    ;
    lemma_fundamental_div_mod_converse_mod(a, p, 2 * q, 0);
    assert(a + p == (2 * q + 1) * p + 0) by (nonlinear_arith)
        requires
            a == (2 * p) * q,
    ;
    lemma_fundamental_div_mod_converse_mod(a + p, p, 2 * q + 1, 0);
}

/// Adding or taking away `p` keeps a multiple of `p` one.
pub proof fn lemma_mod_step(a: int, p: int)
    requires
        p > 0,
        a % p == 0,
    ensures
        (a + p) % p == 0,
        (a - p) % p == 0,
{
    lemma_fundamental_div_mod(a, p);
    let q = a / p;
    assert(a + p == (q + 1) * p + 0) by (nonlinear_arith)
        requires
            a == p * q,
    ;
    lemma_fundamental_div_mod_converse_mod(a + p, p, q + 1, 0);
    assert(a - p == (q - 1) * p + 0) by (nonlinear_arith)
        requires
            a == p * q,
    ;
    lemma_fundamental_div_mod_converse_mod(a - p, p, q - 1, 0);
}

/// Halving a block: both halves of an aligned block of order `k + 1` are aligned
/// blocks of order `k`, and each is the other's buddy.
pub proof fn lemma_split(a: int, k: nat)
    requires
        aligned(a, k + 1),
    ensures
        aligned(a, k),
        aligned(a + pow2(k), k),
        buddy(a, k) == a + pow2(k),
        buddy(a + pow2(k), k) == a,
{
    lemma_pow2_double(k);
    let p = pow2(k) as int;
    lemma_mod_halve(a, p);
    lemma_mod_double(a, p);
}

/// Joining buddies: the buddy of an aligned block of order `k` is aligned, the two
/// are each other's buddy, and the lower of them starts an aligned block of order
/// `k + 1` that is exactly their union.
pub proof fn lemma_buddy(a: int, k: nat)
    requires
        aligned(a, k),
    ensures
        aligned(buddy(a, k), k),
        buddy(buddy(a, k), k) == a,
        aligned(if a < buddy(a, k) { a } else { buddy(a, k) }, k + 1),
        buddy(a, k) == a + pow2(k) || buddy(a, k) == a - pow2(k),
        pow2(k + 1) == 2 * pow2(k),
        pow2(k) > 0,
        a >= 0 ==> buddy(a, k) >= 0,
{
    lemma_pow2_double(k);
    let p = pow2(k) as int;
    lemma_mod_double(a, p);
    lemma_mod_step(a, p);
    if aligned(a, k + 1) {
        lemma_mod_double(a + p, p);
    } else {
        lemma_mod_double(a - p, p);
        if a >= 0 && a - p < 0 {
            lemma_small_mod(a as nat, (2 * p) as nat);
        }
    }
}

/// `log2_ceil(n)` is the least exponent whose power of two reaches `n`.
pub proof fn lemma_log2_ceil(n: nat)
    ensures
        n <= pow2(log2_ceil(n)),
        n > 1 ==> log2_ceil(n) > 0 && pow2((log2_ceil(n) - 1) as nat) < n,
    decreases n,
{
    lemma2_to64();
    if n > 1 {
        let m = (n + 1) / 2;
        lemma_log2_ceil(m);
        let c = log2_ceil(m);
        lemma_pow2_double(c);
        if m > 1 {
            lemma_pow2_double((c - 1) as nat);
        }
    }
}

/// Whatever exponent is the least to reach `n` is `log2_ceil(n)`.
pub proof fn lemma_log2_ceil_unique(n: nat, k: nat)
    requires
        n <= pow2(k),
        k == 0 || pow2((k - 1) as nat) < n,
    ensures
        k == log2_ceil(n),
{
    lemma_log2_ceil(n);
    lemma2_to64();
    let c = log2_ceil(n);
    if k < c {
        lemma_pow2_order(k, (c - 1) as nat);
    } else if c < k {
        lemma_pow2_order(c, (k - 1) as nat);
    }
}

/// `log2_floor(n)` is the greatest exponent whose power of two does not pass `n`.
pub proof fn lemma_log2_floor(n: nat)
    requires
        n >= 1,
    ensures
        pow2(log2_floor(n)) <= n < 2 * pow2(log2_floor(n)),
    decreases n,
{
    lemma2_to64();
    if n > 1 {
        lemma_log2_floor(n / 2);
        lemma_pow2_double(log2_floor(n / 2));
    }
}

/// Whatever exponent is the greatest not to pass `n` is `log2_floor(n)`.
pub proof fn lemma_log2_floor_unique(n: nat, k: nat)
    requires
        pow2(k) <= n < 2 * pow2(k),
    ensures
        k == log2_floor(n),
{
    lemma_pow2_pos(k);
    lemma_log2_floor(n);
    let c = log2_floor(n);
    lemma_pow2_double(c);
    lemma_pow2_double(k);
    if k < c {
        lemma_pow2_order(k + 1, c);
    } else if c < k {
        lemma_pow2_order(c + 1, k);
    }
}

/// A multiple of `2^j` is a multiple of every smaller power of two.
pub proof fn lemma_aligned_below(a: int, j: nat, k: nat)
    requires
        aligned(a, j),
        k <= j,
    ensures
        aligned(a, k),
    decreases j - k,
{
    if k < j {
        lemma_pow2_double((j - 1) as nat);
        lemma_mod_halve(a, pow2((j - 1) as nat) as int);
        lemma_aligned_below(a, (j - 1) as nat, k);
    }
}

/// `2^k` as a machine word.
pub fn pow2_word(k: usize) -> (r: usize)
    requires
        k < usize::BITS,
    ensures
        r == pow2(k as nat),
{
    proof {
        lemma_pow2_fits_word(k as nat);
        lemma_usize_shl_is_mul(1usize, k);
    }
    1usize << k
}

/// The least `k` with `n <= 2^k`.
pub fn order_of(n: usize) -> (k: usize)
    requires
        n <= pow2((usize::BITS - 1) as nat),
    ensures
        k == log2_ceil(n as nat),
        k < usize::BITS,
        n <= pow2(k as nat),
{
    let mut k: usize = 0;
    let mut p: usize = 1;
    proof {
        lemma2_to64();
    }
    while p < n
        invariant
            p == pow2(k as nat),
            p > 0,
            k == 0 || pow2((k - 1) as nat) < n,
            k < usize::BITS,
            n <= pow2((usize::BITS - 1) as nat),
        decreases usize::BITS - k,
    {
        proof {
            lemma_pow2_double(k as nat);
            lemma_pow2_order(k as nat, (usize::BITS - 1) as nat);
            lemma_pow2_fits_word((k + 1) as nat);
        }
        p = p * 2;
        k = k + 1;
    }
    proof {
        lemma_log2_ceil_unique(n as nat, k as nat);
    }
    k
}

/// Flipping the one bit of `s` in a word whose bits below it are clear adds `s`
/// where the bit was clear and takes `s` away where it was set.
proof fn lemma_xor_flips(a: usize, s: usize, wide: usize)
    by (bit_vector)
    requires
        s != 0,
        s & ((s - 1) as usize) == 0,
        wide == 2 * s - 1,
        a & ((s - 1) as usize) == 0,
    ensures
        a & wide == 0 ==> a ^ s == a + s,
        a & wide != 0 ==> a ^ s == a - s,
{
}

/// `1 << k` has a single bit set.
proof fn lemma_shl_one_bit(k: usize)
    by (bit_vector)
    ensures
        (1usize << k) & (((1usize << k) - 1) as usize) == 0 || (1usize << k) == 0,
{
}

/// Whether one word is another with the bits of a third flipped does not depend on
/// which of the two is flipped.
proof fn lemma_xor_swap(a: usize, b: usize, s: usize)
    by (bit_vector)
    ensures
        (a ^ b == s) == (b == a ^ s),
{
}

/// The buddy by arithmetic is the buddy by bits: flipping bit `k` of the address of
/// an aligned block of order `k` gives the address of its buddy.
pub proof fn lemma_xor_is_buddy(a: usize, k: nat)
    requires
        k + 1 < usize::BITS,
        aligned(a as int, k),
    ensures
        pow2(k) <= usize::MAX,
        0 <= buddy(a as int, k) <= usize::MAX,
        a ^ (pow2(k) as usize) == buddy(a as int, k),
{
    let s = pow2(k) as usize;
    lemma_pow2_fits_word(k);
    lemma_pow2_fits_word(k + 1);
    lemma_pow2_double(k);
    lemma_usize_shl_is_mul(1usize, k as usize);
    lemma_shl_one_bit(k as usize);
    lemma_usize_low_bits_mask_is_mod(a, k);
    lemma_usize_low_bits_mask_is_mod(a, k + 1);
    assert(low_bits_mask(k) == s - 1);
    assert(low_bits_mask(k + 1) == 2 * s - 1);
    lemma_xor_flips(a, s, (2 * s - 1) as usize);
}

/// Two aligned blocks of order `k` are buddies exactly when their addresses differ
/// in bit `k` and in no other.
pub proof fn lemma_buddies_differ_in_one_bit(a: usize, b: usize, k: nat)
    requires
        k + 1 < usize::BITS,
        aligned(a as int, k),
    ensures
        (a ^ b == pow2(k) as usize) <==> b == buddy(a as int, k),
{
    lemma_xor_is_buddy(a, k);
    lemma_xor_swap(a, b, pow2(k) as usize);
}

/// The buddy of the block of order `k` at `a`: the address with bit `k` flipped.
pub fn buddy_of(a: usize, k: usize) -> (b: usize)
    requires
        k < usize::BITS,
        a > 0 ==> k + 1 < usize::BITS,
        aligned(a as int, k as nat),
    ensures
        b == buddy(a as int, k as nat),
{
    let s = pow2_word(k);
    proof {
        if a == 0 {
            assert(0usize ^ s == s) by (bit_vector);
            lemma_pow2_pos((k + 1) as nat);
        } else {
            lemma_xor_is_buddy(a, k as nat);
        }
    }
    a ^ s
}

/// Blocks of order four and up span at least sixteen bytes, and their addresses
/// are multiples of sixteen.
pub proof fn lemma_pow2_ge_16(k: nat, a: int)
    requires
        4 <= k,
    ensures
        pow2(k) >= 16,
        pow2(k) % 16 == 0,
        a % (pow2(k) as int) == 0 ==> a % 16 == 0,
    decreases k,
{
    lemma2_to64();
    if k > 4 {
        lemma_pow2_ge_16((k - 1) as nat, a);
        lemma_pow2_unfold(k);
        let p = pow2((k - 1) as nat) as int;
        if a % (pow2(k) as int) == 0 {
            lemma_mod_of_multiple(a, p, 2);
        }
    }
}

/// A multiple of `p * q` is a multiple of `p`.
pub proof fn lemma_mod_of_multiple(a: int, p: int, q: int)
    requires
        p > 0,
        q > 0,
        a % (p * q) == 0 || a % (q * p) == 0,
    ensures
        a % p == 0,
{
    vstd::arithmetic::mul::lemma_mul_is_commutative(p, q);
    vstd::arithmetic::mul::lemma_mul_strictly_positive(p, q);
    vstd::arithmetic::div_mod::lemma_fundamental_div_mod(a, p * q);
    let d = a / (p * q);
    assert(a == (p * q) * d);
    vstd::arithmetic::mul::lemma_mul_is_associative(p, q, d);
    assert(a == p * (q * d));
    vstd::arithmetic::div_mod::lemma_mod_multiples_basic(q * d, p);
    vstd::arithmetic::mul::lemma_mul_is_commutative(p, q * d);
}

/// `r` is the least multiple of `align` that is not below `addr`.
pub open spec fn is_aligned_up(addr: int, align: int, r: int) -> bool {
    r % align == 0 && addr <= r < addr + align
}

/// `addr` rounded up to a multiple of `align`.
pub open spec fn round_up(addr: int, align: int) -> int {
    addr + (align - addr % align) % align
}

/// `round_up` is the least multiple of `align` not below `addr`, and nothing else
/// is.
pub proof fn lemma_round_up(addr: int, align: int, r: int)
    requires
        align > 0,
    ensures
        is_aligned_up(addr, align, round_up(addr, align)),
        is_aligned_up(addr, align, r) ==> r == round_up(addr, align),
{
    let m = addr % align;
    let u = round_up(addr, align);
    lemma_round_down(addr, align);
    if m == 0 {
        lemma_small_mod(0, align as nat);
        lemma_mod_self_0(align);
        assert(u == addr);
    } else {
        lemma_small_mod((align - m) as nat, align as nat);
        assert(u == (addr - m) + align);
        lemma_mod_step(addr - m, align);
    }
    if is_aligned_up(addr, align, r) {
        lemma_least_multiple(r, u, align, addr);
        lemma_least_multiple(u, r, align, addr);
    }
}

/// Clearing the bits of `m` takes away exactly what they held.
pub proof fn lemma_clear_low_bits(x: usize, m: usize)
    by (bit_vector)
    ensures
        x & !m == x - (x & m),
{
}

/// What lies below the last multiple of `p` in `x` is `x % p`.
pub proof fn lemma_round_down(x: int, p: int)
    requires
        p > 0,
    ensures
        (x - x % p) % p == 0,
        0 <= x % p < p,
{
    lemma_fundamental_div_mod(x, p);
    let q = x / p;
    assert(x - x % p == q * p + 0) by (nonlinear_arith)
        requires
            x == p * q + x % p,
    ;
    lemma_fundamental_div_mod_converse_mod(x - x % p, p, q, 0);
}

/// Of two multiples of `p`, one that is less than `p` above a bound which the other
/// reaches cannot be the larger.
pub proof fn lemma_least_multiple(r: int, t: int, p: int, bound: int)
    requires
        p > 0,
        r % p == 0,
        t % p == 0,
        r < bound + p,
        bound <= t,
    ensures
        r <= t,
{
    lemma_fundamental_div_mod(r, p);
    lemma_fundamental_div_mod(t, p);
    let qr = r / p;
    let qt = t / p;
    if r > t {
        assert(qr >= qt + 1) by (nonlinear_arith)
            requires
                r == p * qr,
                t == p * qt,
                r > t,
                p > 0,
        ;
        assert(r >= t + p) by (nonlinear_arith)
            requires
                r == p * qr,
                t == p * qt,
                qr >= qt + 1,
                p > 0,
        ;
    }
}

/// A power of two that fits a machine word is at least one and at most
/// `isize::MAX + 1`.
pub proof fn lemma_power_of_two_bounds(n: usize)
    requires
        is_power_of_two(n as int),
    ensures
        1 <= n <= isize::MAX + 1,
        isize::MAX + 1 == pow2((usize::BITS - 1) as nat),
{
    let k = choose|k: nat| n == pow2(k);
    lemma_pow2_fits_word(k);
    lemma2_to64();
    lemma2_to64_rest();
    lemma_pow2_order(k, (usize::BITS - 1) as nat);
}

/// Eight is a power of two.
pub proof fn lemma_eight_is_power()
    ensures
        is_power_of_two(8),
        pow2(3) == 8,
{
    lemma2_to64();
}

/// A multiple of a power of two that is at least eight is a multiple of eight.
pub proof fn lemma_power_multiple_of_eight(align: int, x: int)
    requires
        is_power_of_two(align),
        align >= 8,
        x % align == 0,
    ensures
        x % 8 == 0,
{
    let k = choose|k: nat| align == pow2(k);
    lemma2_to64();
    lemma_pow2_order(3, k);
    lemma_aligned_below(x, k, 3);
}

/// Whether `n` is a power of two.
pub fn is_pow2(n: usize) -> (b: bool)
    ensures
        b == is_power_of_two(n as int),
{
    proof {
        lemma2_to64();
        lemma2_to64_rest();
        lemma_pow2_fits_word((usize::BITS - 1) as nat);
    }
    if n == 0 || n > pow2_word((usize::BITS - 1) as usize) {
        proof {
            assert forall|j: nat| n != #[trigger] pow2(j) by {
                lemma_pow2_fits_word(j);
                if j >= usize::BITS {
                } else {
                    lemma_pow2_order(j, (usize::BITS - 1) as nat);
                }
            }
        }
        false
    } else {
        let k = order_of(n);
        let b = pow2_word(k) == n;
        proof {
            if !b {
                assert forall|j: nat| n != #[trigger] pow2(j) by {
                    if n == pow2(j) {
                        if j > 0 {
                            lemma_pow2_order((j - 1) as nat, j);
                        }
                        lemma_log2_ceil_unique(n as nat, j);
                    }
                }
            }
        }
        b
    }
}

} // verus!
