//! The kernel heap and the allocators that can manage it.

use crate::allocator::power::{
    is_aligned_up, is_power_of_two, lemma_clear_low_bits, lemma_pow2_fits_word, lemma_round_down,
    lemma_round_up, round_up,
};
use vstd::arithmetic::div_mod::{lemma_mod_decreases, lemma_mod_self_0, lemma_small_mod};
use vstd::arithmetic::power2::{lemma2_to64, pow2};
use vstd::bits::{lemma_usize_low_bits_mask_is_mod, low_bits_mask};
use vstd::prelude::*;

pub mod arena;
pub mod buddy;
pub mod bump;
pub mod fixed_size_block;
pub mod layout;
pub mod linked_list;
pub mod power;

verus! {

/// First address of the kernel heap.
pub const HEAP_BOTTOM: u64 = 0x4444_4444_0000;

/// Size of the kernel heap in bytes: 1 MiB.
pub const HEAP_SIZE: u64 = 0x10_0000;

/// Number of buckets a buddy allocator needs for the kernel heap: one for every
/// block size from one byte up to the whole heap.
pub const BUDDY_ALLOCATOR_ORDER: usize = 21;

/// The kernel heap is exactly the largest block the buddy allocator can hold.
pub proof fn lemma_heap_is_largest_block()
    ensures
        HEAP_SIZE == pow2((BUDDY_ALLOCATOR_ORDER - 1) as nat),
{
    lemma2_to64();
}

/// Size of a page of virtual memory, in bytes.
pub const PAGE_SIZE: u64 = 4096;

/// One past the last address of the lower half of the virtual address space.
pub const LOWER_HALF_END: u64 = 0x8000_0000_0000;

/// Start of the page that holds `addr`.
pub open spec fn page_floor(addr: int) -> int {
    addr - addr % 4096
}

/// Start address of the 4 KiB page that contains the virtual address `addr`.
///
/// Calls `x86_64::structures::paging::Page::containing_address` on
/// `x86_64::VirtAddr::new(addr)`. The address type refuses addresses that are not
/// canonical; those of the lower half, which alone are allowed here, it takes as
/// they are. The page is found by aligning the address down to the page size, and
/// that is what the contract states.
#[verifier::external_body]
fn page_start(addr: u64) -> (start: u64)
    requires
        addr < LOWER_HALF_END,
    ensures
        start == page_floor(addr as int),
{
    let address = x86_64::VirtAddr::new(addr);
    let page: x86_64::structures::paging::Page<x86_64::structures::paging::Size4KiB> =
        x86_64::structures::paging::Page::containing_address(address);
    page.start_address().as_u64()
}

/// The pages that back the heap `[heap_bottom, heap_bottom + heap_size)`, each by
/// its start address, in ascending order: from the page that holds the heap's first
/// byte to the page that holds its last.
pub fn heap_pages(heap_bottom: u64, heap_size: u64) -> (pages: Vec<u64>)
    requires
        heap_size > 0,
        heap_bottom + heap_size <= LOWER_HALF_END,
    ensures
        pages@.len() == (page_floor(heap_bottom + heap_size - 1) - page_floor(heap_bottom as int))
            / 4096 + 1,
        forall|i: int| 0 <= i < pages@.len()
            ==> #[trigger] pages@[i] == page_floor(heap_bottom as int) + i * 4096,
        pages@[0] <= heap_bottom,
        heap_bottom + heap_size <= pages@[pages@.len() - 1] + 4096,
{
    let first = page_start(heap_bottom);
    let last = page_start(heap_bottom + heap_size - 1);
    let mut pages: Vec<u64> = Vec::new();
    let mut page = first;
    pages.push(page);
    while page < last
        invariant
            first <= page <= last,
            last < LOWER_HALF_END,
            (page - first) % 4096 == 0,
            (last - first) % 4096 == 0,
            pages@.len() == (page - first) / 4096 + 1,
            forall|i: int| 0 <= i < pages@.len() ==> #[trigger] pages@[i] == first + i * 4096,
        decreases last - page,
    {
        page = page + PAGE_SIZE;
        pages.push(page);
    }
    pages
}

/// Rounds `addr` up to the next multiple of `align`, a power of two.
pub fn align_up(addr: usize, align: usize) -> (r: usize)
    requires
        is_power_of_two(align as int),
        addr + align - 1 <= usize::MAX,
    ensures
        is_aligned_up(addr as int, align as int, r as int),
        r == round_up(addr as int, align as int),
{
    let ghost k = choose|k: nat| align == pow2(k);
    proof {
        lemma_pow2_fits_word(k);
    }
    let m = align - 1;
    let x = addr + m;
    proof {
        lemma_usize_low_bits_mask_is_mod(x, k);
        assert(low_bits_mask(k) == m);
        lemma_clear_low_bits(x, m);
        lemma_round_down(x as int, align as int);
        lemma_round_up(addr as int, align as int, (x & !m) as int);
    }
    x & !m
}

/// `addr` rounded up to a multiple of `align`, where that is still an address.
pub fn checked_align_up(addr: usize, align: usize) -> (r: Option<usize>)
    requires
        align > 0,
    ensures
        r.is_some() <==> round_up(addr as int, align as int) <= usize::MAX,
        r matches Some(a) ==> a == round_up(addr as int, align as int),
{
    let rem = addr % align;
    proof {
        lemma_round_up(addr as int, align as int, 0);
        lemma_mod_decreases(addr as nat, align as nat);
        if rem == 0 {
            lemma_mod_self_0(align as int);
        } else {
            lemma_small_mod((align - rem) as nat, align as nat);
        }
    }
    if rem == 0 {
        Some(addr)
    } else {
        (addr - rem).checked_add(align)
    }
}

} // verus!
