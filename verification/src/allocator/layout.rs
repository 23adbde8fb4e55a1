//! Size and alignment of a block.

use crate::allocator::align_up;
use crate::allocator::power::{
    is_pow2, is_power_of_two, lemma_aligned_below, lemma_least_multiple, lemma_mod_step,
    lemma_pow2_fits_word, lemma_pow2_order, lemma_power_of_two_bounds, lemma_round_up, round_up,
};
use vstd::arithmetic::div_mod::lemma_mod_self_0;
use vstd::arithmetic::power2::pow2;
use vstd::prelude::*;

verus! {

/// Why a size and an alignment do not make a layout.
#[derive(Debug, Clone, Copy, PartialEq, Eq)]
pub struct LayoutError;

/// Size and alignment of a requested or granted block. The alignment is a power of
/// two, and the size rounded up to it does not exceed `isize::MAX`.
#[derive(Debug, Clone, Copy)]
pub struct Layout {
    size: usize,
    align: usize,
}

/// Whether `size` and `align` make a layout.
pub open spec fn layout_valid(size: int, align: int) -> bool {
    is_power_of_two(align) && 0 <= size <= isize::MAX - (align - 1)
}

impl Layout {
    /// The invariant every layout carries.
    #[verifier::type_invariant]
    pub closed spec fn wf(&self) -> bool {
        layout_valid(self.size as int, self.align as int)
    }

    /// Requested size in bytes.
    pub closed spec fn spec_size(&self) -> usize {
        self.size
    }

    /// Required alignment in bytes.
    pub closed spec fn spec_align(&self) -> usize {
        self.align
    }

    /// A layout of `size` bytes aligned to `align`, where the two make one.
    pub fn from_size_align(size: usize, align: usize) -> (r: Result<Layout, LayoutError>)
        ensures
            r.is_ok() <==> layout_valid(size as int, align as int),
            r matches Ok(l) ==> l.size() == size && l.align() == align && l.wf(),
    {
        if !is_pow2(align) {
            return Err(LayoutError);
        }
        proof {
            lemma_power_of_two_bounds(align);
        }
        if size > (isize::MAX as usize) - (align - 1) {
            return Err(LayoutError);
        }
        Ok(Layout { size, align })
    }

    /// Requested size in bytes.
    #[verifier::when_used_as_spec(spec_size)]
    pub fn size(&self) -> (n: usize)
        ensures
            n == self.size(),
    {
        self.size
    }

    /// Required alignment in bytes.
    #[verifier::when_used_as_spec(spec_align)]
    pub fn align(&self) -> (n: usize)
        ensures
            n == self.align(),
            is_power_of_two(n as int),
    {
        proof {
            use_type_invariant(self);
        }
        self.align
    }

    /// This layout with its alignment raised to `align` where that is larger. Fails
    /// where `align` is no power of two or the size no longer fits the alignment.
    pub fn align_to(&self, align: usize) -> (r: Result<Layout, LayoutError>)
        ensures
            r.is_ok() <==> layout_valid(
                self.size() as int,
                if self.align() < align { align as int } else { self.align() as int },
            ),
            r matches Ok(l) ==> l.size() == self.size() && l.align() == (if self.align() < align {
                align
            } else {
                self.align()
            }) && l.wf(),
    {
        let larger = if self.align < align { align } else { self.align };
        Layout::from_size_align(self.size, larger)
    }

    /// This layout with its size rounded up to a multiple of its alignment.
    pub fn pad_to_align(&self) -> (l: Layout)
        ensures
            l.align() == self.align(),
            l.size() == round_up(self.size() as int, self.align() as int),
            l.wf(),
    {
        proof {
            use_type_invariant(self);
            lemma_power_of_two_bounds(self.align);
            let top = isize::MAX + 1;
            let k = choose|k: nat| self.align == pow2(k);
            lemma_pow2_fits_word(k);
            lemma_mod_self_0(top);
            lemma_pow2_order(k, (usize::BITS - 1) as nat);
            lemma_aligned_below(top, (usize::BITS - 1) as nat, k);
            lemma_mod_step(top, self.align as int);
            lemma_round_up(self.size as int, self.align as int, 0);
            lemma_least_multiple(
                round_up(self.size as int, self.align as int),
                top - self.align,
                self.align as int,
                self.size as int,
            );
        }
        let size = align_up(self.size, self.align);
        Layout { size, align: self.align }
    }

    /// What `wf` says, in terms of the two accessors.
    pub proof fn lemma_wf(&self)
        requires
            self.wf(),
        ensures
            layout_valid(self.size() as int, self.align() as int),
    {
    }
}

} // verus!
