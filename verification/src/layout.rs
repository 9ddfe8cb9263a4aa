//! Size and alignment of a memory request.
use vstd::prelude::*;
use crate::math::{is_pow2, lemma_single_bit_is_pow2, lemma_pow2_mask, lemma_pow2_le_half};

verus! {

/// A request for `size` bytes aligned to `align`, where `align` is a power of
/// two and `size` rounded up to `align` stays within `isize::MAX`.
#[derive(Copy, Clone, Debug)]
pub struct Layout {
    size: usize,
    align: usize,
}

/// The pair given to `Layout::from_size_align` does not describe a layout.
#[derive(Copy, Clone, Debug)]
pub struct LayoutError;

/// The conditions under which `(size, align)` describes a layout.
pub open spec fn layout_ok(size: int, align: int) -> bool {
    &&& is_pow2(align)
    &&& size <= isize::MAX - (align - 1)
}

impl Layout {
    /// The requested size.
    pub closed spec fn size_spec(&self) -> usize {
        self.size
    }

    /// The requested alignment.
    pub closed spec fn align_spec(&self) -> usize {
        self.align
    }

    /// A layout always satisfies the conditions it was checked against.
    pub closed spec fn wf(&self) -> bool {
        layout_ok(self.size as int, self.align as int)
    }

    /// What a layout guarantees of its size and alignment.
    pub proof fn lemma_wf(&self)
        requires
            self.wf(),
        ensures
            layout_ok(self.size_spec() as int, self.align_spec() as int),
    {
    }

    /// Checks `size` and `align` and makes a layout of them.
    pub fn from_size_align(size: usize, align: usize) -> (r: Result<Layout, LayoutError>)
        ensures
            r is Ok <==> layout_ok(size as int, align as int),
            r matches Ok(l) ==> l.wf() && l.size_spec() == size && l.align_spec() == align,
    {
        if align == 0 {
            proof {
                if is_pow2(align as int) {
                    lemma_pow2_le_half(align as int);
                }
            }
            return Err(LayoutError);
        }
        if align & (align - 1) != 0 {
            proof {
                if is_pow2(align as int) {
                    lemma_pow2_mask(align, align);
                    vstd::arithmetic::div_mod::lemma_mod_self_0(align as int);
                }
            }
            return Err(LayoutError);
        }
        proof {
            lemma_single_bit_is_pow2(align);
            lemma_pow2_le_half(align as int);
        }
        if size > (isize::MAX as usize) - (align - 1) {
            return Err(LayoutError);
        }
        Ok(Layout { size, align })
    }

    /// The requested size.
    pub fn size(&self) -> (r: usize)
        ensures
            r == self.size_spec(),
    {
        self.size
    }

    /// The requested alignment.
    pub fn align(&self) -> (r: usize)
        ensures
            r == self.align_spec(),
    {
        self.align
    }
}

} // verus!
