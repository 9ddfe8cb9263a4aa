//! Physical and virtual addresses, and alignment arithmetic on them.
use vstd::prelude::*;
use crate::math::{is_pow2, lemma_pow2_mask, lemma_pow2_mask_u64};

verus! {

/// Whether `addr` is aligned to `align`: the bits of `addr` below the mask
/// `align - 1` are all zero.
pub fn is_aligned(addr: usize, align: usize) -> (r: bool)
    requires
        align > 0,
    ensures
        r == (addr & ((align - 1) as usize) == 0),
        is_pow2(align as int) ==> (r == (addr % align == 0)),
{
    proof {
        if is_pow2(align as int) {
            lemma_pow2_mask(addr, align);
        }
    }
    addr & (align - 1) == 0
}

/// Rounds `addr` down to a multiple of `align`.
pub fn align_down(addr: usize, align: usize) -> (r: usize)
    requires
        align > 0,
    ensures
        r == addr & !((align - 1) as usize),
        is_pow2(align as int) ==> r == addr - addr % align,
{
    proof {
        if is_pow2(align as int) {
            lemma_pow2_mask(addr, align);
        }
    }
    addr & !(align - 1)
}

/// Rounds `addr` up to a multiple of `align`.
pub fn align_up(addr: usize, align: usize) -> (r: usize)
    requires
        align > 0,
        addr + align - 1 <= usize::MAX,
    ensures
        r == ((addr + align - 1) as usize) & !((align - 1) as usize),
        is_pow2(align as int) ==> r % align == 0 && addr <= r < addr + align,
{
    let s = addr + (align - 1);
    proof {
        if is_pow2(align as int) {
            lemma_pow2_mask(s, align);
            assert((s - s % align) % (align as int) == 0) by {
                vstd::arithmetic::div_mod::lemma_fundamental_div_mod(s as int, align as int);
                vstd::arithmetic::div_mod::lemma_mod_multiples_basic(s as int / align as int, align as int);
                vstd::arithmetic::mul::lemma_mul_is_commutative(align as int, s as int / align as int);
            }
        }
    }
    s & !(align - 1)
}

/// A physical memory address (64 bits wide, as on the target).
#[derive(Copy, Clone, Debug, PartialEq, Eq, Structural)]
pub struct PhysAddr(pub u64);

impl PhysAddr {
    /// Wraps a raw physical address.
    pub fn from(addr: usize) -> (r: Self)
        ensures
            r.0 == addr,
    {
        PhysAddr(addr as u64)
    }

    /// The raw address as a machine word.
    pub fn as_usize(self) -> (r: usize)
        ensures
            r == self.0 as usize,
    {
        #[verifier::truncate]
        (self.0 as usize)
    }

    /// Whether the address is aligned to `align`: its bits below the mask
    /// `align - 1` are all zero.
    pub fn is_aligned(self, align: usize) -> (r: bool)
        requires
            align > 0,
        ensures
            r == (self.0 & ((align - 1) as u64) == 0),
            is_pow2(align as int) ==> (r == (self.0 % (align as u64) == 0)),
    {
        proof {
            if is_pow2(align as int) {
                lemma_pow2_mask_u64(self.0, align as u64);
            }
        }
        self.0 & ((align - 1) as u64) == 0
    }

    /// The address `rhs` bytes further on.
    pub fn add(self, rhs: usize) -> (r: Self)
        requires
            self.0 + rhs <= u64::MAX,
        ensures
            r.0 == self.0 + rhs,
    {
        PhysAddr(self.0 + rhs as u64)
    }

    /// Moves the address `rhs` bytes further on.
    pub fn add_assign(&mut self, rhs: usize)
        requires
            old(self).0 + rhs <= u64::MAX,
        ensures
            final(self).0 == old(self).0 + rhs,
    {
        self.0 = self.0 + rhs as u64;
    }
}

/// A virtual memory address (64 bits wide, as on the target).
#[derive(Copy, Clone, Debug, PartialEq, Eq, Structural)]
pub struct VirtAddr(pub u64);

impl VirtAddr {
    /// Wraps a raw virtual address.
    pub fn from(addr: usize) -> (r: Self)
        ensures
            r.0 == addr,
    {
        VirtAddr(addr as u64)
    }

    /// The raw address as a machine word.
    pub fn as_usize(self) -> (r: usize)
        ensures
            r == self.0 as usize,
    {
        #[verifier::truncate]
        (self.0 as usize)
    }

    /// Whether the address is aligned to `align`: its bits below the mask
    /// `align - 1` are all zero.
    pub fn is_aligned(self, align: usize) -> (r: bool)
        requires
            align > 0,
        ensures
            r == (self.0 & ((align - 1) as u64) == 0),
            is_pow2(align as int) ==> (r == (self.0 % (align as u64) == 0)),
    {
        proof {
            if is_pow2(align as int) {
                lemma_pow2_mask_u64(self.0, align as u64);
            }
        }
        self.0 & ((align - 1) as u64) == 0
    }

    /// The address `rhs` bytes further on.
    pub fn add(self, rhs: usize) -> (r: Self)
        requires
            self.0 + rhs <= u64::MAX,
        ensures
            r.0 == self.0 + rhs,
    {
        VirtAddr(self.0 + rhs as u64)
    }

    /// Moves the address `rhs` bytes further on.
    pub fn add_assign(&mut self, rhs: usize)
        requires
            old(self).0 + rhs <= u64::MAX,
        ensures
            final(self).0 == old(self).0 + rhs,
    {
        self.0 = self.0 + rhs as u64;
    }
}

} // verus!
