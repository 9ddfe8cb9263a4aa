//! The kernel's page allocator: a buddy heap handing out whole pages.
use vstd::prelude::*;
use crate::buddy::{Heap, block_size, log2_of, first_nonempty, split_lists, merge_lists, merge_ok, add_blocks, blocks_fit, free_bytes, range_free_of, WORD_SIZE};
use crate::layout::{Layout, layout_ok};
use crate::buddy_free::{free_addrs, span};

verus! {

/// The number of size classes of the kernel heap.
pub const HEAP_ORDER: usize = 32;

/// The size of a page.
pub const PAGE_SIZE: usize = 4096;

/// Why an allocation failed.
#[derive(Copy, Clone, Debug, PartialEq, Eq, Structural)]
pub enum AllocError {
    /// The request does not describe a valid layout.
    InvalidParam,
    /// No free block is large enough.
    NoMemory,
}

/// Every free block of `lists` starts at or above `lo`.
pub open spec fn blocks_at_least(lists: Seq<Seq<usize>>, lo: int) -> bool {
    forall|i: int, j: int| 0 <= i < lists.len() && 0 <= j < lists[i].len() ==> #[trigger] lists[i][j] >= lo
}

/// Splitting a block keeps every free block at or above a floor the block was above.
pub proof fn lemma_split_keeps_floor(lists: Seq<Seq<usize>>, c: int, i: int, b: usize, lo: int)
    requires
        blocks_at_least(lists, lo),
        0 <= c <= i < lists.len(),
        lists[i].len() > 0,
        b == lists[i].last(),
        i < usize::BITS,
        crate::buddy::blocks_aligned(lists),
    ensures
        blocks_at_least(split_lists(lists, c, i, b), lo),
        b >= lo,
{
    let l2 = split_lists(lists, c, i, b);
    assert(lists[i][lists[i].len() - 1] == b);
    assert forall|k: int, j: int| 0 <= k < l2.len() && 0 <= j < l2[k].len() implies #[trigger] l2[k][j] >= lo by {
        if k == i {
            assert(l2[k][j] == lists[k][j]);
        } else if c <= k < i {
            if j < lists[k].len() {
                assert(l2[k][j] == lists[k][j]);
            } else {
                assert(l2[k][j] == (b + vstd::arithmetic::power2::pow2(k as nat)) as usize);
                assert(lists[i][lists[i].len() - 1] as int % (vstd::arithmetic::power2::pow2(i as nat) as int) == 0);
                crate::math::lemma_aligned_room(b, i as nat);
                vstd::arithmetic::power2::lemma_pow2_strictly_increases(k as nat, i as nat);
            }
        } else {
            assert(l2[k][j] == lists[k][j]);
        }
    }
}

/// A single page is a valid layout whose block is exactly one page, of class 12.
pub proof fn lemma_one_page()
    ensures
        layout_ok(PAGE_SIZE as int, PAGE_SIZE as int),
        block_size(PAGE_SIZE as int, PAGE_SIZE as int) == PAGE_SIZE,
        log2_of(PAGE_SIZE as int) == 12,
{
    vstd::arithmetic::power2::lemma2_to64();
    crate::math::lemma_pow2_exp(12);
    crate::math::lemma_next_pow2_is(4096, 12);
    crate::buddy::lemma_log2_of(12);
    assert(crate::math::is_pow2(4096)) by {
        assert(4096 == vstd::arithmetic::power2::pow2(12));
    }
    if usize::BITS == 64 {
        assert(isize::MAX == 0x7fff_ffff_ffff_ffff);
    } else {
        assert(isize::MAX == 0x7fff_ffff);
    }
}

/// The page allocator.
pub struct GlobalAllocator {
    inner: Heap<HEAP_ORDER>,
}

impl GlobalAllocator {
    /// The heap behind the allocator.
    pub closed spec fn heap(&self) -> Heap<HEAP_ORDER> {
        self.inner
    }

    /// The heap is well formed.
    pub open spec fn wf(&self) -> bool {
        self.heap().wf()
    }

    /// An allocator with no memory yet.
    pub fn new() -> (r: Self)
        ensures
            r.wf(),
            r.heap().lists() == Seq::new(HEAP_ORDER as nat, |i: int| Seq::<usize>::empty()),
            r.heap().allocated_spec() == 0,
            r.heap().total_spec() == 0,
    {
        GlobalAllocator { inner: Heap::new() }
    }

    /// Hands the `size` bytes at `start` to the allocator.
    pub fn init(&mut self, start: usize, size: usize)
        requires
            old(self).wf(),
            start + size <= usize::MAX,
            start + WORD_SIZE - 1 <= usize::MAX,
            start + (WORD_SIZE - 1) - (start + (WORD_SIZE - 1)) % (WORD_SIZE as int)
                <= (start + size) - ((start + size) as int) % (WORD_SIZE as int),
            start != 0 || start + size < WORD_SIZE,
            ({
                let e = start + size;
                let s0 = start + (WORD_SIZE - 1) - (start + (WORD_SIZE - 1)) % (WORD_SIZE as int);
                let e0 = e - (e as int) % (WORD_SIZE as int);
                &&& range_free_of(old(self).heap().lists(), s0, e0 - s0)
                &&& blocks_fit(s0 as usize, e0 as usize, HEAP_ORDER as int)
            }),
        ensures
            final(self).wf(),
            ({
                let e = start + size;
                let s0 = start + (WORD_SIZE - 1) - (start + (WORD_SIZE - 1)) % (WORD_SIZE as int);
                let e0 = e - (e as int) % (WORD_SIZE as int);
                &&& final(self).heap().lists() == add_blocks(old(self).heap().lists(), s0 as usize, e0 as usize)
                &&& final(self).heap().total_spec() == e0 - s0
                &&& free_bytes(final(self).heap().lists()) == free_bytes(old(self).heap().lists()) + (e0 - s0)
                &&& forall|lo: int| blocks_at_least(old(self).heap().lists(), lo) && lo <= s0
                    ==> #[trigger] blocks_at_least(final(self).heap().lists(), lo)
            }),
            final(self).heap().allocated_spec() == old(self).heap().allocated_spec(),
    {
        self.inner.add_to_heap(start, start + size);
        proof {
            let s0 = start + (WORD_SIZE - 1) - (start + (WORD_SIZE - 1)) % (WORD_SIZE as int);
            let ol = old(self).heap().lists();
            let nl = self.heap().lists();
            old(self).heap().lemma_wf();
            self.heap().lemma_wf();
            assert forall|lo: int| blocks_at_least(ol, lo) && lo <= s0 implies #[trigger] blocks_at_least(nl, lo) by {
                assert forall|i: int, j: int| 0 <= i < nl.len() && 0 <= j < nl[i].len() implies #[trigger] nl[i][j] >= lo by {
                    if j < ol[i].len() && nl[i][j] == ol[i][j] {
                        assert(ol[i][j] >= lo);
                    }
                }
            }
        }
    }

    /// Whether a block of at least a page is free, so that `alloc_pages(1)`
    /// succeeds.
    pub fn has_free_page(&self) -> (r: bool)
        requires
            self.wf(),
        ensures
            r == (first_nonempty(self.heap().lists(), 12) < HEAP_ORDER),
    {
        self.inner.has_free_block(12)
    }

    /// Allocates `pages` contiguous pages and returns their address.
    pub fn alloc_pages(&mut self, pages: usize) -> (r: Result<usize, AllocError>)
        requires
            old(self).wf(),
            PAGE_SIZE * pages <= usize::MAX,
            old(self).heap().allocated_spec() + block_size(PAGE_SIZE * pages, PAGE_SIZE as int) <= usize::MAX,
        ensures
            final(self).wf(),
            final(self).heap().total_spec() == old(self).heap().total_spec(),
            !layout_ok(PAGE_SIZE * pages, PAGE_SIZE as int) ==> r == Err::<usize, AllocError>(AllocError::InvalidParam)
                && final(self).heap() == old(self).heap(),
            layout_ok(PAGE_SIZE * pages, PAGE_SIZE as int) ==> ({
                let size = block_size(PAGE_SIZE * pages, PAGE_SIZE as int);
                let c = log2_of(size);
                let old_lists = old(self).heap().lists();
                let i = first_nonempty(old_lists, c);
                if i >= HEAP_ORDER {
                    &&& r == Err::<usize, AllocError>(AllocError::NoMemory)
                    &&& final(self).heap().lists() == old_lists
                    &&& final(self).heap().allocated_spec() == old(self).heap().allocated_spec()
                } else {
                    let b = old_lists[i].last();
                    &&& final(self).heap().lists() == split_lists(old_lists, c, i, b)
                    &&& free_bytes(final(self).heap().lists()) == free_bytes(old_lists) - size
                    &&& (b == 0 ==> r == Err::<usize, AllocError>(AllocError::NoMemory)
                        && final(self).heap().allocated_spec() == old(self).heap().allocated_spec())
                    &&& (b != 0 ==> r == Ok::<usize, AllocError>(b)
                        && final(self).heap().allocated_spec() == old(self).heap().allocated_spec() + size)
                    &&& b as int % size == 0
                    &&& range_free_of(final(self).heap().lists(), b as int, size)
                    &&& span(b as int, size).subset_of(free_addrs(old_lists))
                    &&& free_addrs(final(self).heap().lists()) == free_addrs(old_lists).difference(span(b as int, size))
                }
            }),
            forall|s: int, n: int| range_free_of(old(self).heap().lists(), s, n) ==> #[trigger] range_free_of(final(self).heap().lists(), s, n),
            forall|lo: int| blocks_at_least(old(self).heap().lists(), lo) ==> #[trigger] blocks_at_least(final(self).heap().lists(), lo),
            r matches Ok(b) ==> {
                &&& b % PAGE_SIZE == 0
                &&& final(self).heap().allocated_spec() >= old(self).heap().allocated_spec() + PAGE_SIZE * pages
                &&& span(b as int, PAGE_SIZE * pages).subset_of(free_addrs(old(self).heap().lists()))
                &&& span(b as int, PAGE_SIZE * pages).disjoint(free_addrs(final(self).heap().lists()))
            },
    {
        proof {
            assert forall|lo: int| blocks_at_least(old(self).heap().lists(), lo) implies #[trigger] blocks_at_least(old(self).heap().lists(), lo) by {}
        }
        let ghost old_lists = self.inner.lists();
        proof {
            self.inner.lemma_wf();
        }
        let layout = match Layout::from_size_align(PAGE_SIZE * pages, PAGE_SIZE) {
            Ok(l) => l,
            Err(_) => {
                proof {
                    assert forall|s: int, n: int| range_free_of(old(self).heap().lists(), s, n) implies #[trigger] range_free_of(self.heap().lists(), s, n) by {}
                }
                return Err(AllocError::InvalidParam);
            },
        };
        let r = self.inner.allocate(layout);
        proof {
            let size = block_size(PAGE_SIZE * pages, PAGE_SIZE as int);
            let c = log2_of(size);
            let i = first_nonempty(old_lists, c);
            if i < HEAP_ORDER {
                crate::buddy::lemma_first_nonempty(old_lists, c);
                assert forall|lo: int| blocks_at_least(old_lists, lo) implies #[trigger] blocks_at_least(self.inner.lists(), lo) by {
                    lemma_split_keeps_floor(old_lists, c, i, old_lists[i].last(), lo);
                }
            }
        }
        match r {
            Ok(ptr) => Ok(ptr),
            Err(()) => Err(AllocError::NoMemory),
        }
    }

    /// Gives back `pages` pages at `ptr`, as handed out by `alloc_pages`.
    pub fn dealloc_pages(&mut self, ptr: usize, pages: usize)
        requires
            old(self).wf(),
            ptr != 0,
            PAGE_SIZE * pages <= usize::MAX,
            layout_ok(PAGE_SIZE * pages, PAGE_SIZE as int),
            ({
                let size = block_size(PAGE_SIZE * pages, PAGE_SIZE as int);
                let c = log2_of(size);
                let old_lists = old(self).heap().lists();
                &&& c < HEAP_ORDER
                &&& (ptr as int) % size == 0
                &&& old(self).heap().allocated_spec() >= size
                &&& range_free_of(old_lists, ptr as int, size)
                &&& merge_ok(old_lists.update(c, old_lists[c].push(ptr)), ptr, c)
            }),
        ensures
            final(self).wf(),
            final(self).heap().total_spec() == old(self).heap().total_spec(),
            ({
                let size = block_size(PAGE_SIZE * pages, PAGE_SIZE as int);
                let c = log2_of(size);
                let old_lists = old(self).heap().lists();
                &&& final(self).heap().lists() == merge_lists(old_lists.update(c, old_lists[c].push(ptr)), ptr, c)
                &&& free_bytes(final(self).heap().lists()) == free_bytes(old_lists) + size
                &&& free_addrs(final(self).heap().lists()) == free_addrs(old_lists).union(span(ptr as int, size))
                &&& final(self).heap().allocated_spec() == old(self).heap().allocated_spec() - size
            }),
    {
        let layout = match Layout::from_size_align(PAGE_SIZE * pages, PAGE_SIZE) {
            Ok(l) => l,
            Err(_) => {
                return;
            },
        };
        self.inner.dealloc(ptr, layout);
    }
}

} // verus!
