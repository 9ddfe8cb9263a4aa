//! Four-level translation tables for 4 KiB granules and 48-bit addresses.
//!
//! The tables live in page frames taken from the page allocator; each table
//! is kept here as its 512 entries, together with the physical address of its
//! frame and its level (4 for the root, 1 for the tables of 4 KiB pages).
use vstd::prelude::*;
use crate::memory_addr::{PhysAddr, VirtAddr};
use crate::allocator::{GlobalAllocator, AllocError, blocks_at_least, lemma_one_page, PAGE_SIZE, HEAP_ORDER};
use crate::buddy::{range_free_of, overlaps, first_nonempty, log2_of, split_lists};
use crate::page_table_entry::{
    PTE, MemoryAttribute, pte_valid, pte_huge, pte_paddr, descriptor_bits, bit_if, DESC_AF,
    DESC_NON_BLOCK, PTE_ADDR_MASK, lemma_table_entry, lemma_page_entry, lemma_valid_nonzero,
};

verus! {

/// Where physical memory appears in the kernel's virtual address space.
pub const PHYS_VIRT_OFFSET: u64 = 0xFFFF_0000_0000_0000;

/// The number of entries of a table.
pub const PTE_ENTRY_COUNT: usize = 512;

/// The number of address bits below a page.
pub const PAGE_SHIFT: u64 = 12;

/// The kernel virtual address of a physical address.
pub fn phys_to_virt(paddr: PhysAddr) -> (r: VirtAddr)
    requires
        paddr.0 + PHYS_VIRT_OFFSET <= u64::MAX,
    ensures
        r.0 == paddr.0 + PHYS_VIRT_OFFSET,
{
    VirtAddr(paddr.0 + PHYS_VIRT_OFFSET)
}

/// The physical address of a kernel virtual address.
pub fn virt_to_phys(vaddr: VirtAddr) -> (r: PhysAddr)
    requires
        vaddr.0 >= PHYS_VIRT_OFFSET,
    ensures
        r.0 == vaddr.0 - PHYS_VIRT_OFFSET,
{
    PhysAddr(vaddr.0 - PHYS_VIRT_OFFSET)
}

/// Why a page table operation failed.
#[derive(Copy, Clone, Debug, PartialEq, Eq, Structural)]
pub enum PagingError {
    /// No frame could be allocated for a table.
    NoMemory,
    /// The address is not mapped.
    NotMapped,
    /// The walk met a block mapping before reaching the requested level.
    MappedToHugePage,
    /// The address is mapped already.
    AlreadyMapped,
    /// An address or size is not page-aligned.
    NotAligned,
}

/// The sizes of the pages and blocks that a table entry can map.
#[derive(Copy, Clone, Debug, PartialEq, Eq, Structural)]
pub enum PageSize {
    Size4K,
    Size2M,
    Size1G,
}

/// The number of bytes of a page size.
pub open spec fn page_bytes(s: PageSize) -> u64 {
    match s {
        PageSize::Size4K => 0x1000,
        PageSize::Size2M => 0x20_0000,
        PageSize::Size1G => 0x4000_0000,
    }
}

impl PageSize {
    /// Whether pages of this size are mapped by block entries.
    pub fn is_huge(self) -> (r: bool)
        ensures
            r == (self is Size1G || self is Size2M),
    {
        matches!(self, PageSize::Size1G | PageSize::Size2M)
    }

    /// The number of bytes of the size.
    pub fn as_usize(self) -> (r: usize)
        ensures
            r == page_bytes(self),
    {
        match self {
            PageSize::Size4K => 0x1000,
            PageSize::Size2M => 0x20_0000,
            PageSize::Size1G => 0x4000_0000,
        }
    }
}

impl From<PageSize> for usize {
    /// The number of bytes of a page size.
    fn from(value: PageSize) -> (r: usize) {
        value.as_usize()
    }
}

impl vstd::std_specs::convert::FromSpecImpl<PageSize> for usize {
    open spec fn obeys_from_spec() -> bool {
        true
    }

    open spec fn from_spec(value: PageSize) -> usize {
        page_bytes(value) as usize
    }
}

/// The index into the level-4 table of a virtual address.
pub open spec fn l4_idx(v: u64) -> int {
    ((v >> 39u64) & 511u64) as int
}

/// The index into the level-3 table of a virtual address.
pub open spec fn l3_idx(v: u64) -> int {
    ((v >> 30u64) & 511u64) as int
}

/// The index into the level-2 table of a virtual address.
pub open spec fn l2_idx(v: u64) -> int {
    ((v >> 21u64) & 511u64) as int
}

/// The index into the level-1 table of a virtual address.
pub open spec fn l1_idx(v: u64) -> int {
    ((v >> 12u64) & 511u64) as int
}

/// Every table index of an address is below 512.
pub proof fn lemma_idx_bounds(v: u64)
    ensures
        0 <= l4_idx(v) < 512,
        0 <= l3_idx(v) < 512,
        0 <= l2_idx(v) < 512,
        0 <= l1_idx(v) < 512,
{
    assert((v >> 39u64) & 511u64 < 512 && (v >> 30u64) & 511u64 < 512 && (v >> 21u64) & 511u64 < 512
        && (v >> 12u64) & 511u64 < 512) by (bit_vector);
}

/// Distinct pages among the first `2^36` pages of 4 KiB from an aligned
/// address differ in one of their four table indices.
pub proof fn lemma_page_indices_distinct(v0: u64, j: int, m: int)
    requires
        v0 % 4096 == 0,
        0 <= j < 0x10_0000_0000,
        0 <= m < 0x10_0000_0000,
        v0 + j * 4096 <= u64::MAX,
        v0 + m * 4096 <= u64::MAX,
        l4_idx((v0 + j * 4096) as u64) == l4_idx((v0 + m * 4096) as u64),
        l3_idx((v0 + j * 4096) as u64) == l3_idx((v0 + m * 4096) as u64),
        l2_idx((v0 + j * 4096) as u64) == l2_idx((v0 + m * 4096) as u64),
        l1_idx((v0 + j * 4096) as u64) == l1_idx((v0 + m * 4096) as u64),
    ensures
        j == m,
{
    let a = (v0 + j * 4096) as u64;
    let b = (v0 + m * 4096) as u64;
    assert((a / 4096) % 0x10_0000_0000 == (b / 4096) % 0x10_0000_0000) by (bit_vector)
        requires
            (a >> 39u64) & 511u64 == (b >> 39u64) & 511u64,
            (a >> 30u64) & 511u64 == (b >> 30u64) & 511u64,
            (a >> 21u64) & 511u64 == (b >> 21u64) & 511u64,
            (a >> 12u64) & 511u64 == (b >> 12u64) & 511u64;
    let q0 = (v0 / 4096) as int;
    vstd::arithmetic::div_mod::lemma_fundamental_div_mod(v0 as int, 4096);
    vstd::arithmetic::div_mod::lemma_fundamental_div_mod_converse(a as int, 4096, q0 + j, 0);
    vstd::arithmetic::div_mod::lemma_fundamental_div_mod_converse(b as int, 4096, q0 + m, 0);
    let big = 0x10_0000_0000int;
    vstd::arithmetic::div_mod::lemma_fundamental_div_mod(q0 + j, big);
    vstd::arithmetic::div_mod::lemma_fundamental_div_mod(q0 + m, big);
    let x = (q0 + j) / big;
    let y = (q0 + m) / big;
    assert(j - m == big * (x - y)) by (nonlinear_arith)
        requires
            q0 + j == big * x + (q0 + j) % big,
            q0 + m == big * y + (q0 + m) % big,
            (q0 + j) % big == (q0 + m) % big;
    assert(x == y) by (nonlinear_arith)
        requires
            j - m == big * (x - y),
            -big < j - m < big,
            big > 0;
}

fn pgt_l1_idx(vaddr: VirtAddr) -> (r: usize)
    ensures
        r == l1_idx(vaddr.0),
        r < 512,
{
    let v = vaddr.0;
    assert((v >> 12u64) & 511u64 < 512) by (bit_vector);
    ((v >> PAGE_SHIFT) & 511) as usize
}

fn pgt_l2_idx(vaddr: VirtAddr) -> (r: usize)
    ensures
        r == l2_idx(vaddr.0),
        r < 512,
{
    let v = vaddr.0;
    assert((v >> 21u64) & 511u64 < 512) by (bit_vector);
    ((v >> (PAGE_SHIFT + 9)) & 511) as usize
}

fn pgt_l3_idx(vaddr: VirtAddr) -> (r: usize)
    ensures
        r == l3_idx(vaddr.0),
        r < 512,
{
    let v = vaddr.0;
    assert((v >> 30u64) & 511u64 < 512) by (bit_vector);
    ((v >> (PAGE_SHIFT + 18)) & 511) as usize
}

fn pgt_l4_idx(vaddr: VirtAddr) -> (r: usize)
    ensures
        r == l4_idx(vaddr.0),
        r < 512,
{
    let v = vaddr.0;
    assert((v >> 39u64) & 511u64 < 512) by (bit_vector);
    ((v >> (PAGE_SHIFT + 27)) & 511) as usize
}

/// The first table from position `k` on whose frame is at `p` and whose
/// level is `l`; `-1` when there is none.
pub open spec fn find_table(pages: Seq<PhysAddr>, levels: Seq<u8>, p: u64, l: u8, k: int) -> int
    decreases pages.len() - k,
{
    if k < 0 || k >= pages.len() || k >= levels.len() {
        -1
    } else if pages[k].0 == p && levels[k] == l {
        k
    } else {
        find_table(pages, levels, p, l, k + 1)
    }
}

/// `find_table` returns a matching position, or `-1` when none exists.
pub proof fn lemma_find_table(pages: Seq<PhysAddr>, levels: Seq<u8>, p: u64, l: u8, k: int)
    requires
        0 <= k,
        pages.len() == levels.len(),
    ensures
        find_table(pages, levels, p, l, k) == -1 || (k <= find_table(pages, levels, p, l, k) < pages.len()
            && pages[find_table(pages, levels, p, l, k)].0 == p && levels[find_table(pages, levels, p, l, k)] == l),
        find_table(pages, levels, p, l, k) == -1 ==> forall|j: int| k <= j < pages.len() ==> !(#[trigger] pages[j].0 == p && levels[j] == l),
        forall|j: int| k <= j < pages.len() && pages[j].0 == p && levels[j] == l ==> find_table(pages, levels, p, l, k) <= j,
    decreases pages.len() - k,
{
    if k < pages.len() && !(pages[k].0 == p && levels[k] == l) {
        lemma_find_table(pages, levels, p, l, k + 1);
    }
}

/// The position of an entry: a table and an index into it.
#[derive(Copy, Clone, Debug, PartialEq, Eq, Structural)]
pub struct PteRef {
    pub table: usize,
    pub index: usize,
}

/// A four-level page table.
pub struct PageTable64 {
    root_paddr: PhysAddr,
    used_pages: Vec<PhysAddr>,
    levels: Vec<u8>,
    tables: Vec<Vec<PTE>>,
}

impl PageTable64 {
    /// The frames of the tables, in creation order; the first is the root.
    pub closed spec fn pages(&self) -> Seq<PhysAddr> {
        self.used_pages@
    }

    /// The level of each table.
    pub closed spec fn table_levels(&self) -> Seq<u8> {
        self.levels@
    }

    /// The entries of each table.
    pub closed spec fn tables_spec(&self) -> Seq<Seq<PTE>> {
        self.tables@.map_values(|t: Vec<PTE>| t@)
    }

    /// The frame of the root table.
    pub closed spec fn root(&self) -> PhysAddr {
        self.root_paddr
    }

    /// The bits of entry `i` of table `k`.
    pub open spec fn entry(&self, k: int, i: int) -> u64 {
        self.tables_spec()[k][i].0
    }

    /// The table of level `l` whose frame is at `p`, or `-1`.
    pub open spec fn table_of(&self, p: u64, l: u8) -> int {
        find_table(self.pages(), self.table_levels(), p, l, 0)
    }

    /// Following entry `i` of table `k` to a table of level `l`.
    pub open spec fn next_table(&self, k: int, i: int, l: u8) -> Result<int, PagingError> {
        let e = self.entry(k, i);
        if !pte_valid(e) {
            Err(PagingError::NotMapped)
        } else if pte_huge(e) {
            Err(PagingError::MappedToHugePage)
        } else {
            Ok(self.table_of(pte_paddr(e), l))
        }
    }

    /// The entry that maps `v` and the size of what it maps, found by walking
    /// down from the root and stopping at the first block entry.
    pub open spec fn walk(&self, v: u64) -> Result<(int, int, PageSize), PagingError> {
        match self.next_table(0, l4_idx(v), 3) {
            Err(e) => Err(e),
            Ok(t3) => if pte_huge(self.entry(t3, l3_idx(v))) {
                Ok((t3, l3_idx(v), PageSize::Size1G))
            } else {
                match self.next_table(t3, l3_idx(v), 2) {
                    Err(e) => Err(e),
                    Ok(t2) => if pte_huge(self.entry(t2, l2_idx(v))) {
                        Ok((t2, l2_idx(v), PageSize::Size2M))
                    } else {
                        match self.next_table(t2, l2_idx(v), 1) {
                            Err(e) => Err(e),
                            Ok(t1) => Ok((t1, l1_idx(v), PageSize::Size4K)),
                        }
                    },
                }
            },
        }
    }

    /// The entry for `v` at the level of pages of `size`, found by following
    /// table entries only.
    pub open spec fn locate(&self, v: u64, size: PageSize) -> Result<(int, int), PagingError> {
        match self.next_table(0, l4_idx(v), 3) {
            Err(e) => Err(e),
            Ok(t3) => if size is Size1G {
                Ok((t3, l3_idx(v)))
            } else {
                match self.next_table(t3, l3_idx(v), 2) {
                    Err(e) => Err(e),
                    Ok(t2) => if size is Size2M {
                        Ok((t2, l2_idx(v)))
                    } else {
                        match self.next_table(t2, l2_idx(v), 1) {
                            Err(e) => Err(e),
                            Ok(t1) => Ok((t1, l1_idx(v))),
                        }
                    },
                }
            },
        }
    }

    /// Whether some entry on the way to the entry for `v` at the level of
    /// `size` is unused, so that a table must be created.
    pub open spec fn needs_table(&self, v: u64, size: PageSize) -> bool {
        if self.entry(0, l4_idx(v)) == 0 {
            true
        } else {
            match self.next_table(0, l4_idx(v), 3) {
                Err(e) => false,
                Ok(t3) => if size is Size1G {
                    false
                } else if self.entry(t3, l3_idx(v)) == 0 {
                    true
                } else {
                    match self.next_table(t3, l3_idx(v), 2) {
                        Err(e) => false,
                        Ok(t2) => if size is Size2M {
                            false
                        } else {
                            self.entry(t2, l2_idx(v)) == 0
                        },
                    }
                },
            }
        }
    }

    /// The error met on the way to the entry for `v` at the level of `size`
    /// before any table would have to be created, if any.
    pub open spec fn create_error(&self, v: u64, size: PageSize) -> Option<PagingError> {
        if self.entry(0, l4_idx(v)) == 0 {
            None
        } else {
            match self.next_table(0, l4_idx(v), 3) {
                Err(e) => Some(e),
                Ok(t3) => if size is Size1G || self.entry(t3, l3_idx(v)) == 0 {
                    None
                } else {
                    match self.next_table(t3, l3_idx(v), 2) {
                        Err(e) => Some(e),
                        Ok(t2) => if size is Size2M || self.entry(t2, l2_idx(v)) == 0 {
                            None
                        } else {
                            match self.next_table(t2, l2_idx(v), 1) {
                                Err(e) => Some(e),
                                Ok(t1) => None,
                            }
                        },
                    }
                },
            }
        }
    }

    /// The table structure is sound: one level and 512 entries per table,
    /// the root first, distinct page-aligned frames below `2^48`, and every
    /// table entry of a table above level 1 leads to a table one level down.
    pub open spec fn wf(&self) -> bool {
        let n = self.pages().len();
        &&& n >= 1
        &&& self.table_levels().len() == n
        &&& self.tables_spec().len() == n
        &&& self.pages()[0] == self.root()
        &&& self.table_levels()[0] == 4
        &&& forall|k: int| 0 <= k < n ==> (#[trigger] self.tables_spec()[k]).len() == 512
        &&& forall|k: int| 0 <= k < n ==> 1 <= #[trigger] self.table_levels()[k] <= 4
        &&& forall|k: int| 0 <= k < n ==> (#[trigger] self.pages()[k]).0 % 4096 == 0 && self.pages()[k].0 < 0x1_0000_0000_0000
        &&& forall|k1: int, k2: int| 0 <= k1 < k2 < n ==> #[trigger] self.pages()[k1] != #[trigger] self.pages()[k2]
        &&& forall|k: int, i: int|
            0 <= k < n && 0 <= i < 512 && self.table_levels()[k] >= 2 && pte_valid(#[trigger] self.entry(k, i))
                && !pte_huge(self.entry(k, i)) ==> self.table_of(pte_paddr(self.entry(k, i)), (self.table_levels()[k] - 1) as u8) >= 0
    }

    /// The frames of the tables lie outside every free block of `alloc`,
    /// whose blocks are all in the kernel's window onto physical memory.
    pub open spec fn frames_outside(&self, alloc: &GlobalAllocator) -> bool {
        &&& blocks_at_least(alloc.heap().lists(), PHYS_VIRT_OFFSET as int)
        &&& forall|k: int| 0 <= k < self.pages().len() ==> range_free_of(alloc.heap().lists(), (#[trigger] self.pages()[k]).0 + PHYS_VIRT_OFFSET, 4096)
    }

    /// `self` keeps every table of `old` at its position, with its level and
    /// frame, and every used entry of `old` unchanged.
    pub open spec fn extends(&self, old: &PageTable64) -> bool {
        &&& old.pages().len() <= self.pages().len()
        &&& self.root() == old.root()
        &&& forall|k: int| 0 <= k < old.pages().len() ==> #[trigger] self.pages()[k] == old.pages()[k]
        &&& forall|k: int| 0 <= k < old.pages().len() ==> #[trigger] self.table_levels()[k] == old.table_levels()[k]
        &&& forall|k: int, i: int| 0 <= k < old.pages().len() && 0 <= i < 512 && #[trigger] old.entry(k, i) != 0
            ==> self.entry(k, i) == old.entry(k, i)
    }


    /// The tables form a tree of table entries: above level 1 every used
    /// entry is a table entry, and no two used entries there lead to the
    /// same frame.
    pub open spec fn tree_shaped(&self) -> bool {
        let n = self.pages().len();
        &&& forall|k: int, i: int|
            #![trigger self.entry(k, i)]
            0 <= k < n && 0 <= i < 512 && self.table_levels()[k] >= 2 && self.entry(k, i) != 0
                ==> pte_valid(self.entry(k, i)) && !pte_huge(self.entry(k, i))
        &&& forall|k1: int, i1: int, k2: int, i2: int|
            #![trigger self.entry(k1, i1), self.entry(k2, i2)]
            0 <= k1 < n && 0 <= i1 < 512 && 0 <= k2 < n && 0 <= i2 < 512
                && self.table_levels()[k1] >= 2 && self.table_levels()[k2] >= 2
                && self.entry(k1, i1) != 0 && self.entry(k2, i2) != 0 && (k1 != k2 || i1 != i2)
                ==> pte_paddr(self.entry(k1, i1)) != pte_paddr(self.entry(k2, i2))
    }

    /// In a tree of table entries the way to any 4 KiB page meets no error,
    /// and when it needs no new table, the entry it finds is in use exactly
    /// when the page is mapped.
    pub proof fn lemma_tree_way(&self, v: u64)
        requires
            self.wf(),
            self.tree_shaped(),
        ensures
            self.create_error(v, PageSize::Size4K) is None,
            !self.needs_table(v, PageSize::Size4K) && self.located_entry(v, PageSize::Size4K) != 0
                ==> self.mapped(v, self.located_entry(v, PageSize::Size4K), PageSize::Size4K),
    {
        lemma_idx_bounds(v);
        assert(self.table_levels()[0] == 4);
        let e4 = self.entry(0, l4_idx(v));
        if e4 != 0 {
            lemma_find_table(self.pages(), self.table_levels(), pte_paddr(e4), 3, 0);
            let t3 = self.next_table(0, l4_idx(v), 3)->Ok_0;
            let e3 = self.entry(t3, l3_idx(v));
            if e3 != 0 {
                lemma_find_table(self.pages(), self.table_levels(), pte_paddr(e3), 2, 0);
                let t2 = self.next_table(t3, l3_idx(v), 2)->Ok_0;
                let e2 = self.entry(t2, l2_idx(v));
                if e2 != 0 {
                    lemma_find_table(self.pages(), self.table_levels(), pte_paddr(e2), 1, 0);
                }
            }
        }
    }

    /// In a tree of table entries, two addresses whose walks end at the same
    /// entry of a level-1 table have the same four table indices.
    pub proof fn lemma_tree_same_leaf(&self, a: u64, b: u64)
        requires
            self.wf(),
            self.tree_shaped(),
            self.walk(a) is Ok,
            self.walk(a)->Ok_0.2 == PageSize::Size4K,
            self.same_entry(a, b),
            self.walk(b)->Ok_0.2 == PageSize::Size4K,
        ensures
            l4_idx(a) == l4_idx(b),
            l3_idx(a) == l3_idx(b),
            l2_idx(a) == l2_idx(b),
            l1_idx(a) == l1_idx(b),
    {
        lemma_idx_bounds(a);
        lemma_idx_bounds(b);
        assert(self.table_levels()[0] == 4);
        let ea4 = self.entry(0, l4_idx(a));
        let eb4 = self.entry(0, l4_idx(b));
        lemma_valid_nonzero(ea4);
        lemma_valid_nonzero(eb4);
        lemma_find_table(self.pages(), self.table_levels(), pte_paddr(ea4), 3, 0);
        lemma_find_table(self.pages(), self.table_levels(), pte_paddr(eb4), 3, 0);
        let ta3 = self.next_table(0, l4_idx(a), 3)->Ok_0;
        let tb3 = self.next_table(0, l4_idx(b), 3)->Ok_0;
        let ea3 = self.entry(ta3, l3_idx(a));
        let eb3 = self.entry(tb3, l3_idx(b));
        lemma_valid_nonzero(ea3);
        lemma_valid_nonzero(eb3);
        lemma_find_table(self.pages(), self.table_levels(), pte_paddr(ea3), 2, 0);
        lemma_find_table(self.pages(), self.table_levels(), pte_paddr(eb3), 2, 0);
        let ta2 = self.next_table(ta3, l3_idx(a), 2)->Ok_0;
        let tb2 = self.next_table(tb3, l3_idx(b), 2)->Ok_0;
        let ea2 = self.entry(ta2, l2_idx(a));
        let eb2 = self.entry(tb2, l2_idx(b));
        lemma_valid_nonzero(ea2);
        lemma_valid_nonzero(eb2);
        lemma_find_table(self.pages(), self.table_levels(), pte_paddr(ea2), 1, 0);
        lemma_find_table(self.pages(), self.table_levels(), pte_paddr(eb2), 1, 0);
        let ta1 = self.next_table(ta2, l2_idx(a), 1)->Ok_0;
        let tb1 = self.next_table(tb2, l2_idx(b), 1)->Ok_0;
        // the same level-1 table: the level-2 entries leading to it are one
        assert(ta1 == tb1);
        assert(pte_paddr(ea2) == pte_paddr(eb2));
        assert(ta2 == tb2 && l2_idx(a) == l2_idx(b));
        assert(pte_paddr(ea3) == pte_paddr(eb3));
        assert(ta3 == tb3 && l3_idx(a) == l3_idx(b));
        assert(pte_paddr(ea4) == pte_paddr(eb4));
    }

    /// `self` extends `old` by new tables only: every entry that is new or
    /// differs from `old` is unused, or is a table entry (exactly
    /// `PTE::new_table` of its frame), in a table above level 1, that leads
    /// to a table that `old` does not have.
    pub open spec fn grown(&self, old: &PageTable64) -> bool {
        &&& self.extends(old)
        &&& forall|k: int, i: int|
            #![trigger self.entry(k, i)]
            0 <= k < self.pages().len() && 0 <= i < 512 && (k >= old.pages().len() || self.entry(k, i) != old.entry(k, i))
                ==> self.entry(k, i) == 0 || (self.table_levels()[k] >= 2 && pte_valid(self.entry(k, i))
                    && !pte_huge(self.entry(k, i))
                    && self.table_of(pte_paddr(self.entry(k, i)), (self.table_levels()[k] - 1) as u8) >= old.pages().len()
                    && self.entry(k, i) == PTE::new_table_spec(PhysAddr(pte_paddr(self.entry(k, i)))).0)
    }

    /// Entry `i` of table `k` is used in `self` and is new or changed since
    /// `old`.
    pub open spec fn changed(&self, old: &PageTable64, k: int, i: int) -> bool {
        &&& 0 <= k < self.pages().len()
        &&& 0 <= i < 512
        &&& k >= old.pages().len() || self.entry(k, i) != old.entry(k, i)
        &&& self.entry(k, i) != 0
    }

    /// Entry `i` of table `k` lies on the way from the root to `v`, above
    /// the last level: the root's entry for `v`, or the entry for `v` in the
    /// table of level 3 or of level 2 that the walk reaches.
    pub open spec fn on_path(&self, v: u64, k: int, i: int) -> bool {
        ||| k == 0 && i == l4_idx(v)
        ||| self.next_table(0, l4_idx(v), 3) == Ok::<int, PagingError>(k) && i == l3_idx(v)
        ||| match self.next_table(0, l4_idx(v), 3) {
            Ok(t3) => self.next_table(t3, l3_idx(v), 2) == Ok::<int, PagingError>(k) && i == l2_idx(v),
            Err(_) => false,
        }
    }

    /// An entry changed over two steps changed in the second step, or in the
    /// first and kept its value in the second.
    pub proof fn lemma_changed_step(&self, mid: &PageTable64, old: &PageTable64, k: int, i: int)
        requires
            self.extends(mid),
            mid.extends(old),
            self.changed(old, k, i),
        ensures
            self.changed(mid, k, i) || (mid.changed(old, k, i) && self.entry(k, i) == mid.entry(k, i)),
    {
    }

    /// A table structure has grown from itself.
    pub proof fn lemma_grown_refl(&self)
        requires
            self.wf(),
        ensures
            self.grown(self),
    {
    }

    /// Growing twice is growing.
    pub proof fn lemma_grown_trans(&self, mid: &PageTable64, old: &PageTable64)
        requires
            old.wf(),
            mid.wf(),
            self.wf(),
            mid.grown(old),
            self.grown(mid),
        ensures
            self.grown(old),
    {
        assert forall|k: int, i: int| 0 <= k < old.pages().len() && 0 <= i < 512 && #[trigger] old.entry(k, i) != 0
            implies self.entry(k, i) == old.entry(k, i) by {
            assert(mid.entry(k, i) == old.entry(k, i));
        }
        assert forall|k: int| 0 <= k < old.pages().len() implies #[trigger] self.pages()[k] == old.pages()[k] by {
            assert(mid.pages()[k] == old.pages()[k]);
        }
        assert forall|k: int| 0 <= k < old.pages().len() implies #[trigger] self.table_levels()[k] == old.table_levels()[k] by {
            assert(mid.table_levels()[k] == old.table_levels()[k]);
        }
        assert(self.extends(old));
        assert forall|k: int, i: int|
            0 <= k < self.pages().len() && 0 <= i < 512 && (k >= old.pages().len() || #[trigger] self.entry(k, i) != old.entry(k, i))
            implies self.entry(k, i) == 0 || (self.table_levels()[k] >= 2 && pte_valid(self.entry(k, i))
                && !pte_huge(self.entry(k, i))
                && self.table_of(pte_paddr(self.entry(k, i)), (self.table_levels()[k] - 1) as u8) >= old.pages().len()
                && self.entry(k, i) == PTE::new_table_spec(PhysAddr(pte_paddr(self.entry(k, i)))).0) by {
            let e = self.entry(k, i);
            if k >= mid.pages().len() || e != mid.entry(k, i) {
            } else {
                assert(mid.entry(k, i) == e);
                assert(self.table_levels()[k] == mid.table_levels()[k]);
                if e != 0 {
                    let l = (mid.table_levels()[k] - 1) as u8;
                    self.lemma_extends_table_of(mid, pte_paddr(e), l);
                }
            }
        }
    }

    /// Growing by new tables maps no new address: whatever is mapped after
    /// was mapped before, with the same walk.
    pub proof fn lemma_grown_maps_nothing_new(&self, old: &PageTable64, v: u64, bits: u64, size: PageSize)
        requires
            old.wf(),
            self.wf(),
            self.grown(old),
            self.mapped(v, bits, size),
        ensures
            old.mapped(v, bits, size),
            old.walk(v) == self.walk(v),
    {
        lemma_idx_bounds(v);
        let n = old.pages().len();
        assert(self.table_levels()[0] == 4 && old.table_levels()[0] == 4);
        let e4 = self.entry(0, l4_idx(v));
        assert(pte_valid(e4) && !pte_huge(e4));
        let t3 = self.next_table(0, l4_idx(v), 3)->Ok_0;
        lemma_find_table(self.pages(), self.table_levels(), pte_paddr(e4), 3, 0);
        if e4 != old.entry(0, l4_idx(v)) {
            // a new table on the way: the walk ends at an unused entry
            assert(t3 >= n);
            self.lemma_new_l3_maps_nothing(old, v, t3);
            assert(false);
        }
        assert(old.entry(0, l4_idx(v)) == e4);
        assert(old.table_of(pte_paddr(e4), 3) >= 0);
        old.lemma_table_of_in_old(self, pte_paddr(e4), 3);
        lemma_find_table(old.pages(), old.table_levels(), pte_paddr(e4), 3, 0);
        assert(old.next_table(0, l4_idx(v), 3) == self.next_table(0, l4_idx(v), 3));
        assert(t3 < n);
        assert(self.table_levels()[t3] == old.table_levels()[t3]);
        let e3 = self.entry(t3, l3_idx(v));
        if e3 != old.entry(t3, l3_idx(v)) {
            assert(e3 != 0);
            assert(!pte_huge(e3));
            let t2 = self.next_table(t3, l3_idx(v), 2)->Ok_0;
            lemma_find_table(self.pages(), self.table_levels(), pte_paddr(e3), 2, 0);
            assert(t2 >= n);
            self.lemma_new_l2_maps_nothing(old, v, t2);
            assert(false);
        }
        if !pte_huge(e3) {
            assert(pte_valid(e3));
            assert(old.table_of(pte_paddr(e3), 2) >= 0);
            old.lemma_table_of_in_old(self, pte_paddr(e3), 2);
            lemma_find_table(old.pages(), old.table_levels(), pte_paddr(e3), 2, 0);
            let t2 = self.next_table(t3, l3_idx(v), 2)->Ok_0;
            lemma_find_table(self.pages(), self.table_levels(), pte_paddr(e3), 2, 0);
            assert(t2 < n);
            assert(self.table_levels()[t2] == old.table_levels()[t2]);
            let e2 = self.entry(t2, l2_idx(v));
            if e2 != old.entry(t2, l2_idx(v)) {
                assert(e2 != 0);
                assert(!pte_huge(e2));
                let t1 = self.next_table(t2, l2_idx(v), 1)->Ok_0;
                lemma_find_table(self.pages(), self.table_levels(), pte_paddr(e2), 1, 0);
                assert(t1 >= n);
                self.lemma_new_level1_unused(old, t1, l1_idx(v));
                assert(false);
            }
            if !pte_huge(e2) {
                assert(pte_valid(e2));
                assert(old.table_of(pte_paddr(e2), 1) >= 0);
                old.lemma_table_of_in_old(self, pte_paddr(e2), 1);
                lemma_find_table(old.pages(), old.table_levels(), pte_paddr(e2), 1, 0);
                let t1 = self.next_table(t2, l2_idx(v), 1)->Ok_0;
                lemma_find_table(self.pages(), self.table_levels(), pte_paddr(e2), 1, 0);
                assert(t1 < n);
                assert(self.table_levels()[t1] == 1);
                if self.entry(t1, l1_idx(v)) != old.entry(t1, l1_idx(v)) {
                    self.lemma_new_level1_unused(old, t1, l1_idx(v));
                }
            }
        }
    }

    /// Writing a page entry over an unused entry, in a level-1 table or as a
    /// block, maps no address but those whose walk ends at that entry.
    pub proof fn lemma_leaf_write(&self, old: &PageTable64, k: int, i: int, e: u64, v: u64, bits: u64, size: PageSize)
        requires
            old.wf(),
            0 <= k < old.pages().len(),
            0 <= i < 512,
            old.entry(k, i) == 0,
            old.table_levels()[k] == 1 || pte_huge(e),
            self.pages() == old.pages(),
            self.root() == old.root(),
            self.table_levels() == old.table_levels(),
            self.tables_spec() == old.tables_spec().update(k, old.tables_spec()[k].update(i, PTE(e))),
            self.mapped(v, bits, size),
        ensures
            old.mapped(v, bits, size) || (self.walk(v)->Ok_0.0 == k && self.walk(v)->Ok_0.1 == i),
    {
        lemma_idx_bounds(v);
        let n = old.pages().len();
        assert forall|k2: int, j: int| 0 <= k2 < n && 0 <= j < 512 && (k2 != k || j != i)
            implies #[trigger] self.entry(k2, j) == old.entry(k2, j) by {
            if k2 != k {
                assert(self.tables_spec()[k2] == old.tables_spec()[k2]);
            }
        }
        assert(self.entry(k, i) == e);
        assert(self.table_levels()[0] == 4);
        // every entry the walk passes through is a table entry in a table
        // above level 1, so it is not the entry written
        let e4 = self.entry(0, l4_idx(v));
        assert(self.entry(0, l4_idx(v)) == old.entry(0, l4_idx(v)));
        lemma_find_table(self.pages(), self.table_levels(), pte_paddr(e4), 3, 0);
        let t3 = self.next_table(0, l4_idx(v), 3)->Ok_0;
        assert(self.table_levels()[t3] == 3);
        if !pte_huge(self.entry(t3, l3_idx(v))) {
            assert(self.entry(t3, l3_idx(v)) == old.entry(t3, l3_idx(v)));
            lemma_find_table(self.pages(), self.table_levels(), pte_paddr(self.entry(t3, l3_idx(v))), 2, 0);
            let t2 = self.next_table(t3, l3_idx(v), 2)->Ok_0;
            assert(self.table_levels()[t2] == 2);
            if !pte_huge(self.entry(t2, l2_idx(v))) {
                assert(self.entry(t2, l2_idx(v)) == old.entry(t2, l2_idx(v)));
                lemma_find_table(self.pages(), self.table_levels(), pte_paddr(self.entry(t2, l2_idx(v))), 1, 0);
                let t1 = self.next_table(t2, l2_idx(v), 1)->Ok_0;
                if t1 != k || l1_idx(v) != i {
                    assert(self.entry(t1, l1_idx(v)) == old.entry(t1, l1_idx(v)));
                }
            } else if t2 != k || l2_idx(v) != i {
                assert(self.entry(t2, l2_idx(v)) == old.entry(t2, l2_idx(v)));
            }
        } else if t3 != k || l3_idx(v) != i {
            assert(self.entry(t3, l3_idx(v)) == old.entry(t3, l3_idx(v)));
        }
    }

    /// The walk for `v2` ends at the same entry as the walk for `v`.
    pub open spec fn same_entry(&self, v2: u64, v: u64) -> bool {
        &&& self.walk(v2) is Ok
        &&& self.walk(v) is Ok
        &&& self.walk(v2)->Ok_0.0 == self.walk(v)->Ok_0.0
        &&& self.walk(v2)->Ok_0.1 == self.walk(v)->Ok_0.1
    }

    /// A table that `old` lacks holds unused entries and table entries only.
    proof fn lemma_new_table_entry(&self, old: &PageTable64, t: int, i: int)
        requires
            old.wf(),
            self.wf(),
            self.grown(old),
            old.pages().len() <= t < self.pages().len(),
            0 <= i < 512,
        ensures
            self.entry(t, i) == 0 || (self.table_levels()[t] >= 2 && pte_valid(self.entry(t, i)) && !pte_huge(self.entry(t, i))
                && self.table_of(pte_paddr(self.entry(t, i)), (self.table_levels()[t] - 1) as u8) >= old.pages().len()),
    {
        // naming the entry lets the growth condition speak of it
        let e = self.entry(t, i);
    }

    /// An entry of a level-1 table that is new or changed since `old` is
    /// unused.
    proof fn lemma_new_level1_unused(&self, old: &PageTable64, t: int, i: int)
        requires
            old.wf(),
            self.wf(),
            self.grown(old),
            0 <= t < self.pages().len(),
            self.table_levels()[t] == 1,
            0 <= i < 512,
            t >= old.pages().len() || self.entry(t, i) != old.entry(t, i),
        ensures
            self.entry(t, i) == 0,
    {
        // naming the entry lets the growth condition speak of it
        let e = self.entry(t, i);
    }

    /// The walk for `v` that enters, at level 2, a table that `old` lacks
    /// ends at an unused entry.
    proof fn lemma_new_l2_maps_nothing(&self, old: &PageTable64, v: u64, t2: int)
        requires
            old.wf(),
            self.wf(),
            self.grown(old),
            old.pages().len() <= t2 < self.pages().len(),
            self.table_levels()[t2] == 2,
        ensures
            pte_huge(self.entry(t2, l2_idx(v))) ==> self.entry(t2, l2_idx(v)) == 0,
            !pte_huge(self.entry(t2, l2_idx(v))) && self.next_table(t2, l2_idx(v), 1) is Ok ==> {
                let t1 = self.next_table(t2, l2_idx(v), 1)->Ok_0;
                0 <= t1 < self.pages().len() && self.entry(t1, l1_idx(v)) == 0
            },
    {
        lemma_idx_bounds(v);
        self.lemma_new_table_entry(old, t2, l2_idx(v));
        let e2 = self.entry(t2, l2_idx(v));
        if e2 != 0 && !pte_huge(e2) {
            let t1 = self.next_table(t2, l2_idx(v), 1)->Ok_0;
            lemma_find_table(self.pages(), self.table_levels(), pte_paddr(e2), 1, 0);
            self.lemma_new_level1_unused(old, t1, l1_idx(v));
        }
        if e2 == 0 {
            crate::page_table_entry::lemma_zero_entry();
        }
    }

    /// The walk for `v` that enters, at level 3, a table that `old` lacks
    /// maps nothing.
    proof fn lemma_new_l3_maps_nothing(&self, old: &PageTable64, v: u64, t3: int)
        requires
            old.wf(),
            self.wf(),
            self.grown(old),
            old.pages().len() <= t3 < self.pages().len(),
            self.table_levels()[t3] == 3,
            self.next_table(0, l4_idx(v), 3) == Ok::<int, PagingError>(t3),
        ensures
            forall|bits: u64, size: PageSize| !#[trigger] self.mapped(v, bits, size),
    {
        lemma_idx_bounds(v);
        self.lemma_new_table_entry(old, t3, l3_idx(v));
        let e3 = self.entry(t3, l3_idx(v));
        if e3 != 0 && !pte_huge(e3) {
            let t2 = self.next_table(t3, l3_idx(v), 2)->Ok_0;
            lemma_find_table(self.pages(), self.table_levels(), pte_paddr(e3), 2, 0);
            self.lemma_new_l2_maps_nothing(old, v, t2);
        }
        if e3 == 0 {
            crate::page_table_entry::lemma_zero_entry();
        }
    }

    /// A table that `old` finds is found at the same position in a table
    /// structure that has grown from it, and one that `old` does not find
    /// is, if at all, at a new position.
    proof fn lemma_table_of_in_old(&self, new: &PageTable64, p: u64, l: u8)
        requires
            self.wf(),
            new.wf(),
            new.grown(self),
        ensures
            self.table_of(p, l) >= 0 ==> new.table_of(p, l) == self.table_of(p, l),
            self.table_of(p, l) < 0 ==> new.table_of(p, l) < 0 || new.table_of(p, l) >= self.pages().len(),
    {
        lemma_find_table(self.pages(), self.table_levels(), p, l, 0);
        lemma_find_table(new.pages(), new.table_levels(), p, l, 0);
        if self.table_of(p, l) >= 0 {
            new.lemma_extends_table_of(self, p, l);
        } else {
            let r = new.table_of(p, l);
            if 0 <= r < self.pages().len() {
                assert(new.pages()[r] == self.pages()[r]);
                assert(new.table_levels()[r] == self.table_levels()[r]);
            }
        }
    }

    /// A table found in `old` is found at the same position in a table
    /// structure that extends it.
    pub proof fn lemma_extends_table_of(&self, old: &PageTable64, p: u64, l: u8)
        requires
            old.wf(),
            self.wf(),
            self.extends(old),
            old.table_of(p, l) >= 0,
        ensures
            self.table_of(p, l) == old.table_of(p, l),
    {
        lemma_find_table(old.pages(), old.table_levels(), p, l, 0);
        lemma_find_table(self.pages(), self.table_levels(), p, l, 0);
        let j = old.table_of(p, l);
        assert(self.pages()[j] == old.pages()[j]);
        assert(self.table_levels()[j] == old.table_levels()[j]);
        let r = self.table_of(p, l);
        if r != j {
            assert(r < j);
            assert(self.pages()[r] == old.pages()[r]);
            assert(self.table_levels()[r] == old.table_levels()[r]);
        }
    }

    /// Following a used table entry of `old` leads to the same table in a
    /// table structure that extends it.
    pub proof fn lemma_extends_next_table(&self, old: &PageTable64, k: int, i: int, l: u8)
        requires
            old.wf(),
            self.wf(),
            self.extends(old),
            0 <= k < old.pages().len(),
            0 <= i < 512,
            old.entry(k, i) != 0,
            old.table_levels()[k] >= 2,
            l == old.table_levels()[k] - 1,
        ensures
            self.next_table(k, i, l) == old.next_table(k, i, l),
            old.next_table(k, i, l) matches Ok(t) ==> 0 <= t < old.pages().len() && old.table_levels()[t] == l,
    {
        assert(self.entry(k, i) == old.entry(k, i));
        let e = old.entry(k, i);
        if pte_valid(e) && !pte_huge(e) {
            assert(old.table_of(pte_paddr(e), l) >= 0);
            self.lemma_extends_table_of(old, pte_paddr(e), l);
            lemma_find_table(old.pages(), old.table_levels(), pte_paddr(e), l, 0);
        }
    }

    /// A mapping of `old` is still there in a table structure that extends it.
    pub proof fn lemma_extends_mapped(&self, old: &PageTable64, v: u64, bits: u64, size: PageSize)
        requires
            old.wf(),
            self.wf(),
            self.extends(old),
            old.mapped(v, bits, size),
        ensures
            self.mapped(v, bits, size),
            self.walk(v) == old.walk(v),
    {
        assert(old.table_levels()[0] == 4);
        lemma_idx_bounds(v);
        lemma_valid_nonzero(old.entry(0, l4_idx(v)));
        assert(old.entry(0, l4_idx(v)) != 0);
        self.lemma_extends_next_table(old, 0, l4_idx(v), 3);
        let t3 = old.next_table(0, l4_idx(v), 3)->Ok_0;
        let e3 = old.entry(t3, l3_idx(v));
        lemma_valid_nonzero(e3);
        assert(e3 != 0);
        assert(self.entry(t3, l3_idx(v)) == e3);
        if !pte_huge(e3) {
            self.lemma_extends_next_table(old, t3, l3_idx(v), 2);
            let t2 = old.next_table(t3, l3_idx(v), 2)->Ok_0;
            let e2 = old.entry(t2, l2_idx(v));
            lemma_valid_nonzero(e2);
            assert(e2 != 0);
            assert(self.entry(t2, l2_idx(v)) == e2);
            if !pte_huge(e2) {
                self.lemma_extends_next_table(old, t2, l2_idx(v), 1);
                let t1 = old.next_table(t2, l2_idx(v), 1)->Ok_0;
                assert(self.entry(t1, l1_idx(v)) == old.entry(t1, l1_idx(v)));
            }
        }
    }


    /// The level of the table that holds the entries for pages of `size`.
    pub open spec fn level_of(size: PageSize) -> u8 {
        match size {
            PageSize::Size1G => 3,
            PageSize::Size2M => 2,
            PageSize::Size4K => 1,
        }
    }

    /// The entry located for `v` at the level of `size` is what the walk
    /// from the root finds, once a block has been put there for huge sizes.
    pub proof fn lemma_locate_walk(&self, v: u64, size: PageSize, k: int, i: int)
        requires
            self.wf(),
            self.locate(v, size) == Ok::<(int, int), PagingError>((k, i)),
            size is Size1G || size is Size2M ==> pte_huge(self.entry(k, i)),
        ensures
            self.walk(v) == Ok::<(int, int, PageSize), PagingError>((k, i, size)),
    {
    }

    /// An allocated frame for a new table.
    pub fn alloc_table(alloc: &mut GlobalAllocator) -> (r: Result<PhysAddr, PagingError>)
        requires
            old(alloc).wf(),
            blocks_at_least(old(alloc).heap().lists(), PHYS_VIRT_OFFSET as int),
            old(alloc).heap().allocated_spec() + PAGE_SIZE <= usize::MAX,
        ensures
            final(alloc).wf(),
            blocks_at_least(final(alloc).heap().lists(), PHYS_VIRT_OFFSET as int),
            forall|s: int, n: int| range_free_of(old(alloc).heap().lists(), s, n) ==> #[trigger] range_free_of(final(alloc).heap().lists(), s, n),
            r is Ok <==> first_nonempty(old(alloc).heap().lists(), 12) < HEAP_ORDER,
            r is Err ==> r == Err::<PhysAddr, PagingError>(PagingError::NoMemory) && final(alloc).heap().lists() == old(alloc).heap().lists(),
            final(alloc).heap().allocated_spec() == old(alloc).heap().allocated_spec() + (if r is Ok { PAGE_SIZE as int } else { 0 }),
            r matches Ok(p) ==> {
                &&& p.0 % 4096 == 0
                &&& p.0 < 0x1_0000_0000_0000
                &&& range_free_of(final(alloc).heap().lists(), p.0 + PHYS_VIRT_OFFSET, 4096)
                &&& forall|s: int| range_free_of(old(alloc).heap().lists(), s, 4096) ==> s != p.0 + PHYS_VIRT_OFFSET
            },
            r matches Ok(p) ==> ({
                let old_lists = old(alloc).heap().lists();
                let i = first_nonempty(old_lists, 12);
                &&& p.0 + PHYS_VIRT_OFFSET == old_lists[i].last()
                &&& final(alloc).heap().lists() == split_lists(old_lists, 12, i, old_lists[i].last())
            }),
    {
        proof {
            lemma_one_page();
        }
        let ghost old_lists = alloc.heap().lists();
        proof {
            alloc.heap().lemma_wf();
        }
        let res = alloc.alloc_pages(1);
        match res {
            Ok(vaddr) => {
                proof {
                    let c = 12int;
                    let i = first_nonempty(old_lists, c);
                    crate::buddy::lemma_first_nonempty(old_lists, c);
                    let last = old_lists[i].len() - 1;
                    assert(old_lists[i][last] == vaddr);
                    assert(vaddr >= PHYS_VIRT_OFFSET);
                    assert forall|s: int| range_free_of(old_lists, s, 4096) implies s != vaddr as int by {
                        assert(!overlaps(old_lists[i][last] as int, vstd::arithmetic::power2::pow2(i as nat) as int, s, 4096));
                        vstd::arithmetic::power2::lemma_pow2_pos(i as nat);
                    }
                    assert((vaddr - PHYS_VIRT_OFFSET) % 4096 == 0) by {
                        vstd::arithmetic::div_mod::lemma_sub_mod_noop(vaddr as int, PHYS_VIRT_OFFSET as int, 4096);
                    }
                }
                Ok(virt_to_phys(VirtAddr::from(vaddr)))
            },
            Err(_) => {
                proof {
                    let c = 12int;
                    let i = first_nonempty(old_lists, c);
                    crate::buddy::lemma_first_nonempty(old_lists, c);
                    if i < HEAP_ORDER {
                        let last = old_lists[i].len() - 1;
                        assert(old_lists[i][last] >= PHYS_VIRT_OFFSET);
                    }
                }
                Err(PagingError::NoMemory)
            },
        }
    }

    /// A table with every entry unused.
    fn empty_table() -> (r: Vec<PTE>)
        ensures
            r@.len() == 512,
            forall|j: int| 0 <= j < 512 ==> (#[trigger] r@[j]).0 == 0,
    {
        let mut t: Vec<PTE> = Vec::new();
        let mut j: usize = 0;
        while j < PTE_ENTRY_COUNT
            invariant
                j <= 512,
                t@.len() == j,
                forall|m: int| 0 <= m < j ==> (#[trigger] t@[m]).0 == 0,
            decreases 512 - j,
        {
            t.push(PTE::empty());
            j = j + 1;
        }
        t
    }

    /// The position of the table of level `level` whose frame is at `paddr`.
    fn find_table_exec(&self, paddr: PhysAddr, level: u8) -> (r: usize)
        requires
            self.wf(),
            self.table_of(paddr.0, level) >= 0,
        ensures
            r == self.table_of(paddr.0, level),
    {
        let n = self.used_pages.len();
        let mut k: usize = 0;
        while k < n
            invariant
                self.wf(),
                n == self.pages().len(),
                k <= n,
                self.table_of(paddr.0, level) == find_table(self.pages(), self.table_levels(), paddr.0, level, k as int),
                self.table_of(paddr.0, level) >= 0,
            decreases n - k,
        {
            if self.used_pages[k].0 == paddr.0 && self.levels[k] == level {
                return k;
            }
            k = k + 1;
        }
        proof {
            lemma_find_table(self.pages(), self.table_levels(), paddr.0, level, n as int);
        }
        0
    }

    /// The entry `i` of table `t`.
    pub fn entry_at(&self, t: usize, i: usize) -> (r: PTE)
        requires
            self.wf(),
            t < self.pages().len(),
            i < 512,
        ensures
            r.0 == self.entry(t as int, i as int),
    {
        proof {
            assert(self.tables_spec()[t as int] == self.tables@[t as int]@);
        }
        self.tables[t][i]
    }

    /// The table one level down that entry `i` of table `t` leads to.
    fn get_next_table_mut(&self, t: usize, i: usize, level: u8) -> (r: Result<usize, PagingError>)
        requires
            self.wf(),
            t < self.pages().len(),
            i < 512,
            level >= 1,
            self.table_levels()[t as int] == level + 1,
        ensures
            r is Ok <==> self.next_table(t as int, i as int, level) is Ok,
            r matches Ok(k) ==> self.next_table(t as int, i as int, level) == Ok::<int, PagingError>(k as int)
                && k < self.pages().len() && self.table_levels()[k as int] == level,
            r matches Err(e) ==> self.next_table(t as int, i as int, level) == Err::<int, PagingError>(e),
    {
        let entry = self.entry_at(t, i);
        if !entry.is_valid() {
            Err(PagingError::NotMapped)
        } else if entry.is_huge() {
            Err(PagingError::MappedToHugePage)
        } else {
            let p = entry.paddr();
            proof {
                assert(self.table_of(pte_paddr(self.entry(t as int, i as int)), level) >= 0);
                lemma_find_table(self.pages(), self.table_levels(), p.0, level, 0);
            }
            Ok(self.find_table_exec(p, level))
        }
    }

    /// The table one level down that entry `i` of table `t` leads to; a new
    /// table is created for an unused entry.
    fn get_next_table_mut_or_create(&mut self, alloc: &mut GlobalAllocator, t: usize, i: usize, level: u8) -> (r: Result<usize, PagingError>)
        requires
            old(self).wf(),
            old(self).frames_outside(old(alloc)),
            old(alloc).wf(),
            old(alloc).heap().allocated_spec() + PAGE_SIZE <= usize::MAX,
            t < old(self).pages().len(),
            i < 512,
            level >= 1,
            old(self).table_levels()[t as int] == level + 1,
        ensures
            final(self).wf(),
            final(self).frames_outside(final(alloc)),
            final(alloc).wf(),
            final(self).extends(old(self)),
            final(self).grown(old(self)),
            old(self).tree_shaped() ==> final(self).tree_shaped(),
            final(alloc).heap().allocated_spec() <= old(alloc).heap().allocated_spec() + PAGE_SIZE,
            old(self).entry(t as int, i as int) != 0 ==> *final(self) == *old(self) && *final(alloc) == *old(alloc)
                && (r is Ok <==> old(self).next_table(t as int, i as int, level) is Ok)
                && (r matches Err(e) ==> old(self).next_table(t as int, i as int, level) == Err::<int, PagingError>(e)),
            forall|k: int, j: int| #[trigger] final(self).changed(old(self), k, j) ==> k == t && j == i,
            old(self).entry(t as int, i as int) == 0 ==> (r is Ok || r == Err::<usize, PagingError>(PagingError::NoMemory)),
            r is Err ==> *final(self) == *old(self),
            r == Err::<usize, PagingError>(PagingError::NoMemory) ==> first_nonempty(final(alloc).heap().lists(), 12) >= HEAP_ORDER,
            r matches Ok(k) ==> {
                &&& k < final(self).pages().len()
                &&& final(self).next_table(t as int, i as int, level) == Ok::<int, PagingError>(k as int)
                &&& final(self).table_levels()[k as int] == level
                &&& (old(self).entry(t as int, i as int) == 0 ==> k == old(self).pages().len()
                    && forall|j: int| 0 <= j < 512 ==> #[trigger] final(self).entry(k as int, j) == 0)
            },
    {
        let entry = self.entry_at(t, i);
        if entry.is_unused() {
            let ghost s0 = *self;
            let paddr = match Self::alloc_table(alloc) {
                Ok(p) => p,
                Err(e) => {
                    return Err(e);
                },
            };
            let n = self.used_pages.len();
            self.used_pages.push(paddr);
            self.levels.push(level);
            self.tables.push(Self::empty_table());
            let ghost s1 = *self;
            proof {
                lemma_table_entry(paddr.0);
                assert(s1.tables_spec() =~= s0.tables_spec().push(s1.tables@[n as int]@));
            }
            let ghost before_row = self.tables@[t as int];
            self.tables[t][i] = PTE::new_table(paddr);
            proof {
                let s2 = *self;
                let np = s2.pages();
                assert(np =~= s0.pages().push(paddr));
                assert(s2.table_levels() =~= s0.table_levels().push(level));
                assert(s2.tables_spec() =~= s1.tables_spec().update(t as int, s1.tables_spec()[t as int].update(i as int, PTE::new_table_spec(paddr))));
                // the new frame is not one of the old ones
                assert forall|k: int| 0 <= k < n implies np[k] != paddr by {
                    assert(range_free_of(old(alloc).heap().lists(), s0.pages()[k].0 + PHYS_VIRT_OFFSET, 4096));
                }
                lemma_find_table(np, s2.table_levels(), paddr.0, level, 0);
                assert(np[n as int] == paddr && s2.table_levels()[n as int] == level);
                assert(s2.table_of(paddr.0, level) == n) by {
                    let r = s2.table_of(paddr.0, level);
                    if r < n {
                        assert(np[r] == s0.pages()[r]);
                    }
                }
                // old lookups still succeed
                assert forall|p: u64, l: u8| s0.table_of(p, l) >= 0 implies #[trigger] s2.table_of(p, l) >= 0 by {
                    lemma_find_table(s0.pages(), s0.table_levels(), p, l, 0);
                    lemma_find_table(np, s2.table_levels(), p, l, 0);
                    let j = s0.table_of(p, l);
                    assert(np[j] == s0.pages()[j]);
                }
                assert forall|k: int, j: int|
                    0 <= k < s2.pages().len() && 0 <= j < 512 && s2.table_levels()[k] >= 2 && pte_valid(#[trigger] s2.entry(k, j))
                        && !pte_huge(s2.entry(k, j)) implies s2.table_of(pte_paddr(s2.entry(k, j)), (s2.table_levels()[k] - 1) as u8) >= 0 by {
                    if k == n {
                        assert(s2.entry(k, j) == 0);
                        crate::page_table_entry::lemma_zero_entry();
                    } else if k == t && j == i {
                    } else {
                        assert(s2.entry(k, j) == s0.entry(k, j));
                        assert(s0.table_of(pte_paddr(s0.entry(k, j)), (s0.table_levels()[k] - 1) as u8) >= 0);
                    }
                }
                assert forall|k1: int, k2: int| 0 <= k1 < k2 < s2.pages().len() implies #[trigger] np[k1] != #[trigger] np[k2] by {
                    if k2 < n {
                        assert(np[k1] == s0.pages()[k1] && np[k2] == s0.pages()[k2]);
                    }
                }
                assert forall|k: int| 0 <= k < s2.pages().len() implies (#[trigger] s2.tables_spec()[k]).len() == 512 by {
                    if k == n {
                    } else {
                        assert(s2.tables_spec()[k].len() == s0.tables_spec()[k].len());
                    }
                }
                assert(s2.wf());
                assert forall|k: int| 0 <= k < np.len() implies range_free_of(alloc.heap().lists(), (#[trigger] np[k]).0 + PHYS_VIRT_OFFSET, 4096) by {
                    if k < n {
                        assert(range_free_of(old(alloc).heap().lists(), s0.pages()[k].0 + PHYS_VIRT_OFFSET, 4096));
                    }
                }
                assert(s2.extends(&s0));
                assert forall|k: int, j: int|
                    0 <= k < s2.pages().len() && 0 <= j < 512 && (k >= s0.pages().len() || #[trigger] s2.entry(k, j) != s0.entry(k, j))
                    implies s2.entry(k, j) == 0 || (s2.table_levels()[k] >= 2 && pte_valid(s2.entry(k, j))
                        && !pte_huge(s2.entry(k, j))
                        && s2.table_of(pte_paddr(s2.entry(k, j)), (s2.table_levels()[k] - 1) as u8) >= s0.pages().len()
                        && s2.entry(k, j) == PTE::new_table_spec(PhysAddr(pte_paddr(s2.entry(k, j)))).0) by {
                    if k == n {
                        assert(s2.entry(k, j) == 0);
                    } else if k == t && j == i {
                        assert(s2.entry(k, j) == PTE::new_table_spec(paddr).0);
                    } else {
                        assert(s2.entry(k, j) == s0.entry(k, j));
                    }
                }
                assert forall|k: int, j: int| #[trigger] s2.changed(&s0, k, j) implies k == t && j == i by {
                    if k == n {
                        assert(s2.entry(k, j) == 0);
                    } else if !(k == t && j == i) {
                        assert(s2.entry(k, j) == s0.entry(k, j));
                    }
                }
                if s0.tree_shaped() {
                    assert forall|k1: int, i1: int, k2: int, i2: int|
                        0 <= k1 < s2.pages().len() && 0 <= i1 < 512 && 0 <= k2 < s2.pages().len() && 0 <= i2 < 512
                            && s2.table_levels()[k1] >= 2 && s2.table_levels()[k2] >= 2
                            && #[trigger] s2.entry(k1, i1) != 0 && #[trigger] s2.entry(k2, i2) != 0 && (k1 != k2 || i1 != i2)
                        implies pte_paddr(s2.entry(k1, i1)) != pte_paddr(s2.entry(k2, i2)) by {
                        assert(k1 != n && k2 != n);
                        if k1 == t && i1 == i {
                            assert(s2.entry(k2, i2) == s0.entry(k2, i2));
                            lemma_find_table(s0.pages(), s0.table_levels(), pte_paddr(s0.entry(k2, i2)), (s0.table_levels()[k2] - 1) as u8, 0);
                        } else if k2 == t && i2 == i {
                            assert(s2.entry(k1, i1) == s0.entry(k1, i1));
                            lemma_find_table(s0.pages(), s0.table_levels(), pte_paddr(s0.entry(k1, i1)), (s0.table_levels()[k1] - 1) as u8, 0);
                        } else {
                            assert(s2.entry(k1, i1) == s0.entry(k1, i1));
                            assert(s2.entry(k2, i2) == s0.entry(k2, i2));
                        }
                    }
                    assert forall|k: int, j: int|
                        0 <= k < s2.pages().len() && 0 <= j < 512 && s2.table_levels()[k] >= 2 && #[trigger] s2.entry(k, j) != 0
                        implies pte_valid(s2.entry(k, j)) && !pte_huge(s2.entry(k, j)) by {
                        if k == n {
                            assert(s2.entry(k, j) == 0);
                        } else if k == t && j == i {
                        } else {
                            assert(s2.entry(k, j) == s0.entry(k, j));
                        }
                    }
                }
            }
            Ok(n)
        } else {
            proof {
                self.lemma_grown_refl();
            }
            self.get_next_table_mut(t, i, level)
        }
    }


    /// The entry for `vaddr` at the level of pages of `page_size`, creating
    /// the missing tables on the way.
    pub fn get_entry_mut_or_create(&mut self, alloc: &mut GlobalAllocator, vaddr: VirtAddr, page_size: PageSize) -> (r: Result<PteRef, PagingError>)
        requires
            old(self).wf(),
            old(self).frames_outside(old(alloc)),
            old(alloc).wf(),
            old(alloc).heap().allocated_spec() + 3 * PAGE_SIZE <= usize::MAX,
        ensures
            final(self).wf(),
            final(self).frames_outside(final(alloc)),
            final(alloc).wf(),
            final(self).extends(old(self)),
            final(self).grown(old(self)),
            forall|k: int, i: int| #[trigger] final(self).changed(old(self), k, i) ==> final(self).on_path(vaddr.0, k, i),
            old(self).tree_shaped() ==> final(self).tree_shaped(),
            final(alloc).heap().allocated_spec() <= old(alloc).heap().allocated_spec() + 3 * PAGE_SIZE,
            old(self).create_error(vaddr.0, page_size) matches Some(e) ==> r == Err::<PteRef, PagingError>(e)
                && *final(self) == *old(self) && *final(alloc) == *old(alloc),
            old(self).create_error(vaddr.0, page_size) is None && !old(self).needs_table(vaddr.0, page_size) ==>
                *final(self) == *old(self) && *final(alloc) == *old(alloc) && r is Ok,
            old(self).create_error(vaddr.0, page_size) is None && old(self).needs_table(vaddr.0, page_size) ==>
                (r is Ok || r == Err::<PteRef, PagingError>(PagingError::NoMemory)),
            r == Err::<PteRef, PagingError>(PagingError::NoMemory) ==> first_nonempty(final(alloc).heap().lists(), 12) >= HEAP_ORDER,
            r matches Ok(e) ==> {
                &&& final(self).locate(vaddr.0, page_size) == Ok::<(int, int), PagingError>((e.table as int, e.index as int))
                &&& e.table < final(self).pages().len()
                &&& e.index < 512
                &&& final(self).table_levels()[e.table as int] == Self::level_of(page_size)
                &&& (old(self).needs_table(vaddr.0, page_size) ==> final(self).entry(e.table as int, e.index as int) == 0)
            },
    {
        proof {
            lemma_idx_bounds(vaddr.0);
        }
        let ghost v = vaddr.0;
        let ghost s0 = *self;
        let l4 = pgt_l4_idx(vaddr);
        let l3 = pgt_l3_idx(vaddr);
        let l2 = pgt_l2_idx(vaddr);
        let l1 = pgt_l1_idx(vaddr);
        let t3 = match self.get_next_table_mut_or_create(alloc, 0, l4, 3) {
            Ok(t) => t,
            Err(e) => {
                return Err(e);
            },
        };
        let ghost s1 = *self;
        let ghost new3 = s0.entry(0, l4 as int) == 0;
        proof {
            lemma_valid_nonzero(s1.entry(0, l4 as int));
            assert forall|k: int, i: int| #[trigger] s1.changed(&s0, k, i) implies s1.on_path(v, k, i) by {}
        }
        if matches!(page_size, PageSize::Size1G) {
            return Ok(PteRef { table: t3, index: l3 });
        }
        let t2 = match self.get_next_table_mut_or_create(alloc, t3, l3, 2) {
            Ok(t) => t,
            Err(e) => {
                proof {
                    if !new3 {
                        assert(s0.next_table(0, l4 as int, 3) == Ok::<int, PagingError>(t3 as int));
                    }
                    self.lemma_grown_trans(&s1, &s0);
                }
                return Err(e);
            },
        };
        let ghost s2 = *self;
        let ghost new2 = s1.entry(t3 as int, l3 as int) == 0;
        proof {
            s2.lemma_grown_trans(&s1, &s0);
            s2.lemma_extends_next_table(&s1, 0, l4 as int, 3);
            lemma_valid_nonzero(s2.entry(t3 as int, l3 as int));
            assert forall|k: int, i: int| #[trigger] s2.changed(&s0, k, i) implies s2.on_path(v, k, i) by {
                s2.lemma_changed_step(&s1, &s0, k, i);
            }
            if !new3 {
                assert(s0.next_table(0, l4 as int, 3) == Ok::<int, PagingError>(t3 as int));
            }
        }
        if matches!(page_size, PageSize::Size2M) {
            return Ok(PteRef { table: t2, index: l2 });
        }
        let t1 = match self.get_next_table_mut_or_create(alloc, t2, l2, 1) {
            Ok(t) => t,
            Err(e) => {
                proof {
                    if !new2 && !new3 {
                        assert(s0.next_table(t3 as int, l3 as int, 2) == Ok::<int, PagingError>(t2 as int));
                    }
                    self.lemma_grown_trans(&s2, &s0);
                }
                return Err(e);
            },
        };
        proof {
            let s3 = *self;
            s3.lemma_grown_trans(&s2, &s0);
            s3.lemma_extends_next_table(&s1, 0, l4 as int, 3);
            s3.lemma_extends_next_table(&s2, t3 as int, l3 as int, 2);
            assert forall|k: int, i: int| #[trigger] s3.changed(&s0, k, i) implies s3.on_path(v, k, i) by {
                s3.lemma_changed_step(&s2, &s0, k, i);
                if !s3.changed(&s2, k, i) {
                    s2.lemma_changed_step(&s1, &s0, k, i);
                }
            }
            if !new3 && !new2 {
                assert(s0.next_table(t3 as int, l3 as int, 2) == Ok::<int, PagingError>(t2 as int));
            }
        }
        Ok(PteRef { table: t1, index: l1 })
    }

    /// `v` is mapped to an entry with the bits `bits` by a page of `size`.
    pub open spec fn mapped(&self, v: u64, bits: u64, size: PageSize) -> bool {
        match self.walk(v) {
            Ok((k, i, s)) => s == size && self.entry(k, i) == bits && bits != 0,
            Err(_) => false,
        }
    }
}

/// The bits of the entry that maps a page of `size` at `p` with `attr`.
pub open spec fn page_bits(attr: usize, p: u64, size: PageSize) -> u64 {
    (descriptor_bits(attr) | DESC_AF | bit_if(!(size is Size1G || size is Size2M), DESC_NON_BLOCK)) | (p & PTE_ADDR_MASK)
}

impl PageTable64 {
    /// The entry that maps `vaddr` and the size of the page it maps.
    pub fn get_entry_mut(&self, vaddr: VirtAddr) -> (r: Result<(PteRef, PageSize), PagingError>)
        requires
            self.wf(),
        ensures
            r is Ok <==> self.walk(vaddr.0) is Ok,
            r matches Ok((e, s)) ==> self.walk(vaddr.0) == Ok::<(int, int, PageSize), PagingError>((e.table as int, e.index as int, s))
                && e.table < self.pages().len() && e.index < 512,
            r matches Err(e) ==> self.walk(vaddr.0) == Err::<(int, int, PageSize), PagingError>(e),
    {
        proof {
            lemma_idx_bounds(vaddr.0);
        }
        let l4 = pgt_l4_idx(vaddr);
        let l3 = pgt_l3_idx(vaddr);
        let l2 = pgt_l2_idx(vaddr);
        let l1 = pgt_l1_idx(vaddr);
        let t3 = match self.get_next_table_mut(0, l4, 3) {
            Ok(t) => t,
            Err(e) => {
                return Err(e);
            },
        };
        if self.entry_at(t3, l3).is_huge() {
            return Ok((PteRef { table: t3, index: l3 }, PageSize::Size1G));
        }
        let t2 = match self.get_next_table_mut(t3, l3, 2) {
            Ok(t) => t,
            Err(e) => {
                return Err(e);
            },
        };
        if self.entry_at(t2, l2).is_huge() {
            return Ok((PteRef { table: t2, index: l2 }, PageSize::Size2M));
        }
        let t1 = match self.get_next_table_mut(t2, l2, 1) {
            Ok(t) => t,
            Err(e) => {
                return Err(e);
            },
        };
        Ok((PteRef { table: t1, index: l1 }, PageSize::Size4K))
    }

    /// The bits of the entry located for `v` at the level of `size`, or `0`
    /// when there is none.
    pub open spec fn located_entry(&self, v: u64, size: PageSize) -> u64 {
        match self.locate(v, size) {
            Ok((k, i)) => self.entry(k, i),
            Err(_) => 0,
        }
    }

    /// Why mapping a page of `size` at `v` fails with `e` on this table and
    /// the allocator `alloc`.
    pub open spec fn map_refused(&self, alloc: &GlobalAllocator, v: u64, size: PageSize, e: PagingError) -> bool {
        match e {
            PagingError::NoMemory => first_nonempty(alloc.heap().lists(), 12) >= HEAP_ORDER,
            PagingError::AlreadyMapped => self.create_error(v, size) is None && !self.needs_table(v, size)
                && self.located_entry(v, size) != 0,
            _ => self.create_error(v, size) == Some(e),
        }
    }

    /// The `n` pages of 4 KiB from `v` are mapped to those from `p` with `attr`.
    pub open spec fn maps_pages(&self, v: u64, p: u64, attr: usize, n: int) -> bool {
        forall|j: int| 0 <= j < n ==> #[trigger] self.mapped(
            (v + j * 4096) as u64, page_bits(attr, (p + j * 4096) as u64, PageSize::Size4K), PageSize::Size4K)
    }

    /// None of the `n` pages of 4 KiB from `v` is mapped.
    pub open spec fn pages_unmapped(&self, v: u64, n: int) -> bool {
        forall|j: int, bits: u64| 0 <= j < n ==> !#[trigger] self.mapped((v + j * 4096) as u64, bits, PageSize::Size4K)
    }

    /// Every address mapped in `self` was mapped in `old`, or its walk ends
    /// at the entry of one of the `n` pages of 4 KiB from `v`.
    pub open spec fn adds_only(&self, old: &PageTable64, v: u64, n: int) -> bool {
        forall|v2: u64, bits: u64, size: PageSize| #[trigger] self.mapped(v2, bits, size) ==> old.mapped(v2, bits, size)
            || exists|j: int| 0 <= j < n && #[trigger] self.same_entry(v2, (v + j * 4096) as u64)
    }

    /// Maps the page of `page_size` at `vaddr` to `paddr` with `attr`,
    /// creating the missing tables with frames from `alloc`.
    pub fn map(&mut self, alloc: &mut GlobalAllocator, vaddr: VirtAddr, paddr: PhysAddr, page_size: PageSize, attr: MemoryAttribute) -> (r: Result<(), PagingError>)
        requires
            old(self).wf(),
            old(self).frames_outside(old(alloc)),
            old(alloc).wf(),
            old(alloc).heap().allocated_spec() + 3 * PAGE_SIZE <= usize::MAX,
        ensures
            final(self).wf(),
            final(self).frames_outside(final(alloc)),
            final(alloc).wf(),
            final(self).extends(old(self)),
            final(alloc).heap().allocated_spec() <= old(alloc).heap().allocated_spec() + 3 * PAGE_SIZE,
            old(self).create_error(vaddr.0, page_size) matches Some(e) ==> r == Err::<(), PagingError>(e)
                && *final(self) == *old(self) && *final(alloc) == *old(alloc),
            old(self).create_error(vaddr.0, page_size) is None && !old(self).needs_table(vaddr.0, page_size)
                && old(self).located_entry(vaddr.0, page_size) != 0 ==> r == Err::<(), PagingError>(PagingError::AlreadyMapped)
                && *final(self) == *old(self) && *final(alloc) == *old(alloc),
            old(self).create_error(vaddr.0, page_size) is None && !old(self).needs_table(vaddr.0, page_size)
                && old(self).located_entry(vaddr.0, page_size) == 0 ==> r is Ok && *final(alloc) == *old(alloc),
            old(self).create_error(vaddr.0, page_size) is None && old(self).needs_table(vaddr.0, page_size) ==>
                (r is Ok || r == Err::<(), PagingError>(PagingError::NoMemory)),
            r == Err::<(), PagingError>(PagingError::NoMemory) ==> first_nonempty(final(alloc).heap().lists(), 12) >= HEAP_ORDER,
            old(self).tree_shaped() && page_size is Size4K ==> final(self).tree_shaped(),
            r is Ok ==> final(self).mapped(vaddr.0, page_bits(attr.bits, paddr.0, page_size), page_size),
            r is Ok ==> forall|v2: u64, bits: u64, size: PageSize| #[trigger] final(self).mapped(v2, bits, size)
                ==> old(self).mapped(v2, bits, size) || final(self).same_entry(v2, vaddr.0),
            r matches Err(e) ==> final(self).map_refused(final(alloc), vaddr.0, page_size, e),
            r is Err ==> final(self).grown(old(self)),
    {
        let e = match self.get_entry_mut_or_create(alloc, vaddr, page_size) {
            Ok(e) => e,
            Err(err) => {
                return Err(err);
            },
        };
        if !self.entry_at(e.table, e.index).is_unused() {
            return Err(PagingError::AlreadyMapped);
        }
        let ghost s0 = *self;
        let huge = page_size.is_huge();
        let pte = PTE::new_page(paddr, attr, huge);
        self.tables[e.table][e.index] = pte;
        proof {
            let s1 = *self;
            let k = e.table as int;
            let i = e.index as int;
            lemma_page_entry(attr.bits, huge, paddr.0);
            assert(s1.tables_spec() =~= s0.tables_spec().update(k, s0.tables_spec()[k].update(i, pte)));
            assert(s1.pages() == s0.pages());
            assert(s1.table_levels() == s0.table_levels());
            assert forall|k2: int, j: int|
                0 <= k2 < s1.pages().len() && 0 <= j < 512 && s1.table_levels()[k2] >= 2 && pte_valid(#[trigger] s1.entry(k2, j))
                    && !pte_huge(s1.entry(k2, j)) implies s1.table_of(pte_paddr(s1.entry(k2, j)), (s1.table_levels()[k2] - 1) as u8) >= 0 by {
                if k2 == k && j == i {
                    assert(s1.table_levels()[k2] == Self::level_of(page_size));
                } else {
                    assert(s1.entry(k2, j) == s0.entry(k2, j));
                }
            }
            assert forall|k2: int| 0 <= k2 < s1.pages().len() implies (#[trigger] s1.tables_spec()[k2]).len() == 512 by {
                assert(s1.tables_spec()[k2].len() == s0.tables_spec()[k2].len());
            }
            assert(s1.wf());
            assert(s1.extends(&s0));
            assert(s1.locate(vaddr.0, page_size) == s0.locate(vaddr.0, page_size)) by {
                let v = vaddr.0;
                lemma_idx_bounds(v);
                lemma_valid_nonzero(s0.entry(0, l4_idx(v)));
                s1.lemma_extends_next_table(&s0, 0, l4_idx(v), 3);
                if !(page_size is Size1G) {
                    let t3 = s0.next_table(0, l4_idx(v), 3)->Ok_0;
                    lemma_valid_nonzero(s0.entry(t3, l3_idx(v)));
                    s1.lemma_extends_next_table(&s0, t3, l3_idx(v), 2);
                    if !(page_size is Size2M) {
                        let t2 = s0.next_table(t3, l3_idx(v), 2)->Ok_0;
                        lemma_valid_nonzero(s0.entry(t2, l2_idx(v)));
                        s1.lemma_extends_next_table(&s0, t2, l2_idx(v), 1);
                    }
                }
            }
            s1.lemma_locate_walk(vaddr.0, page_size, k, i);
            if s0.tree_shaped() && page_size is Size4K {
                assert(s1.table_levels()[k] == 1);
                assert forall|k1: int, j: int| 0 <= k1 < s1.pages().len() && 0 <= j < 512 && s1.table_levels()[k1] >= 2
                    implies #[trigger] s1.entry(k1, j) == s0.entry(k1, j) by {
                }
            }
            assert forall|v2: u64, bits: u64, size: PageSize| #[trigger] s1.mapped(v2, bits, size)
                implies old(self).mapped(v2, bits, size) || s1.same_entry(v2, vaddr.0) by {
                s1.lemma_leaf_write(&s0, k, i, pte.0, v2, bits, size);
                if s0.mapped(v2, bits, size) {
                    s0.lemma_grown_maps_nothing_new(old(self), v2, bits, size);
                }
            }
        }
        Ok(())
    }

    /// Removes the mapping of `vaddr`, giving back the physical address and
    /// the size of the page it mapped.
    pub fn unmap(&mut self, vaddr: VirtAddr) -> (r: Result<(PhysAddr, PageSize), PagingError>)
        requires
            old(self).wf(),
        ensures
            final(self).wf(),
            old(self).walk(vaddr.0) matches Err(e) ==> r == Err::<(PhysAddr, PageSize), PagingError>(e) && *final(self) == *old(self),
            old(self).walk(vaddr.0) matches Ok((k, i, s)) ==> {
                &&& old(self).entry(k, i) == 0 ==> r == Err::<(PhysAddr, PageSize), PagingError>(PagingError::NotMapped)
                    && *final(self) == *old(self)
                &&& old(self).entry(k, i) != 0 ==> r == Ok::<(PhysAddr, PageSize), PagingError>((PhysAddr(pte_paddr(old(self).entry(k, i))), s))
                    && final(self).pages() == old(self).pages()
                    && final(self).root() == old(self).root()
                    && final(self).table_levels() == old(self).table_levels()
                    && final(self).tables_spec() == old(self).tables_spec().update(k, old(self).tables_spec()[k].update(i, PTE(0)))
            },
    {
        let (e, page_size) = match self.get_entry_mut(vaddr) {
            Ok(x) => x,
            Err(err) => {
                return Err(err);
            },
        };
        let entry = self.entry_at(e.table, e.index);
        if entry.is_unused() {
            return Err(PagingError::NotMapped);
        }
        let paddr = entry.paddr();
        let ghost s0 = *self;
        let mut cleared = entry;
        cleared.clear();
        self.tables[e.table][e.index] = cleared;
        proof {
            let s1 = *self;
            let k = e.table as int;
            let i = e.index as int;
            assert(s1.tables_spec() =~= s0.tables_spec().update(k, s0.tables_spec()[k].update(i, PTE(0))));
            assert forall|k2: int, j: int|
                0 <= k2 < s1.pages().len() && 0 <= j < 512 && s1.table_levels()[k2] >= 2 && pte_valid(#[trigger] s1.entry(k2, j))
                    && !pte_huge(s1.entry(k2, j)) implies s1.table_of(pte_paddr(s1.entry(k2, j)), (s1.table_levels()[k2] - 1) as u8) >= 0 by {
                if k2 == k && j == i {
                    crate::page_table_entry::lemma_zero_entry();
                } else {
                    assert(s1.entry(k2, j) == s0.entry(k2, j));
                }
            }
            assert forall|k2: int| 0 <= k2 < s1.pages().len() implies (#[trigger] s1.tables_spec()[k2]).len() == 512 by {
                assert(s1.tables_spec()[k2].len() == s0.tables_spec()[k2].len());
            }
        }
        Ok((paddr, page_size))
    }

    /// The number of tables.
    pub fn table_count(&self) -> (r: usize)
        requires
            self.wf(),
        ensures
            r == self.pages().len(),
    {
        self.used_pages.len()
    }

    /// The frame of table `t`.
    pub fn table_frame(&self, t: usize) -> (r: PhysAddr)
        requires
            self.wf(),
            t < self.pages().len(),
        ensures
            r == self.pages()[t as int],
    {
        self.used_pages[t]
    }

    /// The physical address of the root table.
    pub fn root_addr(&self) -> (r: PhysAddr)
        ensures
            r == self.root(),
    {
        self.root_paddr
    }

    /// A page table with an empty root table whose frame comes from `alloc`.
    pub fn new(alloc: &mut GlobalAllocator) -> (r: Self)
        requires
            old(alloc).wf(),
            blocks_at_least(old(alloc).heap().lists(), PHYS_VIRT_OFFSET as int),
            old(alloc).heap().allocated_spec() + PAGE_SIZE <= usize::MAX,
            first_nonempty(old(alloc).heap().lists(), 12) < HEAP_ORDER,
        ensures
            r.wf(),
            r.frames_outside(final(alloc)),
            final(alloc).wf(),
            final(alloc).heap().allocated_spec() == old(alloc).heap().allocated_spec() + PAGE_SIZE,
            r.pages().len() == 1,
            r.pages()[0] == r.root(),
            forall|j: int| 0 <= j < 512 ==> #[trigger] r.entry(0, j) == 0,
            ({
                let old_lists = old(alloc).heap().lists();
                let i = first_nonempty(old_lists, 12);
                &&& r.root().0 + PHYS_VIRT_OFFSET == old_lists[i].last()
                &&& final(alloc).heap().lists() == split_lists(old_lists, 12, i, old_lists[i].last())
            }),
    {
        let root_paddr = match Self::alloc_table(alloc) {
            Ok(p) => p,
            Err(_) => {
                proof {
                    assert(false);
                }
                PhysAddr(0)
            },
        };
        let mut used_pages: Vec<PhysAddr> = Vec::new();
        used_pages.push(root_paddr);
        let mut levels: Vec<u8> = Vec::new();
        levels.push(4);
        let mut tables: Vec<Vec<PTE>> = Vec::new();
        tables.push(Self::empty_table());
        let r = PageTable64 { root_paddr, used_pages, levels, tables };
        proof {
            assert(r.tables_spec()[0] == r.tables@[0]@);
            assert forall|k: int, i: int|
                0 <= k < 1 && 0 <= i < 512 && r.table_levels()[k] >= 2 && pte_valid(#[trigger] r.entry(k, i))
                    && !pte_huge(r.entry(k, i)) implies r.table_of(pte_paddr(r.entry(k, i)), (r.table_levels()[k] - 1) as u8) >= 0 by {
                assert(r.entry(k, i) == 0);
                crate::page_table_entry::lemma_zero_entry();
            }
        }
        r
    }

    /// Maps the `size` bytes at `vaddr` to those at `paddr` with `attr`, one
    /// 4 KiB page after the other. Unless all three are page-aligned the call
    /// is refused with `NotAligned` and changes nothing.
    pub fn memmap(&mut self, alloc: &mut GlobalAllocator, vaddr: VirtAddr, paddr: PhysAddr, size: usize, attr: MemoryAttribute) -> (r: Result<(), PagingError>)
        requires
            old(self).wf(),
            old(self).frames_outside(old(alloc)),
            old(alloc).wf(),
            vaddr.0 % 4096 == 0 && paddr.0 % 4096 == 0 && size % 4096 == 0 ==> {
                &&& old(alloc).heap().allocated_spec() + 3 * size <= usize::MAX
                &&& vaddr.0 + size <= u64::MAX
                &&& paddr.0 + size <= u64::MAX
            },
        ensures
            final(self).wf(),
            final(self).frames_outside(final(alloc)),
            final(alloc).wf(),
            final(self).extends(old(self)),
            final(alloc).heap().allocated_spec() <= old(alloc).heap().allocated_spec() + 3 * size,
            final(self).adds_only(old(self), vaddr.0, (size / 4096) as int),
            old(self).tree_shaped() ==> final(self).tree_shaped(),
            old(self).tree_shaped() && size <= 0x1_0000_0000_0000 && old(self).pages_unmapped(vaddr.0, (size / 4096) as int)
                && vaddr.0 % 4096 == 0 && paddr.0 % 4096 == 0 && size % 4096 == 0
                ==> r is Ok || r == Err::<(), PagingError>(PagingError::NoMemory),
            !(vaddr.0 % 4096 == 0 && paddr.0 % 4096 == 0 && size % 4096 == 0) ==> r == Err::<(), PagingError>(PagingError::NotAligned)
                && *final(self) == *old(self) && *final(alloc) == *old(alloc),
            vaddr.0 % 4096 == 0 && paddr.0 % 4096 == 0 && size % 4096 == 0 ==> r != Err::<(), PagingError>(PagingError::NotAligned),
            r is Ok ==> final(self).maps_pages(vaddr.0, paddr.0, attr.bits, (size / 4096) as int),
            r matches Err(e) ==> e == PagingError::NotAligned || exists|n: int| 0 <= n < size / 4096
                && #[trigger] final(self).maps_pages(vaddr.0, paddr.0, attr.bits, n)
                && final(self).adds_only(old(self), vaddr.0, n)
                && final(self).map_refused(final(alloc), (vaddr.0 + n * 4096) as u64, PageSize::Size4K, e),
    {
        proof {
            crate::math::lemma_pow2_exp(12);
            vstd::arithmetic::power2::lemma2_to64();
            assert(crate::math::is_pow2(4096)) by {
                assert(4096 == vstd::arithmetic::power2::pow2(12));
            }
        }
        let page = PageSize::Size4K.as_usize();
        if !vaddr.is_aligned(page) || !paddr.is_aligned(page) || !crate::memory_addr::is_aligned(size, page) {
            return Err(PagingError::NotAligned);
        }
        let ghost s0 = *self;
        let ghost v0 = vaddr.0;
        let ghost p0 = paddr.0;
        let mut rem = size;
        let mut cur_v = vaddr;
        let mut cur_p = paddr;
        let ghost total = size as int;
        let ghost a0 = alloc.heap().allocated_spec();
        while rem > 0
            invariant
                a0 == old(alloc).heap().allocated_spec(),
                alloc.heap().allocated_spec() + 3 * rem <= a0 + 3 * total,
                *old(self) == s0,
                self.wf(),
                self.frames_outside(alloc),
                alloc.wf(),
                self.extends(&s0),
                s0.wf(),
                page == 4096,
                v0 == vaddr.0,
                p0 == paddr.0,
                total == size,
                v0 % 4096 == 0,
                p0 % 4096 == 0,
                rem % 4096 == 0,
                total % 4096 == 0,
                0 <= rem <= total,
                cur_v.0 == v0 + (total - rem),
                cur_p.0 == p0 + (total - rem),
                v0 + total <= u64::MAX,
                p0 + total <= u64::MAX,
                alloc.heap().allocated_spec() + 3 * rem <= usize::MAX,
                self.maps_pages(v0, p0, attr.bits, (total - rem) / 4096),
                self.adds_only(&s0, v0, (total - rem) / 4096),
                s0.tree_shaped() ==> self.tree_shaped(),
            decreases rem,
        {
            let ghost before = *self;
            let ghost done = (total - rem) / 4096;
            let res = self.map(alloc, cur_v, cur_p, PageSize::Size4K, attr);
            proof {
                assert(self.extends(&s0)) by {
                    assert forall|k: int, i: int| 0 <= k < s0.pages().len() && 0 <= i < 512 && #[trigger] s0.entry(k, i) != 0
                        implies self.entry(k, i) == s0.entry(k, i) by {
                        assert(before.entry(k, i) == s0.entry(k, i));
                    }
                }
                assert forall|j: int| 0 <= j < done implies #[trigger] self.mapped(
                    (v0 + j * 4096) as u64, page_bits(attr.bits, (p0 + j * 4096) as u64, PageSize::Size4K), PageSize::Size4K) by {
                    assert(before.mapped((v0 + j * 4096) as u64, page_bits(attr.bits, (p0 + j * 4096) as u64, PageSize::Size4K), PageSize::Size4K));
                    self.lemma_extends_mapped(&before, (v0 + j * 4096) as u64,
                        page_bits(attr.bits, (p0 + j * 4096) as u64, PageSize::Size4K), PageSize::Size4K);
                }
                assert(cur_v.0 == v0 + done * 4096 && cur_p.0 == p0 + done * 4096) by (nonlinear_arith)
                    requires done == (total - rem) / 4096, (total - rem) % 4096 == 0,
                        cur_v.0 == v0 + (total - rem), cur_p.0 == p0 + (total - rem);
            }
            proof {
                assert forall|v2: u64, bits: u64, size: PageSize| #[trigger] self.mapped(v2, bits, size)
                    implies s0.mapped(v2, bits, size) || exists|j: int| 0 <= j < done + 1
                        && #[trigger] self.same_entry(v2, (v0 + j * 4096) as u64) by {
                    let from_before = if res is Ok {
                        before.mapped(v2, bits, size)
                    } else {
                        self.lemma_grown_maps_nothing_new(&before, v2, bits, size);
                        true
                    };
                    if from_before {
                        assert(before.mapped(v2, bits, size));
                        self.lemma_extends_mapped(&before, v2, bits, size);
                        if !s0.mapped(v2, bits, size) {
                            let j = choose|j: int| 0 <= j < done && #[trigger] before.same_entry(v2, (v0 + j * 4096) as u64);
                            let w = (v0 + j * 4096) as u64;
                            let b = page_bits(attr.bits, (p0 + j * 4096) as u64, PageSize::Size4K);
                            assert(before.mapped(w, b, PageSize::Size4K));
                            self.lemma_extends_mapped(&before, w, b, PageSize::Size4K);
                            assert(self.same_entry(v2, w));
                        }
                    } else {
                        assert(self.same_entry(v2, cur_v.0));
                        assert(cur_v.0 == (v0 + done * 4096) as u64);
                    }
                }
            }
            match res {
                Ok(()) => {},
                Err(e) => {
                    proof {
                        assert(0 <= done < total / 4096) by (nonlinear_arith)
                            requires done == (total - rem) / 4096, 0 < rem <= total, rem % 4096 == 0, total % 4096 == 0;
                        assert(self.maps_pages(v0, p0, attr.bits, done));
                        // the failed map added no mapping
                        assert forall|v2: u64, bits: u64, size: PageSize| #[trigger] self.mapped(v2, bits, size)
                            implies s0.mapped(v2, bits, size) || exists|j: int| 0 <= j < done
                                && #[trigger] self.same_entry(v2, (v0 + j * 4096) as u64) by {
                            self.lemma_grown_maps_nothing_new(&before, v2, bits, size);
                            self.lemma_extends_mapped(&before, v2, bits, size);
                            if !s0.mapped(v2, bits, size) {
                                let j = choose|j: int| 0 <= j < done && #[trigger] before.same_entry(v2, (v0 + j * 4096) as u64);
                                let w = (v0 + j * 4096) as u64;
                                let b = page_bits(attr.bits, (p0 + j * 4096) as u64, PageSize::Size4K);
                                assert(before.mapped(w, b, PageSize::Size4K));
                                self.lemma_extends_mapped(&before, w, b, PageSize::Size4K);
                                assert(self.same_entry(v2, w));
                            }
                        }
                        assert(self.adds_only(&s0, v0, done));
                        if s0.tree_shaped() && total <= 0x1_0000_0000_0000 && s0.pages_unmapped(v0, total / 4096) && e != PagingError::NoMemory {
                            // a tree of table entries refuses a page only when it is mapped,
                            // and none of the pages is mapped but those done, which differ from it
                            before.lemma_tree_way(cur_v.0);
                            assert(e == PagingError::AlreadyMapped);
                            assert(*self == before);
                            let loc = before.located_entry(cur_v.0, PageSize::Size4K);
                            assert(before.mapped(cur_v.0, loc, PageSize::Size4K));
                            assert(!s0.mapped((v0 + done * 4096) as u64, loc, PageSize::Size4K));
                            let m = choose|m: int| 0 <= m < done && #[trigger] before.same_entry(cur_v.0, (v0 + m * 4096) as u64);
                            let w = (v0 + m * 4096) as u64;
                            assert(before.mapped(w, page_bits(attr.bits, (p0 + m * 4096) as u64, PageSize::Size4K), PageSize::Size4K));
                            before.lemma_tree_same_leaf(cur_v.0, w);
                            assert(total / 4096 <= 0x10_0000_0000);
                            lemma_page_indices_distinct(v0, done, m);
                            assert(false);
                        }
                    }
                    return Err(e);
                },
            }
            proof {
                assert((total - (rem - 4096)) / 4096 == done + 1) by (nonlinear_arith)
                    requires done == (total - rem) / 4096, (total - rem) % 4096 == 0, rem >= 4096;
            }
            cur_v.add_assign(page);
            cur_p.add_assign(page);
            rem = rem - page;
        }
        Ok(())
    }

    /// The entry that the walk finds for a mapped page holds the page's frame,
    /// so unmapping the page gives back the frame and the size it was mapped with.
    pub proof fn lemma_mapped_entry(&self, v: u64, attr: usize, p: u64, size: PageSize)
        requires
            self.wf(),
            self.mapped(v, page_bits(attr, p, size), size),
        ensures
            self.walk(v) is Ok,
            self.walk(v)->Ok_0.2 == size,
            self.entry(self.walk(v)->Ok_0.0, self.walk(v)->Ok_0.1) == page_bits(attr, p, size),
            self.entry(self.walk(v)->Ok_0.0, self.walk(v)->Ok_0.1) != 0,
            pte_paddr(self.entry(self.walk(v)->Ok_0.0, self.walk(v)->Ok_0.1)) == p & PTE_ADDR_MASK,
    {
        lemma_page_entry(attr, size is Size1G || size is Size2M, p);
    }

    /// A mapped page is refused a second mapping of the same size: the way
    /// to its entry needs no table and meets no error, and the entry is used.
    pub proof fn lemma_mapped_refuses_map(&self, v: u64, bits: u64, size: PageSize)
        requires
            self.wf(),
            self.mapped(v, bits, size),
        ensures
            self.create_error(v, size) is None,
            !self.needs_table(v, size),
            self.located_entry(v, size) != 0,
    {
        lemma_idx_bounds(v);
        lemma_valid_nonzero(self.entry(0, l4_idx(v)));
        let t3 = self.next_table(0, l4_idx(v), 3)->Ok_0;
        lemma_valid_nonzero(self.entry(t3, l3_idx(v)));
        if !(size is Size1G) {
            let t2 = self.next_table(t3, l3_idx(v), 2)->Ok_0;
            lemma_valid_nonzero(self.entry(t2, l2_idx(v)));
        }
    }

    /// After the entry that the walk finds for `v` is cleared, the walk
    /// finds the same entry, now unused: `v` is no longer mapped, and a
    /// second unmap is refused.
    pub proof fn lemma_unmapped(&self, old: &PageTable64, v: u64, k: int, i: int, s: PageSize)
        requires
            old.wf(),
            old.walk(v) == Ok::<(int, int, PageSize), PagingError>((k, i, s)),
            self.pages() == old.pages(),
            self.root() == old.root(),
            self.table_levels() == old.table_levels(),
            self.tables_spec() == old.tables_spec().update(k, old.tables_spec()[k].update(i, PTE(0))),
        ensures
            self.walk(v) == old.walk(v),
            self.entry(k, i) == 0,
            forall|bits: u64, size: PageSize| !#[trigger] self.mapped(v, bits, size),
    {
        lemma_idx_bounds(v);
        let n = old.pages().len();
        assert(0 <= k < n) by {
            lemma_find_table(old.pages(), old.table_levels(), pte_paddr(old.entry(0, l4_idx(v))), 3, 0);
            let t3 = old.next_table(0, l4_idx(v), 3)->Ok_0;
            if !pte_huge(old.entry(t3, l3_idx(v))) {
                lemma_find_table(old.pages(), old.table_levels(), pte_paddr(old.entry(t3, l3_idx(v))), 2, 0);
                let t2 = old.next_table(t3, l3_idx(v), 2)->Ok_0;
                if !pte_huge(old.entry(t2, l2_idx(v))) {
                    lemma_find_table(old.pages(), old.table_levels(), pte_paddr(old.entry(t2, l2_idx(v))), 1, 0);
                }
            }
        }
        assert forall|k2: int, j: int| 0 <= k2 < n && 0 <= j < 512 && (k2 != k || j != i)
            implies #[trigger] self.entry(k2, j) == old.entry(k2, j) by {
            if k2 != k {
                assert(self.tables_spec()[k2] == old.tables_spec()[k2]);
            }
        }
        let t3 = old.next_table(0, l4_idx(v), 3)->Ok_0;
        lemma_find_table(old.pages(), old.table_levels(), pte_paddr(old.entry(0, l4_idx(v))), 3, 0);
        assert(old.table_levels()[t3] == 3);
        if pte_huge(old.entry(t3, l3_idx(v))) {
            assert(k == t3);
            assert(self.entry(0, l4_idx(v)) == old.entry(0, l4_idx(v)));
            assert(self.entry(t3, l3_idx(v)) == 0);
            crate::page_table_entry::lemma_zero_entry();
        } else {
            let t2 = old.next_table(t3, l3_idx(v), 2)->Ok_0;
            lemma_find_table(old.pages(), old.table_levels(), pte_paddr(old.entry(t3, l3_idx(v))), 2, 0);
            assert(old.table_levels()[t2] == 2);
            if pte_huge(old.entry(t2, l2_idx(v))) {
                assert(k == t2);
                assert(self.entry(0, l4_idx(v)) == old.entry(0, l4_idx(v)));
                assert(self.entry(t3, l3_idx(v)) == old.entry(t3, l3_idx(v)));
                assert(self.entry(t2, l2_idx(v)) == 0);
                crate::page_table_entry::lemma_zero_entry();
            } else {
                let t1 = old.next_table(t2, l2_idx(v), 1)->Ok_0;
                lemma_find_table(old.pages(), old.table_levels(), pte_paddr(old.entry(t2, l2_idx(v))), 1, 0);
                assert(old.table_levels()[t1] == 1);
                assert(k == t1);
                assert(self.entry(0, l4_idx(v)) == old.entry(0, l4_idx(v)));
                assert(self.entry(t3, l3_idx(v)) == old.entry(t3, l3_idx(v)));
                assert(self.entry(t2, l2_idx(v)) == old.entry(t2, l2_idx(v)));
            }
        }
    }

    /// Unmapping one page leaves every other page alone: for an address whose
    /// walk ends at another entry, the walk and what it finds are unchanged.
    pub proof fn lemma_unmap_keeps_others(&self, old: &PageTable64, v: u64, k: int, i: int, s: PageSize, v2: u64)
        requires
            old.wf(),
            old.walk(v) == Ok::<(int, int, PageSize), PagingError>((k, i, s)),
            old.entry(k, i) != 0,
            self.pages() == old.pages(),
            self.root() == old.root(),
            self.table_levels() == old.table_levels(),
            self.tables_spec() == old.tables_spec().update(k, old.tables_spec()[k].update(i, PTE(0))),
            old.walk(v2) is Ok,
            (old.walk(v2)->Ok_0.0, old.walk(v2)->Ok_0.1) != (k, i),
        ensures
            self.walk(v2) == old.walk(v2),
            self.entry(old.walk(v2)->Ok_0.0, old.walk(v2)->Ok_0.1) == old.entry(old.walk(v2)->Ok_0.0, old.walk(v2)->Ok_0.1),
            forall|bits: u64, size: PageSize| #[trigger] self.mapped(v2, bits, size) == old.mapped(v2, bits, size),
    {
        lemma_idx_bounds(v);
        lemma_idx_bounds(v2);
        let n = old.pages().len();
        // where the walk for `v` ends: a block entry, or an entry of a level-1 table
        let t3 = old.next_table(0, l4_idx(v), 3)->Ok_0;
        lemma_find_table(old.pages(), old.table_levels(), pte_paddr(old.entry(0, l4_idx(v))), 3, 0);
        if !pte_huge(old.entry(t3, l3_idx(v))) {
            lemma_find_table(old.pages(), old.table_levels(), pte_paddr(old.entry(t3, l3_idx(v))), 2, 0);
            let t2 = old.next_table(t3, l3_idx(v), 2)->Ok_0;
            if !pte_huge(old.entry(t2, l2_idx(v))) {
                lemma_find_table(old.pages(), old.table_levels(), pte_paddr(old.entry(t2, l2_idx(v))), 1, 0);
            }
        }
        assert(0 <= k < n && 0 <= i < 512);
        assert(pte_huge(old.entry(k, i)) || old.table_levels()[k] == 1);
        assert(old.table_levels()[k] <= 3);
        assert forall|k2: int, j: int| 0 <= k2 < n && 0 <= j < 512 && (k2 != k || j != i)
            implies #[trigger] self.entry(k2, j) == old.entry(k2, j) by {
            if k2 != k {
                assert(self.tables_spec()[k2] == old.tables_spec()[k2]);
            }
        }
        // the walk for `v2` only passes through table entries of tables above
        // level 1, and ends elsewhere than at `(k, i)`
        let u3 = old.next_table(0, l4_idx(v2), 3)->Ok_0;
        lemma_find_table(old.pages(), old.table_levels(), pte_paddr(old.entry(0, l4_idx(v2))), 3, 0);
        assert(old.table_levels()[u3] == 3);
        assert(self.entry(0, l4_idx(v2)) == old.entry(0, l4_idx(v2)));
        assert(self.entry(u3, l3_idx(v2)) == old.entry(u3, l3_idx(v2)));
        if !pte_huge(old.entry(u3, l3_idx(v2))) {
            let u2 = old.next_table(u3, l3_idx(v2), 2)->Ok_0;
            lemma_find_table(old.pages(), old.table_levels(), pte_paddr(old.entry(u3, l3_idx(v2))), 2, 0);
            assert(old.table_levels()[u2] == 2);
            assert(self.entry(u2, l2_idx(v2)) == old.entry(u2, l2_idx(v2)));
            if !pte_huge(old.entry(u2, l2_idx(v2))) {
                let u1 = old.next_table(u2, l2_idx(v2), 1)->Ok_0;
                lemma_find_table(old.pages(), old.table_levels(), pte_paddr(old.entry(u2, l2_idx(v2))), 1, 0);
                assert(self.entry(u1, l1_idx(v2)) == old.entry(u1, l1_idx(v2)));
            }
        }
    }

    /// Pages mapped in `old` stay mapped in a table structure that extends it.
    pub proof fn lemma_extends_maps_pages(&self, old: &PageTable64, v: u64, p: u64, attr: usize, n: int)
        requires
            old.wf(),
            self.wf(),
            self.extends(old),
            old.maps_pages(v, p, attr, n),
        ensures
            self.maps_pages(v, p, attr, n),
    {
        assert forall|j: int| 0 <= j < n implies #[trigger] self.mapped(
            (v + j * 4096) as u64, page_bits(attr, (p + j * 4096) as u64, PageSize::Size4K), PageSize::Size4K) by {
            assert(old.mapped((v + j * 4096) as u64, page_bits(attr, (p + j * 4096) as u64, PageSize::Size4K), PageSize::Size4K));
            self.lemma_extends_mapped(old, (v + j * 4096) as u64, page_bits(attr, (p + j * 4096) as u64, PageSize::Size4K), PageSize::Size4K);
        }
    }
}

} // verus!
