//! The kernel's address space at boot: the early tables that map the first
//! two gigabytes with blocks, and the final tables that map them page by
//! page in the kernel's window onto physical memory.
use vstd::prelude::*;
use crate::allocator::{GlobalAllocator, blocks_at_least, PAGE_SIZE, HEAP_ORDER};
use crate::buddy::first_nonempty;
use crate::memory_addr::{PhysAddr, VirtAddr};
use crate::page_table::{PageTable64, PageSize, PagingError, PHYS_VIRT_OFFSET, page_bits};
use crate::page_table_entry::{PTE, MemoryAttribute, ATTR_READ, ATTR_WRITE, ATTR_EXECUTE, ATTR_DEVICE};

verus! {

/// One gigabyte.
pub const GIB: usize = 0x4000_0000;

/// The attributes of device memory: readable and writable.
pub open spec fn device_attr() -> usize {
    ATTR_READ | ATTR_WRITE | ATTR_DEVICE
}

/// The attributes of the kernel's normal memory: readable, writable and
/// executable.
pub open spec fn normal_attr() -> usize {
    ATTR_READ | ATTR_WRITE | ATTR_EXECUTE
}

/// The entries of the boot tables: the first entry of the level-0 table
/// leads to the level-1 table at `l1_paddr`, whose first entry maps the
/// first gigabyte as device memory and whose second maps the next one as
/// normal memory, both with 1 GiB blocks.
pub fn init_boot_page_table(l1_paddr: PhysAddr) -> (r: (PTE, PTE, PTE))
    ensures
        r.0 == PTE::new_table_spec(l1_paddr),
        r.1.0 == crate::page_table::page_bits(device_attr(), 0, crate::page_table::PageSize::Size1G),
        r.2.0 == crate::page_table::page_bits(normal_attr(), 0x4000_0000, crate::page_table::PageSize::Size1G),
{
    let l0 = PTE::new_table(l1_paddr);
    let dev = MemoryAttribute::from_bits_retain(ATTR_READ | ATTR_WRITE | ATTR_DEVICE);
    let normal = MemoryAttribute::from_bits_retain(ATTR_READ | ATTR_WRITE | ATTR_EXECUTE);
    let l1_0 = PTE::new_page(PhysAddr::from(0), dev, true);
    let l1_1 = PTE::new_page(PhysAddr::from(0x4000_0000), normal, true);
    (l0, l1_0, l1_1)
}

/// The kernel's page table: the first gigabyte of physical memory mapped as
/// device memory and the second as normal memory, both page by page at
/// `PHYS_VIRT_OFFSET` above their physical addresses, with table frames from
/// `alloc`.
pub fn remap_kernel_memory(alloc: &mut GlobalAllocator) -> (r: Result<PageTable64, PagingError>)
    requires
        old(alloc).wf(),
        blocks_at_least(old(alloc).heap().lists(), PHYS_VIRT_OFFSET as int),
        old(alloc).heap().allocated_spec() + PAGE_SIZE + 6 * GIB <= usize::MAX,
        first_nonempty(old(alloc).heap().lists(), 12) < HEAP_ORDER,
    ensures
        final(alloc).wf(),
        r matches Ok(t) ==> {
            &&& t.wf()
            &&& t.frames_outside(final(alloc))
            &&& t.maps_pages(PHYS_VIRT_OFFSET, 0, device_attr(), 0x4_0000)
            &&& t.maps_pages((PHYS_VIRT_OFFSET + 0x4000_0000) as u64, 0x4000_0000, normal_attr(), 0x4_0000)
            &&& forall|v: u64, bits: u64, size: PageSize| #[trigger] t.mapped(v, bits, size) ==> exists|j: int| 0 <= j < 0x8_0000
                && #[trigger] t.same_entry(v, (PHYS_VIRT_OFFSET + j * 4096) as u64)
        },
        r matches Err(e) ==> e == PagingError::NoMemory,
        r is Err ==> first_nonempty(final(alloc).heap().lists(), 12) >= HEAP_ORDER,
{
    let mut page_table = PageTable64::new(alloc);
    let ghost empty = page_table;
    proof {
        assert forall|v: u64, bits: u64, size: PageSize| !#[trigger] empty.mapped(v, bits, size) by {
            crate::page_table::lemma_idx_bounds(v);
            assert(empty.entry(0, crate::page_table::l4_idx(v)) == 0);
            assert(!crate::page_table_entry::pte_valid(0u64)) by (bit_vector);
        }
        assert(empty.tree_shaped());
        assert(empty.pages_unmapped(PHYS_VIRT_OFFSET, 0x4_0000));
    }
    let dev = MemoryAttribute::from_bits_retain(ATTR_READ | ATTR_WRITE | ATTR_DEVICE);
    let normal = MemoryAttribute::from_bits_retain(ATTR_READ | ATTR_WRITE | ATTR_EXECUTE);
    proof {
        assert(0x4000_0000usize % 4096 == 0);
    }
    match page_table.memmap(alloc, VirtAddr(PHYS_VIRT_OFFSET), PhysAddr::from(0), GIB, dev) {
        Ok(()) => {},
        Err(e) => {
            return Err(e);
        },
    }
    let ghost first = page_table;
    proof {
        let va2 = (PHYS_VIRT_OFFSET + 0x4000_0000) as u64;
        assert forall|j: int, bits: u64| 0 <= j < 0x4_0000 implies !#[trigger] first.mapped((va2 + j * 4096) as u64, bits, PageSize::Size4K) by {
            let w = (va2 + j * 4096) as u64;
            if first.mapped(w, bits, PageSize::Size4K) {
                assert(!empty.mapped(w, bits, PageSize::Size4K));
                let m = choose|m: int| 0 <= m < 0x4_0000 && #[trigger] first.same_entry(w, (PHYS_VIRT_OFFSET + m * 4096) as u64);
                let u = (PHYS_VIRT_OFFSET + m * 4096) as u64;
                assert(first.mapped(u, page_bits(device_attr(), (0 + m * 4096) as u64, PageSize::Size4K), PageSize::Size4K));
                first.lemma_tree_same_leaf(w, u);
                assert(w == (PHYS_VIRT_OFFSET + (j + 0x4_0000) * 4096) as u64);
                crate::page_table::lemma_page_indices_distinct(PHYS_VIRT_OFFSET, j + 0x4_0000, m);
            }
        }
    }
    match page_table.memmap(alloc, VirtAddr(PHYS_VIRT_OFFSET + 0x4000_0000), PhysAddr::from(0x4000_0000), GIB, normal) {
        Ok(()) => {},
        Err(e) => {
            return Err(e);
        },
    }
    proof {
        page_table.lemma_extends_maps_pages(&first, PHYS_VIRT_OFFSET, 0, device_attr(), 0x4_0000);
        let t = page_table;
        assert forall|v: u64, bits: u64, size: PageSize| #[trigger] t.mapped(v, bits, size) implies exists|j: int| 0 <= j < 0x8_0000
            && #[trigger] t.same_entry(v, (PHYS_VIRT_OFFSET + j * 4096) as u64) by {
            if first.mapped(v, bits, size) {
                let j = choose|j: int| 0 <= j < 0x4_0000 && #[trigger] first.same_entry(v, (PHYS_VIRT_OFFSET + j * 4096) as u64);
                let w = (PHYS_VIRT_OFFSET + j * 4096) as u64;
                let b = page_bits(device_attr(), (0 + j * 4096) as u64, PageSize::Size4K);
                assert(first.mapped(w, b, PageSize::Size4K));
                t.lemma_extends_mapped(&first, w, b, PageSize::Size4K);
                t.lemma_extends_mapped(&first, v, bits, size);
                assert(t.same_entry(v, w));
            } else {
                let j = choose|j: int| 0 <= j < 0x4_0000 && #[trigger] t.same_entry(v, ((PHYS_VIRT_OFFSET + 0x4000_0000) as u64 + j * 4096) as u64);
                assert(((PHYS_VIRT_OFFSET + 0x4000_0000) as u64 + j * 4096) as u64 == (PHYS_VIRT_OFFSET + (j + 0x4_0000) * 4096) as u64);
                assert(t.same_entry(v, (PHYS_VIRT_OFFSET + (j + 0x4_0000) * 4096) as u64));
            }
        }
    }
    Ok(page_table)
}

} // verus!
