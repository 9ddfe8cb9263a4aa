use mimicros::allocator::GlobalAllocator;
use mimicros::memory_addr::{PhysAddr, VirtAddr};
use mimicros::page_table::{phys_to_virt, virt_to_phys, PageSize, PageTable64, PagingError, PHYS_VIRT_OFFSET};
use mimicros::page_table_entry::{
    MemoryAttribute, PTE, ATTR_DEVICE, ATTR_EXECUTE, ATTR_READ, ATTR_WRITE, DESC_AF, DESC_NON_BLOCK, DESC_VALID,
    PTE_ADDR_MASK,
};

fn allocator(pages: usize) -> GlobalAllocator {
    let mut g = GlobalAllocator::new();
    g.init((PHYS_VIRT_OFFSET + 0x8000_0000) as usize, pages * 4096);
    g
}

fn rw() -> MemoryAttribute {
    MemoryAttribute::from_bits_retain(ATTR_READ | ATTR_WRITE)
}

#[test]
fn address_window() {
    let v = phys_to_virt(PhysAddr(0x4000_0000));
    assert_eq!(v.0, 0xFFFF_0000_4000_0000);
    assert_eq!(virt_to_phys(v), PhysAddr(0x4000_0000));
}

#[test]
fn page_sizes() {
    assert_eq!(PageSize::Size4K.as_usize(), 0x1000);
    assert_eq!(PageSize::Size2M.as_usize(), 0x20_0000);
    assert_eq!(PageSize::Size1G.as_usize(), 0x4000_0000);
    assert!(!PageSize::Size4K.is_huge());
    assert_eq!(usize::from(PageSize::Size2M), 0x20_0000);
    assert!(PageSize::Size2M.is_huge());
}

#[test]
fn entries() {
    let t = PTE::new_table(PhysAddr(0x8000_1000));
    assert!(t.is_valid());
    assert!(!t.is_huge());
    assert_eq!(t.paddr(), PhysAddr(0x8000_1000));
    let p = PTE::new_page(PhysAddr(0x4000_0000), rw(), true);
    assert!(p.is_valid());
    assert!(p.is_huge());
    assert_eq!(p.0 & DESC_AF, DESC_AF);
    assert_eq!(p.0 & PTE_ADDR_MASK, 0x4000_0000);
    let q = PTE::new_page(PhysAddr(0x1234_5678), MemoryAttribute::from_bits_retain(ATTR_WRITE), false);
    assert_eq!(q.0 & DESC_VALID, 0);
    assert_eq!(q.0 & DESC_NON_BLOCK, DESC_NON_BLOCK);
    assert_eq!(q.paddr(), PhysAddr(0x1234_5000));
    let mut e = p;
    e.clear();
    assert!(e.is_unused());
    assert!(PTE::empty().is_unused());
}

#[test]
fn map_walk_unmap() {
    let mut a = allocator(64);
    let mut pt = PageTable64::new(&mut a);
    let v = VirtAddr(0xFFFF_0000_0012_3000);
    assert_eq!(pt.map(&mut a, v, PhysAddr(0x4567_8000), PageSize::Size4K, rw()), Ok(()));
    let (e, size) = pt.get_entry_mut(v).unwrap();
    assert_eq!(size, PageSize::Size4K);
    let entry = pt.entry_at(e.table, e.index);
    assert_eq!(entry.paddr(), PhysAddr(0x4567_8000));
    assert!(entry.is_valid());
    assert_eq!(pt.map(&mut a, v, PhysAddr(0x1000), PageSize::Size4K, rw()), Err(PagingError::AlreadyMapped));
    assert_eq!(pt.unmap(v), Ok((PhysAddr(0x4567_8000), PageSize::Size4K)));
    assert_eq!(pt.unmap(v), Err(PagingError::NotMapped));
    assert_eq!(pt.unmap(VirtAddr(0x7000_0000_0000)), Err(PagingError::NotMapped));
}

#[test]
fn huge_pages() {
    let mut a = allocator(64);
    let mut pt = PageTable64::new(&mut a);
    let base = VirtAddr(0x4000_0000);
    assert_eq!(pt.map(&mut a, base, PhysAddr(0x8000_0000), PageSize::Size1G, rw()), Ok(()));
    assert_eq!(pt.get_entry_mut(VirtAddr(0x4123_4000)).unwrap().1, PageSize::Size1G);
    assert_eq!(
        pt.map(&mut a, VirtAddr(0x4000_1000), PhysAddr(0), PageSize::Size4K, rw()),
        Err(PagingError::MappedToHugePage)
    );
    assert_eq!(pt.map(&mut a, VirtAddr(0x8020_0000), PhysAddr(0x20_0000), PageSize::Size2M, rw()), Ok(()));
    assert_eq!(pt.unmap(VirtAddr(0x8020_0000)), Ok((PhysAddr(0x20_0000), PageSize::Size2M)));
    assert_eq!(pt.unmap(base), Ok((PhysAddr(0x8000_0000), PageSize::Size1G)));
}

#[test]
fn memmap_maps_every_page() {
    let mut a = allocator(64);
    let mut pt = PageTable64::new(&mut a);
    let attr = MemoryAttribute::from_bits_retain(ATTR_READ | ATTR_WRITE | ATTR_EXECUTE);
    assert_eq!(pt.memmap(&mut a, VirtAddr(0x1000_0000), PhysAddr(0x2000_0000), 0x8000, attr), Ok(()));
    for k in 0..8u64 {
        let (e, size) = pt.get_entry_mut(VirtAddr(0x1000_0000 + k * 0x1000)).unwrap();
        assert_eq!(size, PageSize::Size4K);
        assert_eq!(pt.entry_at(e.table, e.index).paddr(), PhysAddr(0x2000_0000 + k * 0x1000));
    }
    assert_eq!(pt.unmap(VirtAddr(0x1000_8000)), Err(PagingError::NotMapped));
}

#[test]
fn memmap_refuses_unaligned() {
    let mut a = allocator(64);
    let mut pt = PageTable64::new(&mut a);
    let attr = MemoryAttribute::from_bits_retain(ATTR_READ | ATTR_DEVICE);
    assert_eq!(pt.memmap(&mut a, VirtAddr(0x1000_0010), PhysAddr(0), 0x1000, attr), Err(PagingError::NotAligned));
    assert_eq!(pt.memmap(&mut a, VirtAddr(0x1000_0000), PhysAddr(0x10), 0x1000, attr), Err(PagingError::NotAligned));
    assert_eq!(pt.memmap(&mut a, VirtAddr(0x1000_0000), PhysAddr(0), 0x1001, attr), Err(PagingError::NotAligned));
}

#[test]
fn memmap_stops_at_a_mapped_page() {
    let mut a = allocator(64);
    let mut pt = PageTable64::new(&mut a);
    assert_eq!(pt.map(&mut a, VirtAddr(0x1000_2000), PhysAddr(0x9000), PageSize::Size4K, rw()), Ok(()));
    assert_eq!(
        pt.memmap(&mut a, VirtAddr(0x1000_0000), PhysAddr(0x2000_0000), 0x4000, rw()),
        Err(PagingError::AlreadyMapped)
    );
    assert!(pt.get_entry_mut(VirtAddr(0x1000_1000)).is_ok());
    assert_eq!(pt.unmap(VirtAddr(0x1000_1000)), Ok((PhysAddr(0x2000_1000), PageSize::Size4K)));
}

#[test]
fn tables_need_memory() {
    let mut a = allocator(1);
    let mut pt = PageTable64::new(&mut a);
    assert_eq!(
        pt.map(&mut a, VirtAddr(0x1000), PhysAddr(0x1000), PageSize::Size4K, rw()),
        Err(PagingError::NoMemory)
    );
    assert_eq!(pt.root_addr().0 % 4096, 0);
}

#[test]
fn unmap_keeps_other_pages() {
    let mut a = allocator(64);
    let mut pt = PageTable64::new(&mut a);
    assert_eq!(pt.map(&mut a, VirtAddr(0x5000_0000), PhysAddr(0x1000), PageSize::Size4K, rw()), Ok(()));
    assert_eq!(pt.map(&mut a, VirtAddr(0x5000_1000), PhysAddr(0x2000), PageSize::Size4K, rw()), Ok(()));
    assert_eq!(pt.unmap(VirtAddr(0x5000_0000)), Ok((PhysAddr(0x1000), PageSize::Size4K)));
    let (e, _) = pt.get_entry_mut(VirtAddr(0x5000_1000)).unwrap();
    assert_eq!(pt.entry_at(e.table, e.index).paddr(), PhysAddr(0x2000));
    // the same page can be mapped again once unmapped
    assert_eq!(pt.map(&mut a, VirtAddr(0x5000_0000), PhysAddr(0x3000), PageSize::Size4K, rw()), Ok(()));
}

#[test]
fn mapping_one_page_maps_nothing_else() {
    let mut a = allocator(64);
    let mut pt = PageTable64::new(&mut a);
    assert_eq!(pt.map(&mut a, VirtAddr(0x5000_0000), PhysAddr(0x1000), PageSize::Size4K, rw()), Ok(()));
    assert_eq!(pt.unmap(VirtAddr(0x5000_1000)), Err(PagingError::NotMapped));
    assert_eq!(pt.unmap(VirtAddr(0x5020_0000)), Err(PagingError::NotMapped));
    assert_eq!(pt.unmap(VirtAddr(0x9000_0000)), Err(PagingError::NotMapped));
    // an address within the same page finds the same entry
    assert_eq!(pt.get_entry_mut(VirtAddr(0x5000_0123)).unwrap(), pt.get_entry_mut(VirtAddr(0x5000_0000)).unwrap());
}
