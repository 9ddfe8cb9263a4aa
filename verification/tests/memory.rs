use mimicros::allocator::{AllocError, GlobalAllocator};
use mimicros::buddy::{blocks_fit_range, prev_power_of_two, Heap};
use mimicros::layout::Layout;
use mimicros::linked_list::LinkedList;
use mimicros::memory_addr::{align_down, align_up, is_aligned, PhysAddr, VirtAddr};

#[test]
fn align_helpers() {
    assert_eq!(align_down(0x1234, 0x1000), 0x1000);
    assert_eq!(align_up(0x1234, 0x1000), 0x2000);
    assert_eq!(align_up(0x2000, 0x1000), 0x2000);
    assert_eq!(align_down(0, 8), 0);
    assert!(is_aligned(0x3000, 0x1000));
    assert!(!is_aligned(0x3004, 0x1000));
}

#[test]
fn address_types() {
    let p = PhysAddr::from(0x4000_1000);
    assert_eq!(p.as_usize(), 0x4000_1000);
    assert!(p.is_aligned(0x1000));
    assert!(!p.is_aligned(0x2000));
    let mut v = VirtAddr::from(0x1000);
    v.add_assign(0x2000);
    assert_eq!(v, VirtAddr(0x3000));
    assert_eq!(v.add(0x10).as_usize(), 0x3010);
}

#[test]
fn layout_checks() {
    let l = Layout::from_size_align(24, 8).unwrap();
    assert_eq!(l.size(), 24);
    assert_eq!(l.align(), 8);
    assert!(Layout::from_size_align(24, 3).is_err());
    assert!(Layout::from_size_align(24, 0).is_err());
    assert!(Layout::from_size_align(usize::MAX, 8).is_err());
}

#[test]
fn linked_list_is_a_stack() {
    let mut l = LinkedList::new();
    assert!(l.is_empty());
    l.push(0x1000);
    l.push(0x2000);
    l.push(0x3000);
    assert_eq!(l.len(), 3);
    let mut it = l.iter();
    assert_eq!(it.next(), Some(0x3000));
    assert_eq!(it.next(), Some(0x2000));
    assert_eq!(it.next(), Some(0x1000));
    assert_eq!(it.next(), None);
    let nodes = l.iter_mut();
    assert_eq!(nodes.len(), 3);
    assert_eq!(nodes[1].value(), 0x2000);
    assert_eq!(nodes[1].pop_current(&mut l), 0x2000);
    assert_eq!(l.pop(), Some(0x3000));
    assert_eq!(l.pop(), Some(0x1000));
    assert_eq!(l.pop(), None);
}

#[test]
fn prev_power_of_two_values() {
    assert_eq!(prev_power_of_two(1), 1);
    assert_eq!(prev_power_of_two(5), 4);
    assert_eq!(prev_power_of_two(4096), 4096);
    assert_eq!(prev_power_of_two(0x1fff), 0x1000);
}

#[test]
fn heap_hands_out_aligned_blocks() {
    let mut h: Heap<32> = Heap::new();
    h.add_to_heap(0x10000, 0x20000);
    let a = h.allocate(Layout::from_size_align(4096, 4096).unwrap()).unwrap();
    assert_eq!(a % 4096, 0);
    assert!(a >= 0x10000 && a + 4096 <= 0x20000);
    let b = h.allocate(Layout::from_size_align(100, 8).unwrap()).unwrap();
    assert_eq!(b % 128, 0);
    assert!(b + 128 <= a || a + 4096 <= b);
}

#[test]
fn heap_runs_out() {
    let mut h: Heap<32> = Heap::new();
    h.add_to_heap(0x10000, 0x11000);
    assert!(h.allocate(Layout::from_size_align(4096, 4096).unwrap()).is_ok());
    assert!(h.allocate(Layout::from_size_align(8, 8).unwrap()).is_err());
}

#[test]
fn freeing_what_was_allocated_restores_the_heap() {
    let mut h: Heap<32> = Heap::new();
    h.add_to_heap(0x10000, 0x20000);
    let layout = Layout::from_size_align(4096, 4096).unwrap();
    let a = h.allocate(layout).unwrap();
    h.dealloc(a, layout);
    let whole = Layout::from_size_align(0x10000, 0x10000).unwrap();
    assert_eq!(h.allocate(whole), Ok(0x10000));
}

#[test]
fn global_allocator_pages() {
    let mut g = GlobalAllocator::new();
    assert_eq!(g.alloc_pages(1), Err(AllocError::NoMemory));
    g.init(0x100000, 0x10000);
    let p = g.alloc_pages(2).unwrap();
    assert_eq!(p % 0x2000, 0);
    let q = g.alloc_pages(1).unwrap();
    assert_ne!(p, q);
    g.dealloc_pages(q, 1);
    g.dealloc_pages(p, 2);
    assert_eq!(g.alloc_pages(16), Ok(0x100000));
    assert_eq!(g.alloc_pages(usize::MAX / 4096), Err(AllocError::InvalidParam));
}

#[test]
fn freeing_after_other_frees_restores_free_memory() {
    let mut h: Heap<32> = Heap::new();
    h.add_to_heap(0x10000, 0x20000);
    let page = Layout::from_size_align(4096, 4096).unwrap();
    let small = Layout::from_size_align(64, 64).unwrap();
    let a = h.allocate(page).unwrap();
    let b = h.allocate(small).unwrap();
    let c = h.allocate(page).unwrap();
    assert!(h.allocate(Layout::from_size_align(0x10000, 0x10000).unwrap()).is_err());
    h.dealloc(b, small);
    h.dealloc(c, page);
    h.dealloc(a, page);
    let whole = Layout::from_size_align(0x10000, 0x10000).unwrap();
    assert_eq!(h.allocate(whole), Ok(0x10000));
}

#[test]
fn heap_takes_a_range_as_long_as_its_classes() {
    assert!(blocks_fit_range(8, 8 + 256, 8));
    assert!(!blocks_fit_range(0x100, 0x200, 8));
    assert!(blocks_fit_range(0x100, 0x1ff, 8));
    let mut h: Heap<8> = Heap::new();
    h.add_to_heap(8, 8 + 256);
    assert_eq!(h.allocate(Layout::from_size_align(128, 128).unwrap()), Ok(128));
    assert_eq!(h.allocate(Layout::from_size_align(8, 8).unwrap()), Ok(256));
}
