use mimicros::boot::init_boot_page_table;
use mimicros::memory_addr::PhysAddr;

#[test]
fn boot_tables() {
    let (l0, dev, normal) = init_boot_page_table(PhysAddr(0x4008_2000));
    assert!(l0.is_valid() && !l0.is_huge());
    assert_eq!(l0.paddr(), PhysAddr(0x4008_2000));
    assert!(dev.is_valid() && dev.is_huge());
    assert_eq!(dev.paddr(), PhysAddr(0));
    assert!(normal.is_valid() && normal.is_huge());
    assert_eq!(normal.paddr(), PhysAddr(0x4000_0000));
    assert_ne!(dev.0, normal.0 & !0x4000_0000);
}
