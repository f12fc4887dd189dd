use rustable::page::{
    align_down, align_up, page2kva, page2pa, page2ppn, page2va, Page, KADDR, KERNEL_PAGES, OFFSET,
    PADDR, PPN, PT0X, PT1X, PT2X, PT3X, PTE_ADDR, USER_PAGES, VA2PFN, VPN,
};

#[test]
fn table_indices() {
    let va: u64 = (1 << 39) | (3 << 30) | (5 << 21) | (7 << 12) | 0x123;
    assert_eq!(PT0X(va), 1);
    assert_eq!(PT1X(va), 3);
    assert_eq!(PT2X(va), 5);
    assert_eq!(PT3X(va), 7);
    assert_eq!(PT0X(0xFFFF_FFFF_FFFF_FFFF), 511);
    assert_eq!(PT0X(1 << 40), 2);
    assert_eq!(PT1X(0xFFFF_FFFF_FFFF_FFFF), 511);
}

#[test]
fn address_fields() {
    assert_eq!(PTE_ADDR(0xFFFF_FF12_3456_7FC3), 0x12_3456_7000);
    assert_eq!(OFFSET(0x1234_5678), 0x678);
    assert_eq!(PPN(0x1234_5678), 0x12345);
    assert_eq!(VPN(0xFFFF_FF12_3456_7FC3), 0x12_3456_7);
    assert_eq!(KADDR(0x1000), 0xFFFF_FF00_0000_1000);
    assert_eq!(PADDR(0xFFFF_FF00_0000_1000), 0x1000);
    assert_eq!(VA2PFN(0xFFFF_1234_5678_9ABC), 0x1234_5678_9000);
}

#[test]
fn alignment() {
    assert_eq!(align_down(0x1234, 0x1000), 0x1000);
    assert_eq!(align_up(0x1234, 0x1000), 0x2000);
    assert_eq!(align_up(0x2000, 0x1000), 0x2000);
    assert_eq!(align_down(0, 8), 0);
    assert_eq!(align_up(1, 1), 1);
}

#[test]
fn descriptor_addresses() {
    let d = KERNEL_PAGES + 3 * 24;
    assert_eq!(page2ppn(d), 3);
    assert_eq!(page2pa(d), 0x3000);
    assert_eq!(page2kva(d), 0xFFFF_FF00_0000_3000);
    assert_eq!(page2va(USER_PAGES + 5 * 24), 0x5000);
}

#[test]
fn descriptor_flags_and_counts() {
    let mut p = Page::new();
    p.SetPageReserved();
    p.SetPageProperty();
    p.SetPageUsed();
    assert_eq!(p.flags, 0b111);
    assert!(p.isUsed());
    p.ClearPageProperty();
    assert_eq!(p.flags, 0b101);
    p.ClearPageReserved();
    assert_eq!(p.flags, 0b100);
    p.ClearPageUsed();
    assert_eq!(p.flags, 0);
    assert!(!p.isUsed());
    p.set_page_ref(4);
    assert_eq!(p.page_ref_inc(), 5);
    assert_eq!(p.page_ref_dec(), 4);
    assert_eq!(p.reference, 4);
}

#[test]
fn descriptors_of_physical_addresses() {
    assert_eq!(rustable::page::pa2page(0x3456), KERNEL_PAGES + 3 * 24);
    assert_eq!(rustable::page::user_pa2page(0x5000), USER_PAGES + 5 * 24);
}
