use neoastrenos_kernel::page_table_entry::{
    PageFlags, PageTableEntry, FLAG_NO_EXECUTE, FLAG_PAGE_SIZE, FLAG_PRESENT, FLAG_WRITABLE,
};
use neoastrenos_kernel::phys_addr::PhysAddr;

#[test]
fn table_pointer_round_trips_address() {
    let addr = PhysAddr::new(0x1234_5000);
    let entry = PageTableEntry::new_table_pointer(addr);
    assert!(entry.is_present());
    assert!(entry.is_writable());
    assert_eq!(entry.addr(), addr);
}

#[test]
fn leaf_round_trips_address_and_flags() {
    let addr = PhysAddr::new(0xABCD_E000);
    let entry = PageTableEntry::new_leaf(
        addr,
        PageFlags {
            writable: false,
            no_execute: true,
        },
    );
    assert!(entry.is_present());
    assert!(!entry.is_writable());
    assert!(entry.is_no_execute());
    assert_eq!(entry.addr(), addr);
}

#[test]
fn read_write_default_is_writable_and_executable() {
    let entry = PageTableEntry::new_leaf(PhysAddr::new(0x2000), PageFlags::read_write());
    assert!(entry.is_writable());
    assert!(!entry.is_no_execute());
}

#[test]
fn address_mask_ignores_flag_bits() {
    let addr = PhysAddr::new(0x1_2345_6000);
    let entry = PageTableEntry::new_leaf(addr, PageFlags::read_write());
    assert_eq!(entry.addr(), addr);
}

#[test]
fn cleared_is_not_present() {
    assert!(!PageTableEntry::cleared().is_present());
}

#[test]
fn raw_entry_values_are_exact() {
    let leaf = PageTableEntry::new_leaf(
        PhysAddr::new(0xABCD_E000),
        PageFlags {
            writable: true,
            no_execute: true,
        },
    );
    assert_eq!(leaf.to_raw(), 0x8000_0000_ABCD_E003);
    let table = PageTableEntry::new_table_pointer(PhysAddr::new(0x5000));
    assert_eq!(table.to_raw(), 0x5003);
    assert_eq!(PageTableEntry::cleared().to_raw(), 0);
    assert_eq!(FLAG_PRESENT | FLAG_WRITABLE, 3);
    assert_eq!(FLAG_NO_EXECUTE, 1u64 << 63);
}

#[test]
fn low_bits_and_bits_above_51_of_an_address_are_dropped() {
    let entry = PageTableEntry::new_leaf(PhysAddr::new(0xFFF0_0000_0000_1FFF), PageFlags::read_write());
    assert_eq!(entry.addr(), PhysAddr::new(0x1000));
    assert!(!entry.is_no_execute());
    assert!(!entry.raw_has_flag(FLAG_PAGE_SIZE));
}

#[test]
fn raw_entries_read_back_their_bits() {
    let huge = PageTableEntry::from_raw(0x4000_0083);
    assert!(huge.is_present());
    assert!(huge.is_writable());
    assert!(huge.raw_has_flag(FLAG_PAGE_SIZE));
    assert_eq!(huge.addr(), PhysAddr::new(0x4000_0000));
    let absent = PageTableEntry::from_raw(0x1000);
    assert!(!absent.is_present());
}
