use neoastrenos_kernel::gdt::{
    segment_descriptor, tss_descriptor, ACCESS_KERNEL_CODE, ACCESS_KERNEL_DATA, KERNEL_CODE_SELECTOR,
};
use neoastrenos_kernel::idt::{empty_idt, install_handlers, set_entry, IdtEntry, TYPE_ATTR_INTERRUPT_GATE};

#[test]
fn flat_segment_descriptors_have_the_standard_values() {
    assert_eq!(segment_descriptor(ACCESS_KERNEL_CODE, true), 0x00AF_9A00_0000_FFFF);
    assert_eq!(segment_descriptor(ACCESS_KERNEL_DATA, false), 0x00CF_9200_0000_FFFF);
}

#[test]
fn tss_descriptor_splits_the_base_address() {
    let (low, high) = tss_descriptor(0x1234_5678_9ABC_DEF0);
    assert_eq!(low, 0x9A00_89BC_DEF0_0067);
    assert_eq!(high, 0x1234_5678);
}

#[test]
fn a_missing_entry_is_all_zero_and_set_handler_splits_the_address() {
    let missing = IdtEntry::missing();
    assert_eq!(missing.type_attr, 0);
    assert_eq!(missing.offset_low, 0);
    let mut entry = missing;
    entry.set_handler(0xFFFF_FFFF_8012_3456, 1);
    assert_eq!(entry.offset_low, 0x3456);
    assert_eq!(entry.offset_mid, 0x8012);
    assert_eq!(entry.offset_high, 0xFFFF_FFFF);
    assert_eq!(entry.selector, KERNEL_CODE_SELECTOR);
    assert_eq!(entry.ist, 1);
    assert_eq!(entry.type_attr, TYPE_ATTR_INTERRUPT_GATE);
    assert_eq!(entry.reserved, 0);
}

#[test]
fn installing_handlers_fills_the_exception_vectors_only() {
    let mut idt = empty_idt();
    let mut handlers = [0u64; 32];
    for (v, h) in handlers.iter_mut().enumerate() {
        *h = 0xFFFF_FFFF_8000_1000 + (v as u64) * 0x40;
    }
    install_handlers(&mut idt, &handlers);
    for v in 0..32 {
        let e = idt[v];
        let addr = e.offset_low as u64 | ((e.offset_mid as u64) << 16) | ((e.offset_high as u64) << 32);
        assert_eq!(addr, handlers[v]);
        assert_eq!(e.ist, if v == 8 { 1 } else { 0 });
        assert_eq!(e.type_attr, 0x8E);
    }
    for v in 32..256 {
        assert_eq!(idt[v], IdtEntry::missing());
    }
    set_entry(&mut idt, 32, 0x1234, 0);
    assert_eq!(idt[32].offset_low, 0x1234);
    assert_eq!(idt[32].type_attr, 0x8E);
}
