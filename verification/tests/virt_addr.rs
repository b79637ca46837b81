use neoastrenos_kernel::virt_addr::VirtAddr;

#[test]
fn kernel_virtual_base_decomposes_to_pml4_511_pdpt_510() {
    let addr = VirtAddr::new(0xFFFF_FFFF_8000_0000);
    assert_eq!(addr.pml4_index(), 511);
    assert_eq!(addr.pdpt_index(), 510);
    assert_eq!(addr.pd_index(), 0);
    assert_eq!(addr.pt_index(), 0);
    assert_eq!(addr.page_offset(), 0);
}

#[test]
fn identity_map_base_decomposes_to_pml4_0() {
    let addr = VirtAddr::new(0x0000_0000_0000_0000);
    assert_eq!(addr.pml4_index(), 0);
    assert_eq!(addr.pdpt_index(), 0);
    assert_eq!(addr.pd_index(), 0);
    assert_eq!(addr.pt_index(), 0);
}

#[test]
fn kernel_heap_base_decomposes_correctly() {
    let addr = VirtAddr::new(0xFFFF_8800_0000_0000);
    assert_ne!(addr.pml4_index(), 511);
    assert_ne!(addr.pml4_index(), 0);
}

#[test]
fn indices_and_offset_recombine_to_the_original_address() {
    let original = 0xFFFF_8123_4567_8ABC_u64 & !0xFFF;
    let addr = VirtAddr::new(original);
    let recombined = ((addr.pml4_index() as u64) << 39)
        | ((addr.pdpt_index() as u64) << 30)
        | ((addr.pd_index() as u64) << 21)
        | ((addr.pt_index() as u64) << 12)
        | addr.page_offset();
    assert_eq!(recombined & 0xFFFF_FFFF_FFFF, original & 0xFFFF_FFFF_FFFF);
}

#[test]
fn page_alignment_check() {
    assert!(VirtAddr::new(0x1000).is_page_aligned());
    assert!(VirtAddr::new(0).is_page_aligned());
    assert!(!VirtAddr::new(0x1001).is_page_aligned());
}

#[test]
fn each_index_reads_its_own_nine_bits() {
    // 0x0000_7FBF_DFEF_F123: PML4 255, PDPT 254, PD 255, PT 255, offset 0x123.
    let addr = VirtAddr::new((255u64 << 39) | (254u64 << 30) | (255u64 << 21) | (255u64 << 12) | 0x123);
    assert_eq!(addr.pml4_index(), 255);
    assert_eq!(addr.pdpt_index(), 254);
    assert_eq!(addr.pd_index(), 255);
    assert_eq!(addr.pt_index(), 255);
    assert_eq!(addr.page_offset(), 0x123);
    assert_eq!(addr.as_u64() & 0xFFF, 0x123);
}

#[test]
fn recombination_holds_for_an_unaligned_address_too() {
    let original = 0x0000_1234_5678_9ABC_u64;
    let addr = VirtAddr::new(original);
    let recombined = ((addr.pml4_index() as u64) << 39)
        + ((addr.pdpt_index() as u64) << 30)
        + ((addr.pd_index() as u64) << 21)
        + ((addr.pt_index() as u64) << 12)
        + addr.page_offset();
    assert_eq!(recombined, original);
}
