use neoastrenos_kernel::phys_addr::{PhysAddr, FRAME_SIZE};

#[test]
fn frame_number_round_trips() {
    let addr = PhysAddr::new(0x123_000);
    assert_eq!(addr.frame_number(), 0x123);
    assert_eq!(PhysAddr::from_frame_number(0x123), addr);
}

#[test]
fn frame_number_truncates_in_frame_offset() {
    let addr = PhysAddr::new(0x123_045);
    assert_eq!(addr.frame_number(), 0x123);
}

#[test]
fn alignment_check() {
    assert!(PhysAddr::new(0x1000).is_frame_aligned());
    assert!(PhysAddr::new(0).is_frame_aligned());
    assert!(!PhysAddr::new(0x1001).is_frame_aligned());
    assert!(!PhysAddr::new(1).is_frame_aligned());
}

#[test]
fn as_u64_returns_the_raw_value_and_frame_size_is_four_kib() {
    assert_eq!(PhysAddr::new(0xDEAD_B000).as_u64(), 0xDEAD_B000);
    assert_eq!(FRAME_SIZE, 4096);
    assert_eq!(PhysAddr::from_frame_number(0).as_u64(), 0);
    assert_eq!(PhysAddr::from_frame_number(7).as_u64(), 7 * 4096);
}
