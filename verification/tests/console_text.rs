use neoastrenos_kernel::boot_self_test::run_frame_allocator_boot_self_test;
use neoastrenos_kernel::exceptions::{
    exception_name, pushes_error_code, report, report_page_fault_error_code, InterruptStackFrame,
};
use neoastrenos_kernel::frame_allocator::FrameAllocator;
use neoastrenos_kernel::serial::{write_byte, write_hex64, write_str};

#[test]
fn newlines_go_out_as_crlf() {
    assert_eq!(write_str("a\nb"), b"a\r\nb".to_vec());
    assert_eq!(write_str("\r\n"), b"\r\r\n".to_vec());
    assert_eq!(write_str(""), Vec::<u8>::new());
    assert_eq!(write_byte(b'\n'), ([b'\r', b'\n'], 2));
    assert_eq!(write_byte(b'x').0[..1], [b'x']);
    assert_eq!(write_byte(b'x').1, 1);
}

#[test]
fn hex_values_are_sixteen_upper_case_digits() {
    assert_eq!(&write_hex64(0xDEAD_BEEF), b"00000000DEADBEEF");
    assert_eq!(&write_hex64(0), b"0000000000000000");
    assert_eq!(&write_hex64(u64::MAX), b"FFFFFFFFFFFFFFFF");
}

#[test]
fn page_fault_causes_are_decoded_bit_by_bit() {
    assert_eq!(
        String::from_utf8(report_page_fault_error_code(0b10011)).unwrap(),
        "  Cause: protection violation (page present), write, supervisor-mode, instruction fetch\r\n"
    );
    assert_eq!(
        String::from_utf8(report_page_fault_error_code(0b01100)).unwrap(),
        "  Cause: non-present page, read, user-mode, reserved-bit-set page table entry\r\n"
    );
}

#[test]
fn exception_reports_show_the_frame_and_halt_unless_breakpoint() {
    let frame = InterruptStackFrame { rip: 0x10, cs: 0x8, rflags: 0x202, rsp: 0x9000, ss: 0x10 };
    let (text, resumes) = report(3, "Breakpoint (#BP)", None, &frame, 0);
    assert!(resumes);
    let text = String::from_utf8(text).unwrap();
    assert_eq!(
        text,
        "\r\n!!! CPU EXCEPTION !!!\r\nVector: 0x0000000000000003 (Breakpoint (#BP))\r\n\
         RIP: 0x0000000000000010  CS: 0x0000000000000008\r\nRFLAGS: 0x0000000000000202\r\n\
         RSP: 0x0000000000009000  SS: 0x0000000000000010\r\n(Breakpoint — resuming execution.)\r\n"
    );
    let (text, resumes) = report(14, "Page Fault (#PF)", Some(2), &frame, 0xDEAD_0000);
    assert!(!resumes);
    let text = String::from_utf8(text).unwrap();
    assert!(text.contains("Error code: 0x0000000000000002\r\n  Cause: non-present page, write, supervisor-mode\r\n"));
    assert!(text.contains("CR2 (faulting address): 0x00000000DEAD0000\r\n"));
    assert!(text.ends_with("Kernel halted.\r\n"));
    let (text, _) = report(13, "General Protection Fault (#GP)", Some(0), &frame, 0xDEAD_0000);
    let text = String::from_utf8(text).unwrap();
    assert!(!text.contains("CR2"));
    assert!(!text.contains("Cause"));
}

#[test]
fn the_boot_self_test_passes_with_sixteen_free_frames_and_restores_them() {
    let mut alloc = FrameAllocator::with_all_frames_free(20);
    let (passed, text) = run_frame_allocator_boot_self_test(&mut alloc);
    assert!(passed);
    assert_eq!(alloc.frames_free(), 20);
    for f in 0..20 {
        assert!(alloc.is_free(f));
    }
    let text = String::from_utf8(text).unwrap();
    assert!(text.starts_with("\r\nRunning frame allocator boot self-test...\r\n  [OK] Free frames after init: 0x0000000000000014\r\n"));
    assert!(text.ends_with("Frame allocator boot self-test: ALL CHECKS PASSED.\r\n"));
}

#[test]
fn the_boot_self_test_fails_with_too_few_free_frames() {
    let mut alloc = FrameAllocator::with_all_frames_free(10);
    let (passed, text) = run_frame_allocator_boot_self_test(&mut alloc);
    assert!(!passed);
    assert_eq!(alloc.frames_free(), 0);
    assert!(String::from_utf8(text).unwrap().ends_with("  FAIL: allocate() returned None unexpectedly early.\r\n"));
    let mut empty = FrameAllocator::with_all_frames_free(0);
    let (passed, text) = run_frame_allocator_boot_self_test(&mut empty);
    assert!(!passed);
    assert!(String::from_utf8(text).unwrap().contains("zero free frames"));
}

#[test]
fn exception_names_and_error_codes_follow_the_architecture() {
    assert_eq!(exception_name(0), "Divide Error (#DE)");
    assert_eq!(exception_name(8), "Double Fault (#DF)");
    assert_eq!(exception_name(14), "Page Fault (#PF)");
    assert_eq!(exception_name(15), "Reserved");
    assert_eq!(exception_name(28), "Hypervisor Injection Exception (#HV)");
    assert_eq!(exception_name(200), "Reserved");
    let with_code: Vec<u8> = (0u8..32).filter(|&v| pushes_error_code(v)).collect();
    assert_eq!(with_code, vec![8, 10, 11, 12, 13, 14, 17, 21, 29, 30]);
}
