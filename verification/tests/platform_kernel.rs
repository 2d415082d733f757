use rar_os::platform_kernel::{
    endpoint, fault_expected, mapping, number, omit, private_region, progress_ready, user_return_valid, Process, Trap,
    BOOT, FAULT_MASK, IMAGE, KERNEL_BOTTOM, KERNEL_TOP, PRIVATE_BASE, STACK_END, STACK_GUARD, STACK_VA, STRIDE,
    USER_STACK,
};
use rar_os::platform_model::{Error, Object, State, UserRange};

fn frame(rip: u64, rsp: u64) -> Trap {
    Trap {
        gs: 0, fs: 0, es: 0x23, ds: 0x23, r15: 0, r14: 0, r13: 0, r12: 0, r11: 0, r10: 0, r9: 0, r8: 0, rbp: 0,
        rdi: 0, rsi: 0, rdx: 0, rcx: 0, rbx: 0, rax: 0, vector: 0, error: 0, rip, cs: 0x1b, flags: 0x202, rsp,
        ss: 0x23,
    }
}

fn code_range() -> UserRange {
    UserRange { start: 0x100000, end: 0x110000, writable: false, executable: true }
}

#[test]
fn error_numbers_are_negative_codes() {
    assert_eq!(number(Error::Invalid), -1i64 as u64);
    assert_eq!(number(Error::Denied), -2i64 as u64);
    assert_eq!(number(Error::Stale), -3i64 as u64);
    assert_eq!(number(Error::Full), -4i64 as u64);
    assert_eq!(number(Error::Empty), -5i64 as u64);
    assert_eq!(number(Error::Exhausted), -6i64 as u64);
}

#[test]
fn private_regions_and_omitted_pages() {
    let arena = 0x1000_0000;
    assert_eq!(private_region(arena, 2), arena + 0x400000 + 2 * 0x200000);
    assert!(omit(arena, arena + STACK_GUARD));
    assert!(omit(arena, arena + 0x160000));
    let base = PRIVATE_BASE + 3 * STRIDE;
    assert!(omit(arena, arena + base + IMAGE));
    assert!(omit(arena, arena + base + USER_STACK + 0xf000));
    assert!(!omit(arena, arena + base + USER_STACK + 0x10000));
    assert!(omit(arena, arena + base + BOOT));
    assert!(omit(arena, arena + base + KERNEL_BOTTOM - 4096));
    assert!(!omit(arena, arena + base + KERNEL_BOTTOM));
    assert!(omit(arena, arena + base + KERNEL_TOP));
    assert!(omit(arena, arena + PRIVATE_BASE + 15 * STRIDE + BOOT));
    assert!(!omit(arena, arena + PRIVATE_BASE + 16 * STRIDE + BOOT));
    assert!(!omit(arena, arena));
}

#[test]
fn endpoints_and_mappings() {
    assert_eq!(endpoint(3), Object::Endpoint { task: 3, generation: 1 });
    let m = mapping(0x1000, 0x2000, 3, true, false);
    assert_eq!((m.virtual_start, m.physical_start, m.pages, m.writable, m.executable), (0x1000, 0x2000, 3, true, false));
}

#[test]
fn user_return_frames() {
    let ranges = [code_range()];
    assert!(user_return_valid(&ranges, &frame(0x100000, STACK_END)));
    assert!(user_return_valid(&ranges, &frame(0x10ffff, STACK_VA)));
    assert!(!user_return_valid(&ranges, &frame(0x110000, STACK_VA)));
    assert!(!user_return_valid(&ranges, &frame(0x100000, STACK_END + 1)));
    let mut kernel = frame(0x100000, STACK_VA);
    kernel.cs = 0x08;
    assert!(!user_return_valid(&ranges, &kernel));
    let mut segment = frame(0x100000, STACK_VA);
    segment.fs = 0x10;
    assert!(!user_return_valid(&ranges, &segment));
    let data = [UserRange { executable: false, writable: true, ..code_range() }];
    assert!(!user_return_valid(&data, &frame(0x100000, STACK_VA)));
}

#[test]
fn expected_fixture_faults() {
    let arena = 0x1000_0000;
    assert!(fault_expected(6, 14, 5, arena, arena, 0));
    assert!(!fault_expected(6, 14, 5, arena + 1, arena, 0));
    assert!(fault_expected(7, 14, 21, STACK_VA, arena, 0));
    assert!(fault_expected(8, 14, 6, STACK_VA - 4096, arena, 0));
    assert!(fault_expected(9, 13, 0, 0, arena, 0));
    assert!(fault_expected(11, 14, 7, 0x4242, arena, 0x4242));
    assert!(fault_expected(12, 14, 4, arena + PRIVATE_BASE + USER_STACK, arena, 0));
    assert!(fault_expected(13, 13, 0, 7, arena, 0));
    assert!(!fault_expected(5, 13, 0, 0, arena, 0));
    assert_eq!(FAULT_MASK, (1 << 6) | (1 << 7) | (1 << 8) | (1 << 9) | (1 << 11) | (1 << 12) | (1 << 13));
}

#[test]
fn self_test_progress() {
    let proofs = (1 << 1) | (1 << 2) | (1 << 3) | (1 << 4) | (1 << 5) | (1 << 6) | (1 << 8);
    assert!(progress_ready(false, 0, proofs, FAULT_MASK, 2, true, true));
    assert!(progress_ready(false, 0, proofs | 1, FAULT_MASK, 9, true, true));
    assert!(!progress_ready(false, 0, proofs & !(1 << 8), FAULT_MASK, 2, true, true));
    assert!(!progress_ready(false, 0, proofs, FAULT_MASK, 1, true, true));
    assert!(!progress_ready(true, 0, proofs, FAULT_MASK, 2, true, true));
    assert!(!progress_ready(false, 1, proofs, FAULT_MASK, 2, true, true));
    assert!(!progress_ready(false, 0, proofs, FAULT_MASK | 1, 2, true, false));
}

#[test]
fn killed_process_loses_its_authority() {
    let mut p = Process::empty();
    assert_eq!(p.state, State::Dead);
    p.state = State::Runnable;
    p.range(0x100000, 0x110000, false, true);
    p.range(0x200000, 0x201000, true, false);
    assert_eq!(p.range_count, 2);
    assert_eq!(p.buffer(0x200000, 128, true), Ok(()));
    assert_eq!(p.buffer(0x100000, 128, true), Err(Error::Denied));
    assert_eq!(p.buffer(0x100000, 128, false), Ok(()));
    let handle = p.caps.grant(2, Object::Input, 4).unwrap();
    assert_eq!(p.caps.resolve(handle, 4), Ok(Object::Input));
    p.kill();
    assert_eq!(p.state, State::Dead);
    assert_eq!(p.generation, 2);
    assert_eq!(p.caps.resolve(handle, 4), Err(Error::Stale));
    assert_eq!(p.range_count, 2);
    let mut q = Process::empty();
    q.generation = u32::MAX;
    q.kill();
    assert_eq!(q.generation, u32::MAX);
}
