use rar_os::modern_kernel::{number, omit, private_region, stage_error, user_return_valid};
use rar_os::modern_model::Error;
use rar_os::modern_support::UserRange;
use rar_os::platform_kernel::{Trap, PRIVATE_BASE, STACK_GUARD, STRIDE};
use rar_os::staging;

fn frame(rip: u64, rsp: u64) -> Trap {
    Trap {
        gs: 0, fs: 0, es: 0x23, ds: 0x23, r15: 0, r14: 0, r13: 0, r12: 0, r11: 0, r10: 0, r9: 0, r8: 0, rbp: 0,
        rdi: 0, rsi: 0, rdx: 0, rcx: 0, rbx: 0, rax: 0, vector: 0, error: 0, rip, cs: 0x1b, flags: 0x202, rsp,
        ss: 0x23,
    }
}

#[test]
fn modern_error_numbers_include_busy() {
    assert_eq!(number(Error::Invalid), -1i64 as u64);
    assert_eq!(number(Error::Exhausted), -6i64 as u64);
    assert_eq!(number(Error::Busy), -7i64 as u64);
}

#[test]
fn staging_refusals_map_to_syscall_errors() {
    assert_eq!(stage_error(staging::Error::Busy), Error::Busy);
    assert_eq!(stage_error(staging::Error::Stale), Error::Stale);
    assert_eq!(stage_error(staging::Error::Exhausted), Error::Exhausted);
    for e in [staging::Error::Bounds, staging::Error::Order, staging::Error::Incomplete, staging::Error::State] {
        assert_eq!(stage_error(e), Error::Invalid);
    }
}

#[test]
fn modern_regions_and_omitted_pages() {
    let arena = 0x2000000;
    assert_eq!(private_region(arena, 3), arena + PRIVATE_BASE + 3 * STRIDE);
    assert!(omit(arena, arena + staging::PRIVATE_PAGES as u64 * 4096));
    assert!(omit(arena, arena + (staging::ARENA_PAGES as u64 - 1) * 4096));
    assert!(omit(arena, arena + STACK_GUARD));
    assert!(!omit(arena, arena + (staging::PRIVATE_PAGES as u64 + 1) * 4096));
}

#[test]
fn modern_user_return_checks_the_stack_end() {
    let ranges = [UserRange { start: 0x100000, end: 0x110000, writable: false, executable: true }];
    assert!(user_return_valid(&ranges, 0x610000, &frame(0x100000, 0x610000)));
    assert!(user_return_valid(&ranges, 0x604000, &frame(0x100000, 0x604000)));
    assert!(!user_return_valid(&ranges, 0x604000, &frame(0x100000, 0x605000)));
    assert!(!user_return_valid(&ranges, 0x620000, &frame(0x100000, 0x600000)));
    let mut bad = frame(0x100000, 0x600000);
    bad.gs = 0x2b;
    assert!(!user_return_valid(&ranges, 0x610000, &bad));
}
