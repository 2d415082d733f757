//! Pure rules of the modern nucleus around its trap gate: the error numbers
//! handed back to user mode, how staging refusals surface as system-call
//! errors, each process's private region, the arena pages the kernel's
//! identity map leaves out, and the frames a process may be resumed with.
use vstd::prelude::*;
use crate::modern_model::Error;
use crate::modern_support::{user_return, user_return_spec, UserRange};
use crate::platform_kernel::{omitted, Trap};
use crate::retirement::{arena_ok, region_base};
use crate::staging;

verus! {

/// The value a failed system call leaves in `rax`: the two's complement of
/// a small error number.
pub open spec fn error_number(error: Error) -> int {
    match error {
        Error::Invalid => 1,
        Error::Denied => 2,
        Error::Stale => 3,
        Error::Full => 4,
        Error::Empty => 5,
        Error::Exhausted => 6,
        Error::Busy => 7,
    }
}

pub fn number(error: Error) -> (r: u64)
    ensures
        r == 0x1_0000_0000_0000_0000 - error_number(error),
{
    match error {
        Error::Invalid => 0xffff_ffff_ffff_ffff,
        Error::Denied => 0xffff_ffff_ffff_fffe,
        Error::Stale => 0xffff_ffff_ffff_fffd,
        Error::Full => 0xffff_ffff_ffff_fffc,
        Error::Empty => 0xffff_ffff_ffff_fffb,
        Error::Exhausted => 0xffff_ffff_ffff_fffa,
        Error::Busy => 0xffff_ffff_ffff_fff9,
    }
}

/// The system-call error a staging refusal becomes: contention, staleness
/// and exhaustion keep their meaning, every malformed use is invalid.
pub open spec fn stage_error_spec(error: staging::Error) -> Error {
    match error {
        staging::Error::Busy => Error::Busy,
        staging::Error::Stale => Error::Stale,
        staging::Error::Exhausted => Error::Exhausted,
        _ => Error::Invalid,
    }
}

pub fn stage_error(error: staging::Error) -> (r: Error)
    ensures
        r == stage_error_spec(error),
{
    match error {
        staging::Error::Busy => Error::Busy,
        staging::Error::Stale => Error::Stale,
        staging::Error::Exhausted => Error::Exhausted,
        staging::Error::Bounds | staging::Error::Order | staging::Error::Incomplete | staging::Error::State => {
            Error::Invalid
        },
    }
}

/// Start of process `index`'s private region; the nucleus halts on any
/// other arena geometry.
pub fn private_region(arena: u64, index: usize) -> (r: u64)
    requires
        arena_ok(arena, staging::ARENA_PAGES),
        index < crate::modern_support::TASKS,
    ensures
        r == region_base(arena, index),
{
    match crate::retirement::region(arena, staging::ARENA_PAGES, index) {
        Ok(base) => base,
        Err(_) => 0,
    }
}

/// Arena pages absent from the kernel's identity map: the staging guards
/// and the pages every nucleus leaves out.
pub fn omit(arena: u64, address: u64) -> (r: bool)
    requires
        address >= arena,
    ensures
        r == ((address - arena) == staging::PRIVATE_PAGES * 4096 || (address - arena) == (staging::ARENA_PAGES
            - 1) * 4096 || omitted(address - arena)),
{
    let offset = address - arena;
    if staging::guard_offset(offset) {
        return true;
    }
    crate::platform_kernel::omit(arena, address)
}

/// A frame a process may be resumed with, checked against its own ranges
/// and the top of its user stack.
pub fn user_return_valid(ranges: &[UserRange], stack_end: u64, ret: &Trap) -> (r: bool)
    ensures
        r == user_return_spec(ranges@, stack_end, ret.rsp, ret.rip, ret.cs, ret.ss, seq![ret.ds, ret.es, ret.fs, ret.gs]),
{
    let segments: [u64; 4] = [ret.ds, ret.es, ret.fs, ret.gs];
    proof {
        assert(segments@ =~= seq![ret.ds, ret.es, ret.fs, ret.gs]);
    }
    user_return(ranges, stack_end, ret.rsp, ret.rip, ret.cs, ret.ss, segments)
}

} // verus!
