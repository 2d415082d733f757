//! Geometry of retiring a dead process's private memory: its region in the
//! arena, the memory state machine and the checks that a retirement plan and
//! the translation context it runs under are exact. No authority comes from
//! callers.
use vstd::prelude::*;

verus! {

pub const TASKS: usize = 16;
pub const PRIVATE_BASE: u64 = 0x400000;
pub const STRIDE: u64 = 0x200000;
pub const TABLE_BYTES: u64 = 0x100000;
pub const APERTURE: u64 = 0x1000000;
pub const APERTURE_PAGES: usize = 512;

#[derive(Clone, Copy, Debug, PartialEq, Eq, Structural)]
pub enum Memory {
    Clean,
    Live,
    Retiring,
}

#[derive(Clone, Copy, Debug, PartialEq, Eq, Structural)]
pub struct Plan {
    pub victim: u64,
    pub current_root: u64,
    pub leaf: u64,
}

#[derive(Clone, Copy, Debug, PartialEq, Eq, Structural)]
pub enum Error {
    Geometry,
    State,
    Context,
}

/// The arena geometry is valid: page aligned, above the low 32 MiB, inside
/// the 4 GiB window and large enough for every process stride.
pub open spec fn arena_ok(arena: u64, pages: usize) -> bool {
    &&& arena >= 0x2000000
    &&& arena % 4096 == 0
    &&& arena + pages * 4096 <= 0x1_0000_0000
    &&& pages * 4096 >= PRIVATE_BASE + TASKS * STRIDE
}

/// Base of process `index`'s private region.
pub open spec fn region_base(arena: u64, index: usize) -> int {
    arena + PRIVATE_BASE + index * STRIDE
}

/// Base of process `index`'s private region in a valid arena.
pub fn region(arena: u64, pages: usize, index: usize) -> (r: Result<u64, Error>)
    ensures
        r is Ok <==> (arena_ok(arena, pages) && index < TASKS),
        match r {
            Ok(base) => base == region_base(arena, index),
            Err(e) => e == Error::Geometry,
        },
{
    if pages as u64 > u64::MAX / 4096 {
        return Err(Error::Geometry);
    }
    let bytes = pages as u64 * 4096;
    if arena > u64::MAX - bytes {
        return Err(Error::Geometry);
    }
    let end = arena + bytes;
    if arena < 0x2000000 || arena % 4096 != 0 || end > 0x1_0000_0000 || bytes < PRIVATE_BASE + TASKS as u64 * STRIDE
        || index >= TASKS {
        return Err(Error::Geometry);
    }
    Ok(arena + PRIVATE_BASE + index as u64 * STRIDE)
}

/// Retiring is a one-way step from live memory; clean memory stays clean.
pub fn retire(memory: Memory) -> (r: Memory)
    ensures
        r == (if memory == Memory::Live { Memory::Retiring } else { memory }),
{
    match memory {
        Memory::Live => Memory::Retiring,
        other => other,
    }
}

/// Checks a plan to retire `victim`'s memory while `current` runs: a dying
/// current stack is never retired, the victim's root and stack are exactly
/// its own, and the page-table leaf lies in the current process's tables.
pub fn plan(arena: u64, pages: usize, current: usize, victim: usize, memory: Memory, victim_root: u64, bottom: u64, top: u64, leaf: u64) -> (r: Result<Plan, Error>)
    ensures
        ({
            let c = region_base(arena, current);
            let v = region_base(arena, victim);
            if current == victim || memory != Memory::Retiring {
                r == Err::<Plan, Error>(Error::State)
            } else if !arena_ok(arena, pages) || current >= TASKS || victim >= TASKS {
                r == Err::<Plan, Error>(Error::Geometry)
            } else if victim_root != v || bottom != v + 0x141000 || top != v + 0x151000 || leaf % 4096 != 0 || leaf
                < c + 4096 || leaf >= c + TABLE_BYTES {
                r == Err::<Plan, Error>(Error::Geometry)
            } else {
                r == Ok::<Plan, Error>(Plan { victim: v as u64, current_root: c as u64, leaf })
            }
        }),
{
    if current == victim || memory != Memory::Retiring {
        return Err(Error::State);
    }
    let current_root = match region(arena, pages, current) {
        Ok(v) => v,
        Err(e) => return Err(e),
    };
    let victim_base = match region(arena, pages, victim) {
        Ok(v) => v,
        Err(e) => return Err(e),
    };
    if victim_root != victim_base || bottom != victim_base + 0x141000 || top != victim_base + 0x151000 || leaf % 4096
        != 0 || leaf < current_root + 4096 || leaf >= current_root + TABLE_BYTES {
        return Err(Error::Geometry);
    }
    Ok(Plan { victim: victim_base, current_root, leaf })
}

/// No stale global or PCID translation may survive an ordinary CR3 switch,
/// and interrupts must be disabled: the root must be the expected one,
/// CR4.PGE and CR4.PCIDE clear and RFLAGS.IF clear.
pub fn context(root: u64, expected: u64, cr4: u64, flags: u64) -> (r: Result<(), Error>)
    ensures
        r is Ok <==> (root == expected && cr4 & 0x20080 == 0 && flags & 0x200 == 0),
        r is Err ==> r == Err::<(), Error>(Error::Context),
{
    if root != expected || cr4 & 0x20080 != 0 || flags & 0x200 != 0 {
        Err(Error::Context)
    } else {
        Ok(())
    }
}

/// Law: in a valid arena the private regions of distinct processes are
/// disjoint strides, each inside the arena and above the page-table
/// aperture.
pub proof fn law_private_regions_disjoint(arena: u64, pages: usize, i: usize, j: usize)
    requires
        arena_ok(arena, pages),
        i < j < TASKS,
    ensures
        region_base(arena, i) + STRIDE <= region_base(arena, j),
        region_base(arena, j) + STRIDE <= arena + pages * 4096,
        region_base(arena, i) >= APERTURE + APERTURE_PAGES * 4096,
{
    assert(i * STRIDE + STRIDE <= j * STRIDE) by (nonlinear_arith)
        requires
            i < j,
    ;
    assert(j * STRIDE + STRIDE <= TASKS * STRIDE) by (nonlinear_arith)
        requires
            j < TASKS,
    ;
}

} // verus!
