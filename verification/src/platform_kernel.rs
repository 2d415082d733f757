//! Pure rules of the platform and desktop nuclei around their trap gate: the
//! layout of each process's private region, the arena pages the kernel's
//! identity map leaves out, the error numbers handed back to user mode, the
//! frames a process may be resumed with, and how a process loses its
//! authority when it dies.
use vstd::prelude::*;
use crate::platform_model::{
    resolve_spec, bounded_buffer_spec, revoke_slot, user_buffer, Caps, Error, Object, Queue, Slot, State, UserRange, CAP_SLOTS, TASKS,
};
use crate::foundation_model::Mapping;

verus! {

pub const PRIVATE_BASE: u64 = 0x400000;
pub const STRIDE: u64 = 0x200000;
pub const IMAGE: u64 = 0x100000;
pub const USER_STACK: u64 = 0x120000;
pub const KERNEL_BOTTOM: u64 = 0x141000;
pub const KERNEL_TOP: u64 = 0x151000;
pub const BOOT: u64 = 0x160000;
pub const STACK_VA: u64 = 0x600000;
pub const STACK_END: u64 = 0x610000;
/// Arena offsets of the boot stack guard, the boot stack top, the boot page
/// and the emergency stack top.
pub const STACK_GUARD: u64 = 0x100000;
pub const STACK_TOP: u64 = 0x121000;
pub const EMERGENCY_TOP: u64 = 0x171000;
/// The fixture processes whose one expected fault the platform self-test
/// must observe.
pub const FAULT_MASK: u16 = 0x3bc0;

/// The value a failed system call leaves in `rax`: the two's complement of
/// a small error number.
pub open spec fn error_number(error: Error) -> int {
    match error {
        Error::Invalid => 1,
        Error::Denied => 2,
        Error::Stale => 3,
        Error::Full => 4,
        Error::Empty => 5,
        Error::Exhausted => 6,
    }
}

pub fn number(error: Error) -> (r: u64)
    ensures
        r == 0x1_0000_0000_0000_0000 - error_number(error),
{
    match error {
        Error::Invalid => 0xffff_ffff_ffff_ffff,
        Error::Denied => 0xffff_ffff_ffff_fffe,
        Error::Stale => 0xffff_ffff_ffff_fffd,
        Error::Full => 0xffff_ffff_ffff_fffc,
        Error::Empty => 0xffff_ffff_ffff_fffb,
        Error::Exhausted => 0xffff_ffff_ffff_fffa,
    }
}

/// Start of process `index`'s private region in the arena.
pub fn private_region(arena: u64, index: usize) -> (r: u64)
    requires
        arena + PRIVATE_BASE + index * STRIDE <= u64::MAX,
    ensures
        r == arena + PRIVATE_BASE + index * STRIDE,
{
    arena + PRIVATE_BASE + index as u64 * STRIDE
}

/// Whether the private region of process `index` leaves out the page at
/// this arena offset: its image and user stack, its boot page, the page
/// below its kernel stack and its kernel stack top.
pub open spec fn stride_omits(index: int, offset: int) -> bool {
    let base = PRIVATE_BASE + index * STRIDE;
    ||| base + IMAGE <= offset < base + USER_STACK + 0x10000
    ||| base + BOOT <= offset < base + BOOT + 4096
    ||| offset == base + KERNEL_BOTTOM - 4096
    ||| offset == base + KERNEL_TOP
}

/// Arena offsets absent from the kernel's identity map.
pub open spec fn omitted(offset: int) -> bool {
    ||| offset == STACK_GUARD || offset == STACK_TOP || offset == 0x160000 || offset == EMERGENCY_TOP
    ||| exists|i: int| 0 <= i < TASKS && #[trigger] stride_omits(i, offset)
}

pub fn omit(arena: u64, address: u64) -> (r: bool)
    requires
        address >= arena,
    ensures
        r == omitted(address - arena),
{
    let offset = address - arena;
    if offset == STACK_GUARD || offset == STACK_TOP || offset == 0x160000 || offset == EMERGENCY_TOP {
        return true;
    }
    let mut index: usize = 0;
    while index < TASKS
        invariant
            index <= TASKS,
            offset == address - arena,
            forall|i: int| 0 <= i < index ==> !#[trigger] stride_omits(i, offset as int),
        decreases TASKS - index,
    {
        let base = PRIVATE_BASE + index as u64 * STRIDE;
        if (base + IMAGE <= offset && offset < base + USER_STACK + 0x10000) || (base + BOOT <= offset && offset
            < base + BOOT + 4096) || offset == base + KERNEL_BOTTOM - 4096 || offset == base + KERNEL_TOP {
            proof {
                assert(stride_omits(index as int, offset as int));
            }
            return true;
        }
        index = index + 1;
    }
    false
}

pub fn mapping(v: u64, p: u64, pages: u64, w: bool, x: bool) -> (r: Mapping)
    ensures
        r == (Mapping { virtual_start: v, physical_start: p, pages, writable: w, executable: x }),
{
    Mapping { virtual_start: v, physical_start: p, pages, writable: w, executable: x }
}

/// The first-generation endpoint of a task.
pub fn endpoint(task: usize) -> (r: Object)
    ensures
        r == (Object::Endpoint { task: task as u8, generation: 1 }),
{
    Object::Endpoint { task: task as u8, generation: 1 }
}

/// The registers of an interrupted user context, in trap-gate order.
#[derive(Clone, Copy)]
pub struct Trap {
    pub gs: u64,
    pub fs: u64,
    pub es: u64,
    pub ds: u64,
    pub r15: u64,
    pub r14: u64,
    pub r13: u64,
    pub r12: u64,
    pub r11: u64,
    pub r10: u64,
    pub r9: u64,
    pub r8: u64,
    pub rbp: u64,
    pub rdi: u64,
    pub rsi: u64,
    pub rdx: u64,
    pub rcx: u64,
    pub rbx: u64,
    pub rax: u64,
    pub vector: u64,
    pub error: u64,
    pub rip: u64,
    pub cs: u64,
    pub flags: u64,
    pub rsp: u64,
    pub ss: u64,
}

pub open spec fn selector_ok(s: u64) -> bool {
    s == 0 || s == 0x1b || s == 0x23
}

/// A frame a process may be resumed with: user code and stack selectors, a
/// stack pointer inside the user stack window, an instruction pointer in one
/// of its executable ranges and only null or user data selectors.
pub open spec fn user_return_spec(ranges: Seq<UserRange>, ret: Trap) -> bool {
    &&& ret.cs == 0x1b && ret.ss == 0x23
    &&& STACK_VA <= ret.rsp <= STACK_END
    &&& exists|i: int|
        0 <= i < ranges.len() && (#[trigger] ranges[i]).executable && ranges[i].start <= ret.rip < ranges[i].end
    &&& selector_ok(ret.ds) && selector_ok(ret.es) && selector_ok(ret.fs) && selector_ok(ret.gs)
}

pub fn user_return_valid(ranges: &[UserRange], ret: &Trap) -> (r: bool)
    ensures
        r == user_return_spec(ranges@, *ret),
{
    if ret.cs != 0x1b || ret.ss != 0x23 || ret.rsp < STACK_VA || ret.rsp > STACK_END {
        return false;
    }
    let mut found = false;
    let mut i: usize = 0;
    while i < ranges.len()
        invariant
            i <= ranges@.len(),
            found == exists|k: int|
                0 <= k < i && (#[trigger] ranges@[k]).executable && ranges@[k].start <= ret.rip < ranges@[k].end,
        decreases ranges@.len() - i,
    {
        let r = ranges[i];
        if r.executable && r.start <= ret.rip && ret.rip < r.end {
            found = true;
        }
        i = i + 1;
    }
    if !found {
        return false;
    }
    let segments: [u64; 4] = [ret.ds, ret.es, ret.fs, ret.gs];
    let mut j: usize = 0;
    while j < 4
        invariant
            j <= 4,
            segments@ == seq![ret.ds, ret.es, ret.fs, ret.gs],
            forall|k: int| 0 <= k < j ==> selector_ok(#[trigger] segments@[k]),
        decreases 4 - j,
    {
        let s = segments[j];
        if !(s == 0 || s == 0x1b || s == 0x23) {
            return false;
        }
        j = j + 1;
    }
    proof {
        assert(selector_ok(segments@[0]) && selector_ok(segments@[1]));
        assert(selector_ok(segments@[2]) && selector_ok(segments@[3]));
    }
    true
}

/// Whether a fault taken by process `current` is the one its fixture is
/// built to raise.
pub open spec fn fault_expected_spec(
    current: usize,
    vector: u64,
    error: u64,
    address: u64,
    arena: u64,
    entry: u64,
) -> bool {
    if current == 6 {
        vector == 14 && error == 5 && address == arena
    } else if current == 7 {
        vector == 14 && error == 21 && address == STACK_VA
    } else if current == 8 {
        vector == 14 && error == 6 && address == STACK_VA - 4096
    } else if current == 9 || current == 13 {
        vector == 13 && error == 0
    } else if current == 11 {
        vector == 14 && error == 7 && address == entry
    } else if current == 12 {
        vector == 14 && error == 4 && address == arena + PRIVATE_BASE + USER_STACK
    } else {
        false
    }
}

/// The platform self-test's verdict on a user fault: `entry` is the entry
/// point of process 11.
pub fn fault_expected(current: usize, vector: u64, error: u64, address: u64, arena: u64, entry: u64) -> (r: bool)
    requires
        arena + PRIVATE_BASE + USER_STACK <= u64::MAX,
    ensures
        r == fault_expected_spec(current, vector, error, address, arena, entry),
{
    match current {
        6 => vector == 14 && error == 5 && address == arena,
        7 => vector == 14 && error == 21 && address == STACK_VA,
        8 => vector == 14 && error == 6 && address == STACK_VA - 4096,
        9 => vector == 13 && error == 0,
        11 => vector == 14 && error == 7 && address == entry,
        12 => vector == 14 && error == 4 && address == private_region(arena, 0) + USER_STACK,
        13 => vector == 13 && error == 0,
        _ => false,
    }
}

/// The proofs the platform self-test requires before it reports its passes.
pub const REQUIRED_PROOFS: u16 = 0x17e;

/// Whether the platform self-test has seen everything it requires: no
/// failure yet, every required proof, exactly the expected faults, at least
/// two preemptions of process 5, a surviving and a dead peer.
pub fn progress_ready(
    failed: bool,
    phase: u8,
    proofs: u16,
    faults: u16,
    preemptions: u64,
    survivor: bool,
    peer_death: bool,
) -> (r: bool)
    ensures
        r == (!failed && phase == 0 && proofs & REQUIRED_PROOFS == REQUIRED_PROOFS && faults == FAULT_MASK
            && preemptions >= 2 && survivor && peer_death),
{
    !failed && phase == 0 && proofs & REQUIRED_PROOFS == REQUIRED_PROOFS && faults == FAULT_MASK && preemptions >= 2
        && survivor && peer_death
}

/// One process as the nucleus keeps it.
pub struct Process {
    pub state: State,
    pub generation: u32,
    pub root: u64,
    pub kernel_bottom: u64,
    pub kernel_top: u64,
    pub frame: u64,
    pub caps: Caps,
    pub queue: Queue,
    pub ranges: [UserRange; 24],
    pub range_count: usize,
    pub preemptions: u64,
    pub entry: u64,
}

impl Process {
    /// A dead process slot with no authority.
    pub fn empty() -> (p: Process)
        ensures
            p.state == State::Dead,
            p.generation == 1,
            p.range_count == 0,
            p.caps@ == Seq::new(11, |i: int| crate::platform_model::empty_slot()),
            p.queue.wf(),
            p.queue@.messages.len() == 0,
    {
        let empty = UserRange { start: 0, end: 0, writable: false, executable: false };
        Process {
            state: State::Dead,
            generation: 1,
            root: 0,
            kernel_bottom: 0,
            kernel_top: 0,
            frame: 0,
            caps: Caps::new(),
            queue: Queue::new(),
            ranges: [empty; 24],
            range_count: 0,
            preemptions: 0,
            entry: 0,
        }
    }

    /// Records a mapped user range; the nucleus halts on a full table, an
    /// empty range or a writable executable one.
    pub fn range(&mut self, start: u64, end: u64, writable: bool, executable: bool)
        requires
            old(self).range_count < 24,
            start < end,
            !(writable && executable),
        ensures
            final(self).range_count == old(self).range_count + 1,
            final(self).ranges@ == old(self).ranges@.update(
                old(self).range_count as int,
                UserRange { start, end, writable, executable },
            ),
            final(self).state == old(self).state,
            final(self).generation == old(self).generation,
            final(self).caps@ == old(self).caps@,
    {
        self.ranges[self.range_count] = UserRange { start, end, writable, executable };
        self.range_count = self.range_count + 1;
    }

    /// Whether the process may have the kernel copy `length` bytes at
    /// `pointer`, into its memory when `write`.
    pub fn buffer(&self, pointer: u64, length: usize, write: bool) -> (r: Result<(), Error>)
        requires
            self.range_count <= 24,
        ensures
            r == bounded_buffer_spec(self.ranges@.take(self.range_count as int), pointer, length, write, 144),
    {
        user_buffer(&self.ranges.as_slice()[0..self.range_count], pointer, length, write)
    }

    /// Kills the process: it is dead, its generation moves on, its queue is
    /// dropped and every capability slot is revoked.
    pub fn kill(&mut self)
        ensures
            final(self).state == State::Dead,
            final(self).generation == if old(self).generation == u32::MAX {
                u32::MAX
            } else {
                (old(self).generation + 1) as u32
            },
            final(self).queue.wf(),
            final(self).queue@.messages.len() == 0,
            final(self).caps@ == Seq::new(11, |i: int| revoke_slot(old(self).caps@[i])),
            final(self).ranges@ == old(self).ranges@,
            final(self).range_count == old(self).range_count,
    {
        self.state = State::Dead;
        self.generation = self.generation.saturating_add(1);
        self.queue = Queue::new();
        let ghost before = self.caps@;
        let mut slot: usize = 0;
        while slot < CAP_SLOTS
            invariant
                slot <= CAP_SLOTS,
                before == old(self).caps@,
                self.caps@.len() == 11,
                before.len() == 11,
                forall|i: int| 0 <= i < slot ==> self.caps@[i] == revoke_slot(before[i]),
                forall|i: int| slot <= i < 11 ==> self.caps@[i] == before[i],
                self.state == State::Dead,
                self.generation == if old(self).generation == u32::MAX {
                    u32::MAX
                } else {
                    (old(self).generation + 1) as u32
                },
                self.queue.wf(),
                self.queue@.messages.len() == 0,
                self.ranges@ == old(self).ranges@,
                self.range_count == old(self).range_count,
            decreases CAP_SLOTS - slot,
        {
            let _ = self.caps.revoke(slot);
            slot = slot + 1;
        }
        proof {
            assert(self.caps@ =~= Seq::new(11, |i: int| revoke_slot(before[i])));
        }
    }
}

/// Law: a killed process keeps no authority: no handle it held, or could
/// name, resolves in its revoked table.
pub proof fn law_killed_process_has_no_authority(before: Seq<Slot>, handle: u64, right: u8)
    requires
        before.len() == CAP_SLOTS,
    ensures
        resolve_spec(Seq::new(11, |i: int| revoke_slot(before[i])), handle, right) is Err,
{
}

} // verus!
