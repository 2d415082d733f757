//! Checked CPU and memory bookkeeping of the modern nucleus: user-buffer
//! admission, saved user-return bounds, the checked receive path,
//! round-robin selection, the tick counter, framebuffer geometry, the fixed
//! storage profiles and staged-image metadata. Pure checks used by the real
//! kernel entry; not VM certification.
use vstd::prelude::*;
use crate::modern_model::{Error, Message, Runtime, receive_spec};
use crate::le::{le32, le64, read32, read64};

verus! {

pub const TASKS: usize = 16;
/// Size of the kernel receive envelope.
pub const ENVELOPE_BYTES: u64 = 152;
/// Bound of one staged-image read.
pub const STAGING_READ: usize = 512;

#[derive(Clone, Copy, Debug, PartialEq, Eq, Structural)]
pub enum CpuState {
    Runnable,
    Blocked,
    Dead,
}

/// One mapped user range and its permissions.
#[derive(Clone, Copy, Debug)]
pub struct UserRange {
    pub start: u64,
    pub end: u64,
    pub writable: bool,
    pub executable: bool,
}

/// A single non-empty, non-W+X range covers the whole buffer with the
/// needed permission.
pub open spec fn range_admits(r: UserRange, pointer: u64, end: int, write: bool) -> bool {
    r.start < r.end && r.start <= pointer && end <= r.end && !(r.writable && r.executable) && (!write || r.writable)
}

/// Admission of a user buffer of at most `limit` bytes: no null page, no
/// overflow, below the canonical user limit and inside one range.
pub open spec fn bounded_buffer_spec(ranges: Seq<UserRange>, pointer: u64, length: usize, write: bool, limit: int) -> Result<(), Error> {
    if length == 0 || length > limit || pointer < 4096 || pointer + length > u64::MAX {
        Err(Error::Invalid)
    } else if pointer + length > 0x0000_8000_0000_0000 {
        Err(Error::Denied)
    } else if exists|i: int| 0 <= i < ranges.len() && range_admits(#[trigger] ranges[i], pointer, pointer + length, write) {
        Ok(())
    } else {
        Err(Error::Denied)
    }
}

fn bounded_buffer(ranges: &[UserRange], pointer: u64, length: usize, write: bool, limit: usize) -> (r: Result<(), Error>)
    ensures
        r == bounded_buffer_spec(ranges@, pointer, length, write, limit as int),
{
    if length == 0 || length > limit || pointer < 4096 || pointer > u64::MAX - length as u64 {
        return Err(Error::Invalid);
    }
    let end = pointer + length as u64;
    if end > 0x0000_8000_0000_0000 {
        return Err(Error::Denied);
    }
    let mut i: usize = 0;
    while i < ranges.len()
        invariant
            i <= ranges@.len(),
            end == pointer + length,
            0 < length <= limit,
            pointer >= 4096,
            end <= 0x0000_8000_0000_0000,
            forall|k: int| 0 <= k < i ==> !range_admits(#[trigger] ranges@[k], pointer, end as int, write),
        decreases ranges.len() - i,
    {
        let r = ranges[i];
        if r.start < r.end && r.start <= pointer && end <= r.end && !(r.writable && r.executable) && (!write
            || r.writable) {
            proof {
                assert(range_admits(ranges@[i as int], pointer, end as int, write));
            }
            return Ok(());
        }
        i = i + 1;
    }
    Err(Error::Denied)
}

/// A buffer for one kernel envelope (at most 152 bytes).
pub fn user_buffer(ranges: &[UserRange], pointer: u64, length: usize, write: bool) -> (r: Result<(), Error>)
    ensures
        r == bounded_buffer_spec(ranges@, pointer, length, write, ENVELOPE_BYTES as int),
{
    bounded_buffer(ranges, pointer, length, write, ENVELOPE_BYTES as usize)
}

/// A read-only buffer for one staged-image chunk (at most 512 bytes); the
/// envelope bound is not widened by it.
pub fn staging_buffer(ranges: &[UserRange], pointer: u64, length: usize) -> (r: Result<(), Error>)
    ensures
        r == bounded_buffer_spec(ranges@, pointer, length, false, STAGING_READ as int),
{
    bounded_buffer(ranges, pointer, length, false, STAGING_READ)
}

/// Saved user-return state is sane: a known stack top (four pages for a
/// trial, sixteen for an initial service), user code and stack selectors,
/// the stack pointer inside the stack, the instruction pointer in a
/// read-only executable range and only user data selectors.
pub open spec fn user_return_spec(ranges: Seq<UserRange>, stack_end: u64, rsp: u64, rip: u64, cs: u64, ss: u64, segments: Seq<u64>) -> bool {
    &&& (stack_end == 0x604000 || stack_end == 0x610000)
    &&& cs == 0x1b
    &&& ss == 0x23
    &&& 0x600000 <= rsp <= stack_end
    &&& exists|i: int| 0 <= i < ranges.len() && #[trigger] code_range(ranges[i], rip)
    &&& forall|i: int| 0 <= i < 4 ==> (#[trigger] segments[i] == 0 || segments[i] == 0x1b || segments[i] == 0x23)
}

pub open spec fn code_range(r: UserRange, rip: u64) -> bool {
    r.executable && !r.writable && r.start <= rip && rip < r.end
}

pub fn user_return(ranges: &[UserRange], stack_end: u64, rsp: u64, rip: u64, cs: u64, ss: u64, segments: [u64; 4]) -> (r: bool)
    ensures
        r == user_return_spec(ranges@, stack_end, rsp, rip, cs, ss, segments@),
{
    if !(stack_end == 0x604000 || stack_end == 0x610000) || cs != 0x1b || ss != 0x23 || rsp < 0x600000 || rsp > stack_end {
        return false;
    }
    let mut found = false;
    let mut i: usize = 0;
    while i < ranges.len()
        invariant
            i <= ranges@.len(),
            found == exists|k: int| 0 <= k < i && #[trigger] code_range(ranges@[k], rip),
        decreases ranges.len() - i,
    {
        let r = ranges[i];
        if r.executable && !r.writable && r.start <= rip && rip < r.end {
            proof {
                assert(code_range(ranges@[i as int], rip));
            }
            found = true;
        }
        i = i + 1;
    }
    if !found {
        return false;
    }
    let mut k: usize = 0;
    while k < 4
        invariant
            k <= 4,
            forall|j: int| 0 <= j < k ==> (#[trigger] segments@[j] == 0 || segments@[j] == 0x1b || segments@[j] == 0x23),
        decreases 4 - k,
    {
        let s = segments[k];
        if !(s == 0 || s == 0x1b || s == 0x23) {
            return false;
        }
        k = k + 1;
    }
    true
}

/// The checked receive path: the whole destination is validated before the
/// caller's queue is touched.
pub fn receive(policy: &mut Runtime, caller: usize, handle: u64, ranges: &[UserRange], pointer: u64, length: u64, mode: u64) -> (r: Result<Message, Error>)
    requires
        old(policy).wf(),
    ensures
        final(policy).wf(),
        ({
            let checked = if length != ENVELOPE_BYTES || mode > 1 {
                Err(Error::Invalid)
            } else {
                bounded_buffer_spec(ranges@, pointer, ENVELOPE_BYTES as usize, true, ENVELOPE_BYTES as int)
            };
            if checked is Err {
                r == Err::<Message, Error>(checked->Err_0) && final(policy)@ == old(policy)@
            } else {
                r == receive_spec(old(policy)@, caller, handle).1 && final(policy)@ == receive_spec(
                    old(policy)@,
                    caller,
                    handle,
                ).0
            }
        }),
{
    if length != ENVELOPE_BYTES || mode > 1 {
        return Err(Error::Invalid);
    }
    match user_buffer(ranges, pointer, ENVELOPE_BYTES as usize, true) {
        Err(e) => return Err(e),
        Ok(()) => {},
    }
    policy.receive(caller, handle)
}

pub open spec fn next_from(states: Seq<CpuState>, current: int, offset: int) -> Option<int>
    decreases 17 - offset,
{
    if offset < 1 || offset > 16 {
        None
    } else if states[(current + offset) % 16] == CpuState::Runnable {
        Some((current + offset) % 16)
    } else {
        next_from(states, current, offset + 1)
    }
}

/// Round robin: the first runnable task after `current`, wrapping around to
/// `current` itself last.
pub fn next(states: &[CpuState; 16], current: usize) -> (r: Result<usize, Error>)
    ensures
        current >= TASKS ==> r == Err::<usize, Error>(Error::Invalid),
        current < TASKS ==> r == match next_from(states@, current as int, 1) {
            Some(i) => Ok::<usize, Error>(i as usize),
            None => Err(Error::Empty),
        },
{
    if current >= TASKS {
        return Err(Error::Invalid);
    }
    let mut offset: usize = 1;
    while offset <= TASKS
        invariant
            1 <= offset <= 17,
            current < 16,
            next_from(states@, current as int, 1) == next_from(states@, current as int, offset as int),
        decreases 17 - offset,
    {
        let index = (current + offset) % TASKS;
        if states[index] == CpuState::Runnable {
            return Ok(index);
        }
        offset = offset + 1;
    }
    Err(Error::Empty)
}

/// Counts delivered timer interrupts, not wall-clock time; exhaustion past
/// `i64::MAX` is sticky.
pub fn tick(value: Option<u64>) -> (r: Option<u64>)
    ensures
        r == match value {
            Some(v) => if v < i64::MAX { Some((v + 1) as u64) } else { None },
            None => None,
        },
{
    match value {
        Some(v) => if v < i64::MAX as u64 {
            Some(v + 1)
        } else {
            None
        },
        None => None,
    }
}

pub open spec fn framebuffer_span_spec(width: u32, height: u32, pitch: u32, format: u32, base: u64, bytes: u64) -> Result<u64, Error> {
    if width != 640 || height != 480 || !(640 <= pitch <= 4096) || format > 1 || base == 0 || base % 4096 != 0 {
        Err(Error::Invalid)
    } else {
        let span = pitch * height * 4;
        let rounded = (span + 4095) / 4096 * 4096;
        if rounded > 8 * 1024 * 1024 || rounded > bytes || base + rounded > 0x1_0000_0000 {
            Err(Error::Denied)
        } else {
            Ok(rounded as u64)
        }
    }
}

/// Untrusted framebuffer metadata reduced to one bounded, page-rounded span.
pub fn framebuffer_span(width: u32, height: u32, pitch: u32, format: u32, base: u64, bytes: u64) -> (r: Result<u64, Error>)
    ensures
        r == framebuffer_span_spec(width, height, pitch, format, base, bytes),
{
    if width != 640 || height != 480 || !(640 <= pitch && pitch <= 4096) || format > 1 || base == 0 || base % 4096
        != 0 {
        return Err(Error::Invalid);
    }
    let span = pitch as u64 * height as u64 * 4;
    let rounded = (span + 4095) / 4096 * 4096;
    if rounded > 8 * 1024 * 1024 || rounded > bytes || base > 0x1_0000_0000 - rounded {
        return Err(Error::Denied);
    }
    Ok(rounded)
}

/// A fixed synthetic storage device: its size in sectors and the identity
/// strings it must report, space padded. Identity strings are not keys.
#[derive(Clone, Copy)]
pub struct DeviceProfile {
    pub sectors: u64,
    pub serial: [u8; 20],
    pub model: [u8; 40],
}

impl DeviceProfile {
    /// The data disk: two metadata sectors and three 64-sector regions.
    pub fn data() -> (d: Self)
        ensures
            d.sectors == 194,
            d.serial@ == seq![82u8, 65u8, 82u8, 45u8, 77u8, 52u8, 45u8, 68u8, 65u8, 84u8, 65u8, 45u8, 48u8, 48u8, 48u8, 48u8, 48u8, 48u8, 48u8, 49u8],
            d.model@ == seq![82u8, 65u8, 82u8, 32u8, 77u8, 52u8, 32u8, 68u8, 65u8, 84u8, 65u8, 32u8, 80u8, 73u8, 79u8, 32u8, 32u8, 32u8, 32u8, 32u8, 32u8, 32u8, 32u8, 32u8, 32u8, 32u8, 32u8, 32u8, 32u8, 32u8, 32u8, 32u8, 32u8, 32u8, 32u8, 32u8, 32u8, 32u8, 32u8, 32u8],
    {
        let d = DeviceProfile { sectors: 194, serial: [82, 65, 82, 45, 77, 52, 45, 68, 65, 84, 65, 45, 48, 48, 48, 48, 48, 48, 48, 49], model: [82, 65, 82, 32, 77, 52, 32, 68, 65, 84, 65, 32, 80, 73, 79, 32, 32, 32, 32, 32, 32, 32, 32, 32, 32, 32, 32, 32, 32, 32, 32, 32, 32, 32, 32, 32, 32, 32, 32, 32] };
        proof {
            assert(d.serial@ =~= seq![82u8, 65u8, 82u8, 45u8, 77u8, 52u8, 45u8, 68u8, 65u8, 84u8, 65u8, 45u8, 48u8, 48u8, 48u8, 48u8, 48u8, 48u8, 48u8, 49u8]);
            assert(d.model@ =~= seq![82u8, 65u8, 82u8, 32u8, 77u8, 52u8, 32u8, 68u8, 65u8, 84u8, 65u8, 32u8, 80u8, 73u8, 79u8, 32u8, 32u8, 32u8, 32u8, 32u8, 32u8, 32u8, 32u8, 32u8, 32u8, 32u8, 32u8, 32u8, 32u8, 32u8, 32u8, 32u8, 32u8, 32u8, 32u8, 32u8, 32u8, 32u8, 32u8, 32u8]);
        }
        d
    }

    /// The system disk.
    pub fn system() -> (d: Self)
        ensures
            d.sectors == 16384,
            d.serial@ == seq![82u8, 65u8, 82u8, 45u8, 77u8, 52u8, 45u8, 83u8, 89u8, 83u8, 45u8, 48u8, 48u8, 48u8, 48u8, 48u8, 48u8, 48u8, 48u8, 49u8],
            d.model@ == seq![82u8, 65u8, 82u8, 32u8, 77u8, 52u8, 32u8, 83u8, 89u8, 83u8, 84u8, 69u8, 77u8, 32u8, 80u8, 73u8, 79u8, 32u8, 32u8, 32u8, 32u8, 32u8, 32u8, 32u8, 32u8, 32u8, 32u8, 32u8, 32u8, 32u8, 32u8, 32u8, 32u8, 32u8, 32u8, 32u8, 32u8, 32u8, 32u8, 32u8],
    {
        let d = DeviceProfile { sectors: 16384, serial: [82, 65, 82, 45, 77, 52, 45, 83, 89, 83, 45, 48, 48, 48, 48, 48, 48, 48, 48, 49], model: [82, 65, 82, 32, 77, 52, 32, 83, 89, 83, 84, 69, 77, 32, 80, 73, 79, 32, 32, 32, 32, 32, 32, 32, 32, 32, 32, 32, 32, 32, 32, 32, 32, 32, 32, 32, 32, 32, 32, 32] };
        proof {
            assert(d.serial@ =~= seq![82u8, 65u8, 82u8, 45u8, 77u8, 52u8, 45u8, 83u8, 89u8, 83u8, 45u8, 48u8, 48u8, 48u8, 48u8, 48u8, 48u8, 48u8, 48u8, 49u8]);
            assert(d.model@ =~= seq![82u8, 65u8, 82u8, 32u8, 77u8, 52u8, 32u8, 83u8, 89u8, 83u8, 84u8, 69u8, 77u8, 32u8, 80u8, 73u8, 79u8, 32u8, 32u8, 32u8, 32u8, 32u8, 32u8, 32u8, 32u8, 32u8, 32u8, 32u8, 32u8, 32u8, 32u8, 32u8, 32u8, 32u8, 32u8, 32u8, 32u8, 32u8, 32u8, 32u8]);
        }
        d
    }
}

/// Geometry of a staged image read from its sealed buffer: image size,
/// generation, digest and signed budget. Not signature or generation-policy
/// verification.
pub struct StageMetadata {
    pub image_bytes: usize,
    pub generation: u64,
    pub digest: [u8; 32],
    pub budget: u32,
}

/// Whether staged bytes carry sane metadata: a bounded package whose
/// declared payload length matches, a page-multiple image of at most
/// 128 KiB, format 7, a nonzero generation and digest, a budget of 1 to 100
/// ticks and the fixed reserved words.
pub open spec fn stage_metadata_ok(b: Seq<u8>) -> bool {
    &&& 896 <= b.len() <= 2_097_536
    &&& le32(b, 56) == b.len() - 384
    &&& le32(b, 60) != 0 && le32(b, 60) <= 128 * 1024 && le32(b, 60) % 4096 == 0
    &&& le64(b, 64) == 7
    &&& le64(b, 72) != 0
    &&& b.subrange(288, 320) != Seq::new(32, |i: int| 0u8)
    &&& 1 <= le32(b, 232) <= 100
    &&& le32(b, 236) == 0
    &&& le32(b, 240) == 16384
}

pub fn stage_metadata(bytes: &[u8]) -> (r: Result<StageMetadata, Error>)
    ensures
        r is Ok <==> stage_metadata_ok(bytes@),
        match r {
            Ok(m) => m.image_bytes == le32(bytes@, 60) && m.generation == le64(bytes@, 72) && m.digest@ == bytes@.subrange(288, 320)
                && m.budget == le32(bytes@, 232),
            Err(e) => e == Error::Invalid,
        },
{
    if bytes.len() < 896 || bytes.len() > 2_097_536 {
        return Err(Error::Invalid);
    }
    let image_bytes = read32(bytes, 60) as usize;
    let generation = read64(bytes, 72);
    let budget = read32(bytes, 232);
    let mut digest = [0u8; 32];
    let mut zero = true;
    let ghost mut w: int = 0;
    let mut i: usize = 0;
    while i < 32
        invariant
            i <= 32,
            bytes@.len() >= 896,
            forall|k: int| 0 <= k < i ==> #[trigger] digest@[k] == bytes@[288 + k],
            zero ==> (forall|k: int| 0 <= k < i ==> #[trigger] digest@[k] == 0),
            !zero ==> 0 <= w < i && digest@[w] != 0,
        decreases 32 - i,
    {
        digest[i] = bytes[288 + i];
        if bytes[288 + i] != 0 {
            zero = false;
            proof {
                w = i as int;
            }
        }
        i = i + 1;
    }
    proof {
        assert(digest@ =~= bytes@.subrange(288, 320));
        if !zero {
            assert(bytes@.subrange(288, 320)[w] != Seq::new(32, |i: int| 0u8)[w]);
        } else {
            assert(bytes@.subrange(288, 320) =~= Seq::new(32, |i: int| 0u8));
        }
    }
    if read32(bytes, 56) as usize != bytes.len() - 384 || image_bytes == 0 || image_bytes > 128 * 1024 || image_bytes
        % 4096 != 0 || read64(bytes, 64) != 7 || generation == 0 || zero || !(1 <= budget && budget <= 100) || read32(
        bytes,
        236,
    ) != 0 || read32(bytes, 240) != 16384 {
        return Err(Error::Invalid);
    }
    Ok(StageMetadata { image_bytes, generation, digest, budget })
}

} // verus!
