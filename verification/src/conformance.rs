//! Binary conformance of release-0 boot fixtures: a test-only bundle frames a
//! boot handoff header, a memory map and a hardware description, and
//! validation assigns each bundle the code of the first rule it breaks, or
//! the semantics it describes.
use vstd::prelude::*;
use crate::le::{le16, le32, le64, read16, read32, read64};
use crate::generated::{BOOT_MAGIC, RHD_MAGIC};

verus! {

pub const BUNDLE_MAGIC: [u8; 8] = [0x52, 0x30, 0x46, 0x58, 0x42, 0x49, 0x4e, 0x00];

/// Outcome codes of the conformance fixtures, by their wire numbers.
#[derive(Clone, Copy, Debug, PartialEq, Eq, Structural)]
pub enum Code {
    Valid,
    Truncated,
    Oversized,
    BadMagic,
    UnsupportedMajor,
    UnsupportedMinor,
    BadHeaderSize,
    UnsupportedFlags,
    NonzeroReserved,
    BadAlignment,
    RangeOverflow,
    InvalidPointerRange,
    Overlap,
    BadCountOrLength,
    UnknownCritical,
    ArchitectureMismatch,
    InvalidMemoryMap,
    NoncanonicalOrder,
}

impl Code {
    pub open spec fn wire(self) -> u16 {
        match self {
            Code::Valid => 0,
            Code::Truncated => 1,
            Code::Oversized => 2,
            Code::BadMagic => 3,
            Code::UnsupportedMajor => 4,
            Code::UnsupportedMinor => 5,
            Code::BadHeaderSize => 6,
            Code::UnsupportedFlags => 7,
            Code::NonzeroReserved => 8,
            Code::BadAlignment => 9,
            Code::RangeOverflow => 10,
            Code::InvalidPointerRange => 12,
            Code::Overlap => 13,
            Code::BadCountOrLength => 14,
            Code::UnknownCritical => 15,
            Code::ArchitectureMismatch => 18,
            Code::InvalidMemoryMap => 20,
            Code::NoncanonicalOrder => 28,
        }
    }

    /// Wire number of the code.
    pub fn number(&self) -> (r: u16)
        ensures
            r == self.wire(),
    {
        match self {
            Code::Valid => 0,
            Code::Truncated => 1,
            Code::Oversized => 2,
            Code::BadMagic => 3,
            Code::UnsupportedMajor => 4,
            Code::UnsupportedMinor => 5,
            Code::BadHeaderSize => 6,
            Code::UnsupportedFlags => 7,
            Code::NonzeroReserved => 8,
            Code::BadAlignment => 9,
            Code::RangeOverflow => 10,
            Code::InvalidPointerRange => 12,
            Code::Overlap => 13,
            Code::BadCountOrLength => 14,
            Code::UnknownCritical => 15,
            Code::ArchitectureMismatch => 18,
            Code::InvalidMemoryMap => 20,
            Code::NoncanonicalOrder => 28,
        }
    }
}

/// A memory record of the hardware description: base, length, kind,
/// attributes, node and the low word of its flags.
pub type MemoryRecord = (u64, u64, u16, u16, u16, u32);

/// The parts of one fixture bundle.
pub struct Bundle<'a> {
    pub expected: u16,
    pub trusted_base: u64,
    pub trusted_size: u64,
    pub handoff: &'a [u8],
    pub map: &'a [u8],
    pub rhd: &'a [u8],
}

pub struct BundleView {
    pub expected: u16,
    pub trusted_base: u64,
    pub trusted_size: u64,
    pub handoff: Seq<u8>,
    pub map: Seq<u8>,
    pub rhd: Seq<u8>,
}

impl<'a> View for Bundle<'a> {
    type V = BundleView;

    open spec fn view(&self) -> BundleView {
        BundleView {
            expected: self.expected,
            trusted_base: self.trusted_base,
            trusted_size: self.trusted_size,
            handoff: self.handoff@,
            map: self.map@,
            rhd: self.rhd@,
        }
    }
}

/// What a valid bundle describes: the kinds of its records in order, and
/// its memory records.
pub struct Semantic {
    pub record_kinds: Vec<u16>,
    pub memory: Vec<MemoryRecord>,
}

pub struct SemanticView {
    pub record_kinds: Seq<u16>,
    pub memory: Seq<MemoryRecord>,
}

impl View for Semantic {
    type V = SemanticView;

    open spec fn view(&self) -> SemanticView {
        SemanticView { record_kinds: self.record_kinds@, memory: self.memory@ }
    }
}

pub open spec fn zeros(s: Seq<u8>, from: int, to: int) -> bool {
    forall|i: int| from <= i < to ==> #[trigger] s[i] == 0
}

/// A bundle: magic, major version 1, the expected code, three lengths, a
/// zero word, the trusted range, and exactly the three parts after it.
pub open spec fn parse_bundle_spec(b: Seq<u8>) -> Option<BundleView> {
    if b.len() < 44 || b.take(8) != BUNDLE_MAGIC@ || le16(b, 8) != 1 || le32(b, 24) != 0 {
        None
    } else {
        let h = le32(b, 12);
        let m = le32(b, 16);
        let r = le32(b, 20);
        if 44 + h + m + r != b.len() {
            None
        } else {
            Some(
                BundleView {
                    expected: le16(b, 10) as u16,
                    trusted_base: le64(b, 28) as u64,
                    trusted_size: le64(b, 36) as u64,
                    handoff: b.subrange(44, 44 + h),
                    map: b.subrange(44 + h, 44 + h + m),
                    rhd: b.subrange(44 + h + m, b.len() as int),
                },
            )
        }
    }
}

/// Whether `[base, base + length)` lies in the trusted range; an end past
/// the 64-bit space is an overflow.
pub open spec fn covered_spec(base: u64, length: u64, trusted_base: u64, trusted_size: u64) -> Result<bool, Code> {
    if base + length > u64::MAX || trusted_base + trusted_size > u64::MAX {
        Err(Code::RangeOverflow)
    } else {
        Ok(base >= trusted_base && base + length <= trusted_base + trusted_size)
    }
}

/// Whether two `(base, length)` ranges share an address.
pub open spec fn overlap_spec(first: (u64, u64), second: (u64, u64)) -> Result<bool, Code> {
    if first.0 + first.1 > u64::MAX || second.0 + second.1 > u64::MAX {
        Err(Code::RangeOverflow)
    } else {
        Ok(first.0 < second.0 + second.1 && second.0 < first.0 + first.1)
    }
}

/// Records must come in strictly increasing (kind, id) order.
pub open spec fn key_after(key: (u16, u32), last: (u16, u32)) -> bool {
    key.0 > last.0 || (key.0 == last.0 && key.1 > last.1)
}

pub open spec fn memory_at(r: Seq<u8>, offset: int) -> MemoryRecord {
    (
        le64(r, offset + 16) as u64,
        le64(r, offset + 24) as u64,
        le16(r, offset + 32) as u16,
        le16(r, offset + 34) as u16,
        le16(r, offset + 36) as u16,
        le32(r, offset + 40) as u32,
    )
}

/// The record whose header starts at `offset`: its kind, its memory record
/// if it is one, where it ends and its ordering key; or the code that
/// rejects it.
pub open spec fn record_spec(r: Seq<u8>, total: int, offset: int, previous: Option<(u16, u32)>) -> Result<
    (u16, Option<MemoryRecord>, int, (u16, u32)),
    Code,
> {
    let kind = le16(r, offset) as u16;
    let flags = le16(r, offset + 2);
    let size = le32(r, offset + 4);
    let id = le32(r, offset + 8) as u32;
    if offset + 16 > total {
        Err(Code::Truncated)
    } else if size < 16 || size % 8 != 0 {
        Err(Code::BadAlignment)
    } else if offset + size > usize::MAX {
        Err(Code::RangeOverflow)
    } else if offset + size > total {
        Err(Code::Truncated)
    } else if flags > 1 {
        Err(Code::UnsupportedFlags)
    } else if le32(r, offset + 12) != 0 {
        Err(Code::NonzeroReserved)
    } else if previous is Some && !key_after((kind, id), previous->Some_0) {
        Err(Code::NoncanonicalOrder)
    } else if kind > 6 && flags == 1 {
        Err(Code::UnknownCritical)
    } else if kind == 2 && size != 48 {
        Err(Code::BadCountOrLength)
    } else {
        Ok((kind, if kind == 2 { Some(memory_at(r, offset)) } else { None }, offset + size, (kind, id)))
    }
}

/// The next `remaining` records from `offset`, appended to what was read
/// before them.
pub open spec fn records_spec(
    r: Seq<u8>,
    total: int,
    offset: int,
    remaining: nat,
    previous: Option<(u16, u32)>,
    kinds: Seq<u16>,
    memory: Seq<MemoryRecord>,
) -> Result<(Seq<u16>, Seq<MemoryRecord>, int), Code>
    decreases remaining,
{
    if remaining == 0 {
        Ok((kinds, memory, offset))
    } else {
        match record_spec(r, total, offset, previous) {
            Err(c) => Err(c),
            Ok((kind, mem, end, key)) => records_spec(
                r,
                total,
                end,
                (remaining - 1) as nat,
                Some(key),
                kinds.push(kind),
                if mem is Some { memory.push(mem->Some_0) } else { memory },
            ),
        }
    }
}

/// The verdict on a pair of memory records, if it rejects them.
pub open spec fn pair_spec(a: MemoryRecord, b: MemoryRecord) -> Option<Code> {
    match overlap_spec((a.0, a.1), (b.0, b.1)) {
        Err(c) => Some(c),
        Ok(true) => Some(Code::Overlap),
        Ok(false) => None,
    }
}

/// The first rejected pair `(i, j)` for `j` from `from` on.
pub open spec fn scan_after(m: Seq<MemoryRecord>, i: int, from: int) -> Option<Code>
    decreases m.len() - from,
{
    if from >= m.len() {
        None
    } else if pair_spec(m[i], m[from]) is Some {
        pair_spec(m[i], m[from])
    } else {
        scan_after(m, i, from + 1)
    }
}

/// The first rejected pair `(i, j)`, `i < j`, in order, for `i` from `from` on.
pub open spec fn scan_pairs(m: Seq<MemoryRecord>, from: int) -> Option<Code>
    decreases m.len() - from,
{
    if from >= m.len() {
        None
    } else if scan_after(m, from, from + 1) is Some {
        scan_after(m, from, from + 1)
    } else {
        scan_pairs(m, from + 1)
    }
}

/// The hardware description: its header, then its records, then the
/// memory records pairwise, then the architecture against the handoff's.
pub open spec fn rhd_spec(r: Seq<u8>, claimed: int, arch: int) -> Result<SemanticView, Code> {
    if r.len() < 32 {
        Err(Code::Truncated)
    } else if r.take(8) != RHD_MAGIC@ {
        Err(Code::BadMagic)
    } else if le16(r, 8) != 1 {
        Err(Code::UnsupportedMajor)
    } else if le16(r, 10) != 0 {
        Err(Code::UnsupportedMinor)
    } else if le16(r, 12) != 32 || le16(r, 14) != 16 {
        Err(Code::BadHeaderSize)
    } else if le32(r, 16) > 65536 {
        Err(Code::Oversized)
    } else if le32(r, 16) != r.len() || le32(r, 16) != claimed {
        Err(Code::BadCountOrLength)
    } else if le16(r, 22) != 0 || !zeros(r, 28, 32) {
        Err(Code::NonzeroReserved)
    } else if le16(r, 20) == 0 || le16(r, 20) > 256 {
        Err(Code::BadCountOrLength)
    } else {
        match records_spec(r, r.len() as int, 32, le16(r, 20) as nat, None, Seq::empty(), Seq::empty()) {
            Err(c) => Err(c),
            Ok((kinds, memory, end)) => if end != r.len() {
                Err(Code::BadCountOrLength)
            } else if scan_pairs(memory, 0) is Some {
                Err(scan_pairs(memory, 0)->Some_0)
            } else if arch != le16(r, 24) {
                Err(Code::ArchitectureMismatch)
            } else {
                Ok(SemanticView { record_kinds: kinds, memory })
            },
        }
    }
}

/// The verdict on a bundle: the handoff header's rules in order, the
/// description's pointer against the trusted range, the memory map's size,
/// then the description itself.
pub open spec fn validate_spec(b: BundleView) -> Result<SemanticView, Code> {
    let h = b.handoff;
    if h.len() < 128 {
        Err(Code::Truncated)
    } else if h.take(8) != BOOT_MAGIC@ {
        Err(Code::BadMagic)
    } else if le16(h, 8) != 1 {
        Err(Code::UnsupportedMajor)
    } else if le16(h, 10) != 0 {
        Err(Code::UnsupportedMinor)
    } else if le16(h, 12) != 128 {
        Err(Code::BadHeaderSize)
    } else if le32(h, 16) > 4096 {
        Err(Code::Oversized)
    } else if le16(h, 14) != 0 {
        Err(Code::UnsupportedFlags)
    } else if !zeros(h, 26, 32) || !zeros(h, 62, 64) || !zeros(h, 108, 128) {
        Err(Code::NonzeroReserved)
    } else if le16(h, 20) != 1 && le16(h, 20) != 2 {
        Err(Code::ArchitectureMismatch)
    } else if le32(h, 56) > 65536 {
        Err(Code::Oversized)
    } else if le64(h, 48) % 8 != 0 {
        Err(Code::BadAlignment)
    } else {
        match covered_spec(le64(h, 48) as u64, le32(h, 56) as u64, b.trusted_base, b.trusted_size) {
            Err(c) => Err(c),
            Ok(false) => Err(Code::InvalidPointerRange),
            Ok(true) => if b.map.len() != 64 {
                Err(Code::InvalidMemoryMap)
            } else {
                rhd_spec(b.rhd, le32(h, 56), le16(h, 20))
            },
        }
    }
}

/// Both results alike, the semantics taken by their view.
pub open spec fn semantic_result(r: Result<Semantic, Code>) -> Result<SemanticView, Code> {
    match r {
        Ok(s) => Ok(s@),
        Err(c) => Err(c),
    }
}

fn magic_at(b: &[u8], m: &[u8; 8]) -> (r: bool)
    ensures
        r == (b@.len() >= 8 && b@.take(8) == m@),
{
    if b.len() < 8 {
        return false;
    }
    let mut i: usize = 0;
    while i < 8
        invariant
            i <= 8,
            b@.len() >= 8,
            forall|k: int| 0 <= k < i ==> b@[k] == m@[k],
        decreases 8 - i,
    {
        if b[i] != m[i] {
            proof {
                assert(b@.take(8)[i as int] != m@[i as int]);
            }
            return false;
        }
        i = i + 1;
    }
    proof {
        assert(b@.take(8) =~= m@);
    }
    true
}

fn zero_range(b: &[u8], from: usize, to: usize) -> (r: bool)
    requires
        from <= to <= b@.len(),
    ensures
        r == zeros(b@, from as int, to as int),
{
    let mut i: usize = from;
    while i < to
        invariant
            from <= i <= to <= b@.len(),
            zeros(b@, from as int, i as int),
        decreases to - i,
    {
        if b[i] != 0 {
            return false;
        }
        i = i + 1;
    }
    true
}

/// Moves `offset` past the next `length` bytes and gives them, if they are
/// all there.
fn take<'a>(bytes: &'a [u8], offset: &mut usize, length: usize) -> (r: Option<&'a [u8]>)
    ensures
        match r {
            Some(v) => {
                &&& *old(offset) + length <= bytes@.len()
                &&& v@ == bytes@.subrange(*old(offset) as int, *old(offset) + length)
                &&& *final(offset) == *old(offset) + length
            },
            None => *old(offset) + length > bytes@.len() && *final(offset) == *old(offset),
        },
{
    let len = bytes.len();
    let end = match offset.checked_add(length) {
        Some(e) => e,
        None => {
            return None;
        },
    };
    if end > len {
        return None;
    }
    let value = &bytes[*offset..end];
    *offset = end;
    Some(value)
}

fn u16_at(bytes: &[u8], offset: usize) -> (r: Option<u16>)
    ensures
        match r {
            Some(v) => offset + 2 <= bytes@.len() && v == le16(bytes@, offset as int),
            None => offset + 2 > bytes@.len(),
        },
{
    let len = bytes.len();
    match offset.checked_add(2) {
        Some(end) => if end <= len {
            Some(read16(bytes, offset))
        } else {
            None
        },
        None => None,
    }
}

fn u32_at(bytes: &[u8], offset: usize) -> (r: Option<u32>)
    ensures
        match r {
            Some(v) => offset + 4 <= bytes@.len() && v == le32(bytes@, offset as int),
            None => offset + 4 > bytes@.len(),
        },
{
    let len = bytes.len();
    match offset.checked_add(4) {
        Some(end) => if end <= len {
            Some(read32(bytes, offset))
        } else {
            None
        },
        None => None,
    }
}

fn u64_at(bytes: &[u8], offset: usize) -> (r: Option<u64>)
    ensures
        match r {
            Some(v) => offset + 8 <= bytes@.len() && v == le64(bytes@, offset as int),
            None => offset + 8 > bytes@.len(),
        },
{
    let len = bytes.len();
    match offset.checked_add(8) {
        Some(end) => if end <= len {
            Some(read64(bytes, offset))
        } else {
            None
        },
        None => None,
    }
}

/// Splits a fixture bundle into its parts: exactly the bundles of
/// `parse_bundle_spec` are accepted.
pub fn parse_bundle(bytes: &[u8]) -> (r: Option<Bundle<'_>>)
    ensures
        match r {
            Some(b) => parse_bundle_spec(bytes@) == Some(b@),
            None => parse_bundle_spec(bytes@) is None,
        },
{
    if !magic_at(bytes, &BUNDLE_MAGIC) {
        return None;
    }
    let major = match u16_at(bytes, 8) {
        Some(v) => v,
        None => {
            return None;
        },
    };
    let reserved = match u32_at(bytes, 24) {
        Some(v) => v,
        None => {
            return None;
        },
    };
    if major != 1 || reserved != 0 {
        return None;
    }
    let expected = match u16_at(bytes, 10) {
        Some(v) => v,
        None => {
            return None;
        },
    };
    let handoff_length = match u32_at(bytes, 12) {
        Some(v) => v as usize,
        None => {
            return None;
        },
    };
    let map_length = match u32_at(bytes, 16) {
        Some(v) => v as usize,
        None => {
            return None;
        },
    };
    let rhd_length = match u32_at(bytes, 20) {
        Some(v) => v as usize,
        None => {
            return None;
        },
    };
    let trusted_base = match u64_at(bytes, 28) {
        Some(v) => v,
        None => {
            return None;
        },
    };
    let trusted_size = match u64_at(bytes, 36) {
        Some(v) => v,
        None => {
            return None;
        },
    };
    let mut offset: usize = 44;
    let handoff = match take(bytes, &mut offset, handoff_length) {
        Some(v) => v,
        None => {
            return None;
        },
    };
    let map = match take(bytes, &mut offset, map_length) {
        Some(v) => v,
        None => {
            return None;
        },
    };
    let rhd = match take(bytes, &mut offset, rhd_length) {
        Some(v) => v,
        None => {
            return None;
        },
    };
    if offset != bytes.len() {
        return None;
    }
    Some(Bundle { expected, trusted_base, trusted_size, handoff, map, rhd })
}

fn covered(base: u64, length: u64, trusted_base: u64, trusted_size: u64) -> (r: Result<bool, Code>)
    ensures
        r == covered_spec(base, length, trusted_base, trusted_size),
{
    let end = match base.checked_add(length) {
        Some(e) => e,
        None => {
            return Err(Code::RangeOverflow);
        },
    };
    let trusted_end = match trusted_base.checked_add(trusted_size) {
        Some(e) => e,
        None => {
            return Err(Code::RangeOverflow);
        },
    };
    Ok(base >= trusted_base && end <= trusted_end)
}

fn ranges_overlap(first: (u64, u64), second: (u64, u64)) -> (r: Result<bool, Code>)
    ensures
        r == overlap_spec(first, second),
{
    let first_end = match first.0.checked_add(first.1) {
        Some(e) => e,
        None => {
            return Err(Code::RangeOverflow);
        },
    };
    let second_end = match second.0.checked_add(second.1) {
        Some(e) => e,
        None => {
            return Err(Code::RangeOverflow);
        },
    };
    Ok(first.0 < second_end && second.0 < first_end)
}

/// The records of a description of `rhd.len()` bytes whose header claims
/// `count` of them, read from offset 32.
fn read_records(rhd: &[u8], count: u16) -> (r: Result<(Vec<u16>, Vec<MemoryRecord>, usize), Code>)
    requires
        32 <= rhd@.len() <= 65536,
    ensures
        match r {
            Ok((kinds, memory, end)) => records_spec(
                rhd@,
                rhd@.len() as int,
                32,
                count as nat,
                None,
                Seq::empty(),
                Seq::empty(),
            ) == Ok::<(Seq<u16>, Seq<MemoryRecord>, int), Code>((kinds@, memory@, end as int)),
            Err(c) => records_spec(rhd@, rhd@.len() as int, 32, count as nat, None, Seq::empty(), Seq::empty())
                == Err::<(Seq<u16>, Seq<MemoryRecord>, int), Code>(c),
        },
{
    let total = rhd.len();
    let mut offset: usize = 32;
    let mut previous: Option<(u16, u32)> = None;
    let mut kinds: Vec<u16> = Vec::new();
    let mut memory: Vec<MemoryRecord> = Vec::new();
    let mut i: u16 = 0;
    while i < count
        invariant
            total == rhd@.len(),
            32 <= total <= 65536,
            32 <= offset <= total,
            i <= count,
            records_spec(rhd@, total as int, 32, count as nat, None, Seq::empty(), Seq::empty()) == records_spec(
                rhd@,
                total as int,
                offset as int,
                (count - i) as nat,
                previous,
                kinds@,
                memory@,
            ),
        decreases count - i,
    {
        let ghost step = record_spec(rhd@, total as int, offset as int, previous);
        let header_end = offset + 16;
        if header_end > total {
            return Err(Code::Truncated);
        }
        let kind = read16(rhd, offset);
        let flags = read16(rhd, offset + 2);
        let record_bytes = read32(rhd, offset + 4) as usize;
        let record_id = read32(rhd, offset + 8);
        if record_bytes < 16 || record_bytes % 8 != 0 {
            return Err(Code::BadAlignment);
        }
        let end = match offset.checked_add(record_bytes) {
            Some(e) => e,
            None => {
                return Err(Code::RangeOverflow);
            },
        };
        if end > total {
            return Err(Code::Truncated);
        }
        proof {
            assert((flags & !1u16) != 0 <==> flags > 1) by (bit_vector);
            assert(flags <= 1 ==> ((flags & 1u16) != 0 <==> flags == 1)) by (bit_vector);
        }
        if (flags & !1u16) != 0 {
            return Err(Code::UnsupportedFlags);
        }
        if read32(rhd, offset + 12) != 0 {
            return Err(Code::NonzeroReserved);
        }
        match previous {
            Some((last_kind, last_id)) => {
                if !(kind > last_kind || (kind == last_kind && record_id > last_id)) {
                    return Err(Code::NoncanonicalOrder);
                }
            },
            None => {},
        }
        previous = Some((kind, record_id));
        if kind > 6 && (flags & 1u16) != 0 {
            return Err(Code::UnknownCritical);
        }
        if kind == 2 {
            if record_bytes != 48 {
                return Err(Code::BadCountOrLength);
            }
            let entry: MemoryRecord = (
                read64(rhd, offset + 16),
                read64(rhd, offset + 24),
                read16(rhd, offset + 32),
                read16(rhd, offset + 34),
                read16(rhd, offset + 36),
                read32(rhd, offset + 40),
            );
            memory.push(entry);
        }
        kinds.push(kind);
        offset = end;
        i = i + 1;
    }
    Ok((kinds, memory, offset))
}

/// The first pair of memory records, in order, that overflows or overlaps.
fn check_pairs(memory: &Vec<MemoryRecord>) -> (r: Result<(), Code>)
    ensures
        match r {
            Ok(()) => scan_pairs(memory@, 0) is None,
            Err(c) => scan_pairs(memory@, 0) == Some(c),
        },
{
    let n = memory.len();
    let mut first: usize = 0;
    while first < n
        invariant
            n == memory@.len(),
            first <= n,
            scan_pairs(memory@, 0) == scan_pairs(memory@, first as int),
        decreases n - first,
    {
        let mut second: usize = first + 1;
        while second < n
            invariant
                n == memory@.len(),
                first < n,
                first + 1 <= second <= n,
                scan_pairs(memory@, 0) == scan_pairs(memory@, first as int),
                scan_after(memory@, first as int, first + 1) == scan_after(memory@, first as int, second as int),
            decreases n - second,
        {
            let a = memory[first];
            let b = memory[second];
            match ranges_overlap((a.0, a.1), (b.0, b.1)) {
                Err(c) => {
                    return Err(c);
                },
                Ok(true) => {
                    return Err(Code::Overlap);
                },
                Ok(false) => {},
            }
            second = second + 1;
        }
        first = first + 1;
    }
    Ok(())
}

/// The hardware description against the length the handoff claims for it
/// and the handoff's architecture.
fn validate_rhd(rhd: &[u8], claimed: u64, arch: u16) -> (r: Result<Semantic, Code>)
    ensures
        semantic_result(r) == rhd_spec(rhd@, claimed as int, arch as int),
{
    if rhd.len() < 32 {
        return Err(Code::Truncated);
    }
    if !magic_at(rhd, &RHD_MAGIC) {
        return Err(Code::BadMagic);
    }
    if read16(rhd, 8) != 1 {
        return Err(Code::UnsupportedMajor);
    }
    if read16(rhd, 10) != 0 {
        return Err(Code::UnsupportedMinor);
    }
    if read16(rhd, 12) != 32 || read16(rhd, 14) != 16 {
        return Err(Code::BadHeaderSize);
    }
    let total = read32(rhd, 16) as usize;
    if total > 65536 {
        return Err(Code::Oversized);
    }
    if total != rhd.len() || total as u64 != claimed {
        return Err(Code::BadCountOrLength);
    }
    if read16(rhd, 22) != 0 || !zero_range(rhd, 28, 32) {
        return Err(Code::NonzeroReserved);
    }
    let rhd_arch = read16(rhd, 24);
    let record_count = read16(rhd, 20);
    if record_count == 0 || record_count > 256 {
        return Err(Code::BadCountOrLength);
    }
    let (kinds, memory, offset) = match read_records(rhd, record_count) {
        Ok(v) => v,
        Err(c) => {
            return Err(c);
        },
    };
    if offset != total {
        return Err(Code::BadCountOrLength);
    }
    match check_pairs(&memory) {
        Ok(()) => {},
        Err(c) => {
            return Err(c);
        },
    }
    if arch != rhd_arch {
        return Err(Code::ArchitectureMismatch);
    }
    Ok(Semantic { record_kinds: kinds, memory })
}

/// Validates a bundle: the code of the first rule it breaks, in the order
/// of `validate_spec`, or the semantics it describes.
pub fn validate(bundle: &Bundle) -> (r: Result<Semantic, Code>)
    ensures
        semantic_result(r) == validate_spec(bundle@),
{
    let handoff = bundle.handoff;
    if handoff.len() < 128 {
        return Err(Code::Truncated);
    }
    if !magic_at(handoff, &BOOT_MAGIC) {
        return Err(Code::BadMagic);
    }
    if read16(handoff, 8) != 1 {
        return Err(Code::UnsupportedMajor);
    }
    if read16(handoff, 10) != 0 {
        return Err(Code::UnsupportedMinor);
    }
    if read16(handoff, 12) != 128 {
        return Err(Code::BadHeaderSize);
    }
    if read32(handoff, 16) > 4096 {
        return Err(Code::Oversized);
    }
    if read16(handoff, 14) != 0 {
        return Err(Code::UnsupportedFlags);
    }
    if !zero_range(handoff, 26, 32) || !zero_range(handoff, 62, 64) || !zero_range(handoff, 108, 128) {
        return Err(Code::NonzeroReserved);
    }
    let handoff_arch = read16(handoff, 20);
    if handoff_arch != 1 && handoff_arch != 2 {
        return Err(Code::ArchitectureMismatch);
    }
    let rhd_address = read64(handoff, 48);
    let rhd_claimed = read32(handoff, 56) as u64;
    if rhd_claimed > 65536 {
        return Err(Code::Oversized);
    }
    if rhd_address % 8 != 0 {
        return Err(Code::BadAlignment);
    }
    match covered(rhd_address, rhd_claimed, bundle.trusted_base, bundle.trusted_size) {
        Err(c) => {
            return Err(c);
        },
        Ok(false) => {
            return Err(Code::InvalidPointerRange);
        },
        Ok(true) => {},
    }
    if bundle.map.len() != 64 {
        return Err(Code::InvalidMemoryMap);
    }
    validate_rhd(bundle.rhd, rhd_claimed, handoff_arch)
}

/// The wire code a bundle earns and, when it is valid, what it describes.
pub fn verdict(bundle: &Bundle) -> (r: (u16, Option<Semantic>))
    ensures
        match validate_spec(bundle@) {
            Ok(s) => r.0 == 0 && r.1 is Some && r.1->Some_0@ == s,
            Err(c) => r.0 == c.wire() && r.1 is None,
        },
{
    match validate(bundle) {
        Ok(s) => (Code::Valid.number(), Some(s)),
        Err(c) => (c.number(), None),
    }
}

pub open spec fn expected_name_spec(code: u16) -> Seq<char> {
    if code == 0 {
        "ok"@
    } else if code == 1 {
        "truncated"@
    } else if code == 2 {
        "oversized"@
    } else if code == 9 {
        "bad-alignment"@
    } else if code == 12 {
        "invalid-pointer-range"@
    } else if code == 13 {
        "overlap"@
    } else if code == 15 {
        "unknown-critical"@
    } else if code == 18 {
        "architecture-mismatch"@
    } else {
        "unmapped"@
    }
}

/// The name a fixture manifest gives the outcome with this wire code.
pub fn expected_name(code: u16) -> (r: &'static str)
    ensures
        r@ == expected_name_spec(code),
{
    match code {
        0 => "ok",
        1 => "truncated",
        2 => "oversized",
        9 => "bad-alignment",
        12 => "invalid-pointer-range",
        13 => "overlap",
        15 => "unknown-critical",
        18 => "architecture-mismatch",
        _ => "unmapped",
    }
}

impl Semantic {
    /// Whether two descriptions have the same record kinds and memory.
    pub fn same(&self, other: &Semantic) -> (r: bool)
        ensures
            r == (self@ == other@),
    {
        if self.record_kinds.len() != other.record_kinds.len() || self.memory.len() != other.memory.len() {
            return false;
        }
        let mut i: usize = 0;
        while i < self.record_kinds.len()
            invariant
                i <= self.record_kinds@.len() == other.record_kinds@.len(),
                forall|k: int| 0 <= k < i ==> self.record_kinds@[k] == other.record_kinds@[k],
            decreases self.record_kinds@.len() - i,
        {
            if self.record_kinds[i] != other.record_kinds[i] {
                return false;
            }
            i = i + 1;
        }
        let mut j: usize = 0;
        while j < self.memory.len()
            invariant
                j <= self.memory@.len() == other.memory@.len(),
                forall|k: int| 0 <= k < j ==> self.memory@[k] == other.memory@[k],
            decreases self.memory@.len() - j,
        {
            let a = self.memory[j];
            let b = other.memory[j];
            if a.0 != b.0 || a.1 != b.1 || a.2 != b.2 || a.3 != b.3 || a.4 != b.4 || a.5 != b.5 {
                return false;
            }
            j = j + 1;
        }
        proof {
            assert(self.record_kinds@ =~= other.record_kinds@);
            assert(self.memory@ =~= other.memory@);
        }
        true
    }
}

/// A fixture suite passes its final check with twelve cases and the same
/// semantics computed for both architectures' valid fixtures.
pub fn suite_complete(count: usize, x86: &Option<Semantic>, arm: &Option<Semantic>) -> (r: bool)
    ensures
        r == (count == 12 && x86 is Some && arm is Some && x86->Some_0@ == arm->Some_0@),
{
    match (x86, arm) {
        (Some(a), Some(b)) => count == 12 && a.same(b),
        _ => false,
    }
}

pub open spec fn starts_with(s: Seq<u8>, prefix: Seq<u8>) -> bool {
    s.len() >= prefix.len() && s.take(prefix.len() as int) == prefix
}

fn begins(line: &[u8], prefix: &[u8]) -> (r: bool)
    ensures
        r == starts_with(line@, prefix@),
{
    if line.len() < prefix.len() {
        return false;
    }
    let mut i: usize = 0;
    while i < prefix.len()
        invariant
            i <= prefix@.len() <= line@.len(),
            forall|k: int| 0 <= k < i ==> line@[k] == prefix@[k],
        decreases prefix@.len() - i,
    {
        if line[i] != prefix[i] {
            proof {
                assert(line@.take(prefix@.len() as int)[i as int] != prefix@[i as int]);
            }
            return false;
        }
        i = i + 1;
    }
    proof {
        assert(line@.take(prefix@.len() as int) =~= prefix@);
    }
    true
}

/// `schema=`
pub open spec fn schema_prefix() -> Seq<u8> {
    seq![0x73u8, 0x63, 0x68, 0x65, 0x6d, 0x61, 0x3d]
}

/// `id|`
pub open spec fn columns_prefix() -> Seq<u8> {
    seq![0x69u8, 0x64, 0x7c]
}

/// Manifest rows that name no case: empty lines, the schema line and the
/// column header.
pub fn skipped_row(line: &[u8]) -> (r: bool)
    ensures
        r == (line@.len() == 0 || starts_with(line@, schema_prefix()) || starts_with(line@, columns_prefix())),
{
    let schema: [u8; 7] = [0x73, 0x63, 0x68, 0x65, 0x6d, 0x61, 0x3d];
    let columns: [u8; 3] = [0x69, 0x64, 0x7c];
    proof {
        assert(schema@ =~= schema_prefix());
        assert(columns@ =~= columns_prefix());
    }
    line.len() == 0 || begins(line, schema.as_slice()) || begins(line, columns.as_slice())
}

pub open spec fn no_bar(s: Seq<u8>) -> bool {
    forall|i: int| 0 <= i < s.len() ==> #[trigger] s[i] != 0x7c
}

/// How many `|` separators a row holds.
pub open spec fn bar_count(s: Seq<u8>) -> nat
    decreases s.len(),
{
    if s.len() == 0 {
        0
    } else {
        bar_count(s.drop_last()) + if s.last() == 0x7c {
            1nat
        } else {
            0nat
        }
    }
}

/// The three `|`-separated fields of a manifest row: a row with any other
/// number of fields is malformed.
pub fn row_fields(line: &[u8]) -> (r: Option<(&[u8], &[u8], &[u8])>)
    ensures
        match r {
            Some((a, b, c)) => {
                &&& no_bar(a@) && no_bar(b@) && no_bar(c@)
                &&& line@ == a@ + seq![0x7cu8] + b@ + seq![0x7cu8] + c@
            },
            None => bar_count(line@) != 2,
        },
{
    let n = line.len();
    let mut count: usize = 0;
    let mut first: usize = 0;
    let mut second: usize = 0;
    let mut i: usize = 0;
    while i < n
        invariant
            n == line@.len(),
            i <= n,
            count <= i,
            count == bar_count(line@.take(i as int)),
            count >= 1 ==> first < i && line@[first as int] == 0x7c,
            count >= 2 ==> first < second < i && line@[second as int] == 0x7c,
            forall|k: int|
                0 <= k < i && #[trigger] line@[k] == 0x7c ==> count > 2 || (count >= 1 && k == first) || (count
                    >= 2 && k == second),
        decreases n - i,
    {
        proof {
            assert(line@.take(i + 1).drop_last() =~= line@.take(i as int));
        }
        if line[i] == 0x7c {
            if count == 0 {
                first = i;
            } else if count == 1 {
                second = i;
            }
            count = count + 1;
        }
        i = i + 1;
    }
    proof {
        assert(line@.take(n as int) =~= line@);
    }
    if count != 2 {
        return None;
    }
    let a = &line[0..first];
    let b = &line[first + 1..second];
    let c = &line[second + 1..n];
    proof {
        assert(line@ =~= a@ + seq![0x7cu8] + b@ + seq![0x7cu8] + c@);
        assert forall|k: int| 0 <= k < b@.len() implies #[trigger] b@[k] != 0x7c by {
            assert(b@[k] == line@[first + 1 + k]);
        }
        assert forall|k: int| 0 <= k < c@.len() implies #[trigger] c@[k] != 0x7c by {
            assert(c@[k] == line@[second + 1 + k]);
        }
    }
    Some((a, b, c))
}

proof fn lemma_scan_after_none(m: Seq<MemoryRecord>, i: int, from: int, j: int)
    requires
        scan_after(m, i, from) is None,
        from <= j < m.len(),
    ensures
        pair_spec(m[i], m[j]) is None,
    decreases j - from,
{
    if from < j {
        lemma_scan_after_none(m, i, from + 1, j);
    }
}

proof fn lemma_scan_pairs_none(m: Seq<MemoryRecord>, from: int, i: int, j: int)
    requires
        scan_pairs(m, from) is None,
        0 <= from <= i < j < m.len(),
    ensures
        pair_spec(m[i], m[j]) is None,
    decreases i - from,
{
    if from < i {
        lemma_scan_pairs_none(m, from + 1, i, j);
    } else {
        lemma_scan_after_none(m, i, i + 1, j);
    }
}

/// Law: the memory records of a bundle that validates are pairwise
/// disjoint ranges, each of two or more ending inside the 64-bit address
/// space.
pub proof fn law_valid_memory_disjoint(b: BundleView, i: int, j: int)
    requires
        validate_spec(b) is Ok,
        0 <= i < j < validate_spec(b)->Ok_0.memory.len(),
    ensures
        ({
            let m = validate_spec(b)->Ok_0.memory;
            &&& m[i].0 + m[i].1 <= u64::MAX
            &&& m[j].0 + m[j].1 <= u64::MAX
            &&& (m[i].0 + m[i].1 <= m[j].0 || m[j].0 + m[j].1 <= m[i].0)
        }),
{
    let r = b.rhd;
    let records = records_spec(r, r.len() as int, 32, le16(r, 20) as nat, None, Seq::empty(), Seq::empty());
    assert(records is Ok);
    let m = records->Ok_0.1;
    assert(validate_spec(b)->Ok_0.memory == m);
    assert(scan_pairs(m, 0) is None);
    lemma_scan_pairs_none(m, 0, i, j);
}

} // verus!
