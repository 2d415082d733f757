//! Semantic types of the boot handoff and hardware description records, with
//! the fixed limits of their first release. The numeric codes carried on the
//! wire are given by `code` methods rather than by the layout of the enums.
use vstd::prelude::*;

verus! {

pub const BOOT_MAGIC: [u8; 8] = [0x52, 0x41, 0x52, 0x42, 0x4f, 0x4f, 0x54, 0x00];
pub const RHD_MAGIC: [u8; 8] = [0x52, 0x41, 0x52, 0x52, 0x48, 0x44, 0x00, 0x00];
pub const BOOT_V1_BYTES: u16 = 128;
pub const RHD_V1_HEADER_BYTES: u16 = 32;
pub const RHD_V1_RECORD_HEADER_BYTES: u16 = 16;
pub const MEMORY_MAP_V1_ENTRY_BYTES: u16 = 32;
pub const MAX_HANDOFF_BYTES: u32 = 4_096;
pub const MAX_RHD_BYTES: u32 = 65_536;
pub const MAX_RHD_RECORDS: u16 = 256;
pub const MAX_MEMORY_MAP_ENTRIES: u32 = 256;

#[derive(Clone, Copy, Debug, Eq, PartialEq, Structural)]
pub enum Architecture {
    X86_64,
    Aarch64,
}

impl Architecture {
    /// Wire code of the architecture.
    pub open spec fn spec_code(self) -> u16 {
        match self {
            Architecture::X86_64 => 1,
            Architecture::Aarch64 => 2,
        }
    }

    pub fn code(&self) -> (r: u16)
        ensures
            r == self.spec_code(),
    {
        match self {
            Architecture::X86_64 => 1,
            Architecture::Aarch64 => 2,
        }
    }

    /// The architecture with the given wire code, if there is one.
    pub fn from_code(code: u16) -> (r: Option<Architecture>)
        ensures
            match r {
                Some(a) => a.spec_code() == code,
                None => code != 1 && code != 2,
            },
    {
        if code == 1 {
            Some(Architecture::X86_64)
        } else if code == 2 {
            Some(Architecture::Aarch64)
        } else {
            None
        }
    }
}

/// Result of validating a handoff or hardware description. `Valid` is code 0;
/// every other variant is a refusal, numbered in declaration order from 1.
#[derive(Clone, Copy, Debug, Eq, PartialEq, Structural)]
pub enum ValidationCode {
    Valid,
    Truncated,
    Oversized,
    BadMagic,
    UnsupportedMajor,
    UnsupportedMinor,
    BadHeaderSize,
    UnsupportedFlags,
    NonzeroReserved,
    BadAlignment,
    RangeOverflow,
    OutOfAddressRange,
    InvalidPointerRange,
    Overlap,
    BadCountOrLength,
    UnknownCritical,
    DuplicateId,
    BadReference,
    ArchitectureMismatch,
    PageSizeMismatch,
    InvalidMemoryMap,
    InvalidCpuSet,
    InvalidInterrupt,
    InvalidTimer,
    InvalidSerial,
    InvalidBootSource,
    InvalidEntropy,
    InvalidTrace,
    NoncanonicalOrder,
    InconsistentDescription,
}

impl ValidationCode {
    pub open spec fn spec_code(self) -> u32 {
        match self {
            ValidationCode::Valid => 0,
            ValidationCode::Truncated => 1,
            ValidationCode::Oversized => 2,
            ValidationCode::BadMagic => 3,
            ValidationCode::UnsupportedMajor => 4,
            ValidationCode::UnsupportedMinor => 5,
            ValidationCode::BadHeaderSize => 6,
            ValidationCode::UnsupportedFlags => 7,
            ValidationCode::NonzeroReserved => 8,
            ValidationCode::BadAlignment => 9,
            ValidationCode::RangeOverflow => 10,
            ValidationCode::OutOfAddressRange => 11,
            ValidationCode::InvalidPointerRange => 12,
            ValidationCode::Overlap => 13,
            ValidationCode::BadCountOrLength => 14,
            ValidationCode::UnknownCritical => 15,
            ValidationCode::DuplicateId => 16,
            ValidationCode::BadReference => 17,
            ValidationCode::ArchitectureMismatch => 18,
            ValidationCode::PageSizeMismatch => 19,
            ValidationCode::InvalidMemoryMap => 20,
            ValidationCode::InvalidCpuSet => 21,
            ValidationCode::InvalidInterrupt => 22,
            ValidationCode::InvalidTimer => 23,
            ValidationCode::InvalidSerial => 24,
            ValidationCode::InvalidBootSource => 25,
            ValidationCode::InvalidEntropy => 26,
            ValidationCode::InvalidTrace => 27,
            ValidationCode::NoncanonicalOrder => 28,
            ValidationCode::InconsistentDescription => 29,
        }
    }

    pub fn code(&self) -> (r: u32)
        ensures
            r == self.spec_code(),
    {
        match self {
            ValidationCode::Valid => 0,
            ValidationCode::Truncated => 1,
            ValidationCode::Oversized => 2,
            ValidationCode::BadMagic => 3,
            ValidationCode::UnsupportedMajor => 4,
            ValidationCode::UnsupportedMinor => 5,
            ValidationCode::BadHeaderSize => 6,
            ValidationCode::UnsupportedFlags => 7,
            ValidationCode::NonzeroReserved => 8,
            ValidationCode::BadAlignment => 9,
            ValidationCode::RangeOverflow => 10,
            ValidationCode::OutOfAddressRange => 11,
            ValidationCode::InvalidPointerRange => 12,
            ValidationCode::Overlap => 13,
            ValidationCode::BadCountOrLength => 14,
            ValidationCode::UnknownCritical => 15,
            ValidationCode::DuplicateId => 16,
            ValidationCode::BadReference => 17,
            ValidationCode::ArchitectureMismatch => 18,
            ValidationCode::PageSizeMismatch => 19,
            ValidationCode::InvalidMemoryMap => 20,
            ValidationCode::InvalidCpuSet => 21,
            ValidationCode::InvalidInterrupt => 22,
            ValidationCode::InvalidTimer => 23,
            ValidationCode::InvalidSerial => 24,
            ValidationCode::InvalidBootSource => 25,
            ValidationCode::InvalidEntropy => 26,
            ValidationCode::InvalidTrace => 27,
            ValidationCode::NoncanonicalOrder => 28,
            ValidationCode::InconsistentDescription => 29,
        }
    }
}

#[derive(Clone, Copy, Debug, Eq, PartialEq, Structural)]
pub struct BootHandoffV1 {
    pub architecture: Architecture,
    pub address_bits: u8,
    pub page_shift: u8,
    pub boot_source_kind: u16,
    pub memory_map_address: u64,
    pub memory_map_count: u32,
    pub rhd_address: u64,
    pub rhd_bytes: u32,
    pub entropy_address: u64,
    pub entropy_bytes: u32,
    pub entropy_flags: u32,
    pub trace_channel_id: u32,
    pub trace_major: u16,
    pub trace_minor: u16,
    pub trace_buffer_address: u64,
    pub trace_buffer_bytes: u32,
    pub trace_flags: u32,
    pub boot_cpu_id: u32,
}

#[derive(Clone, Copy, Debug, Eq, PartialEq, Structural)]
pub struct MemoryRegionV1 {
    pub base: u64,
    pub length: u64,
    pub kind: u16,
    pub attributes: u16,
    pub owner: u16,
    pub region_id: u32,
}

#[derive(Clone, Copy, Debug, Eq, PartialEq, Structural)]
pub struct RhdHeaderV1 {
    pub total_bytes: u32,
    pub record_count: u16,
    pub architecture: Architecture,
    pub address_bits: u8,
    pub page_shift: u8,
}

#[derive(Clone, Copy, Debug, Eq, PartialEq, Structural)]
pub struct RecordHeaderV1 {
    pub kind: u16,
    pub flags: u16,
    pub record_bytes: u32,
    pub record_id: u32,
}

#[derive(Clone, Copy, Debug, Eq, PartialEq, Structural)]
pub struct CpuRecordV1 {
    pub cpu_id: u32,
    pub flags: u32,
    pub hardware_id: u64,
    pub interrupt_controller_id: u32,
    pub timer_id: u32,
}

#[derive(Clone, Copy, Debug, Eq, PartialEq, Structural)]
pub struct InterruptRecordV1 {
    pub controller_id: u32,
    pub model: u16,
    pub flags: u16,
    pub register_base: u64,
    pub register_bytes: u32,
    pub global_interrupt_base: u32,
    pub interrupt_count: u32,
}

#[derive(Clone, Copy, Debug, Eq, PartialEq, Structural)]
pub struct TimerRecordV1 {
    pub timer_id: u32,
    pub model: u16,
    pub flags: u16,
    pub frequency_hz: u64,
    pub register_base: u64,
    pub interrupt: u32,
    pub interrupt_controller_id: u32,
}

#[derive(Clone, Copy, Debug, Eq, PartialEq, Structural)]
pub struct SerialRecordV1 {
    pub serial_id: u32,
    pub model: u16,
    pub flags: u16,
    pub register_base: u64,
    pub register_bytes: u16,
    pub interrupt: u16,
    pub interrupt_controller_id: u32,
    pub input_clock_hz: u64,
}

#[derive(Clone, Copy, Debug, Eq, PartialEq, Structural)]
pub struct BootSourceRecordV1 {
    pub kind: u16,
    pub flags: u16,
    pub stable_source_id: u32,
}

} // verus!
