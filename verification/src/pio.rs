//! Bounded ATA PIO transport over an abstract port adapter: identify one
//! pinned disk profile, then single-sector reads, writes and flushes. Any
//! failure poisons the transport; nothing is retried.
use vstd::prelude::*;

verus! {

pub const SECTOR_BYTES: usize = 512;
pub const POLLS: usize = 65536;

#[derive(Clone, Copy, Debug, PartialEq, Eq, Structural)]
pub enum Register {
    Count,
    LbaLow,
    LbaMid,
    LbaHigh,
    Head,
}

#[derive(Clone, Copy, Debug, PartialEq, Eq, Structural)]
pub enum Command {
    Identify,
    Read,
    Write,
    Flush,
}

#[derive(Clone, Copy, Debug, PartialEq, Eq, Structural)]
pub enum Error {
    Bounds,
    Unavailable,
    Device,
    Timeout,
    Transport,
    Poisoned,
    Identity,
}

/// The port adapter. It is no capability boundary: the kernel must itself
/// pin the adapter, its registers and its commands.
pub trait Io {
    fn status(&mut self) -> Result<u8, ()>;

    fn register(&mut self, reg: Register, value: u8) -> Result<(), ()>;

    fn command(&mut self, command: Command) -> Result<(), ()>;

    fn read_word(&mut self) -> Result<u16, ()>;

    fn write_word(&mut self, word: u16) -> Result<(), ()>;

    fn yield_cpu(&mut self) -> Result<(), ()>;
}

/// The trusted profile a disk must match: its sector count and its exact
/// space-padded ASCII serial and model, in display order.
#[derive(Clone, Copy)]
pub struct Identity {
    pub sectors: u32,
    pub serial: [u8; 20],
    pub model: [u8; 40],
}

/// Printable ASCII and not all spaces.
pub open spec fn text_ok(t: Seq<u8>) -> bool {
    &&& forall|i: int| 0 <= i < t.len() ==> 0x20 <= #[trigger] t[i] <= 0x7e
    &&& exists|i: int| 0 <= i < t.len() && #[trigger] t[i] != 0x20
}

pub open spec fn identity_valid(e: Identity) -> bool {
    0 < e.sectors < 0x1000_0000 && text_ok(e.serial@) && text_ok(e.model@)
}

/// Byte `i` of the ATA string starting at word `start`: the high byte of a
/// word comes first.
pub open spec fn text_byte(w: Seq<u16>, start: int, i: int) -> u8 {
    if i % 2 == 0 {
        (w[start + i / 2] >> 8u16) as u8
    } else {
        w[start + i / 2] as u8
    }
}

/// The pinned disk profile: ATA, LBA, 48-bit feature words valid, the
/// expected capacity in both counts (the 48-bit one only when advertised),
/// 512-byte sectors, and the exact serial and model.
pub open spec fn identify_spec(w: Seq<u16>, e: Identity) -> Result<(), Error> {
    if !identity_valid(e) {
        Err(Error::Bounds)
    } else if w[0] != 0x0040 || w[49] & 0x200u16 == 0 || w[83] & 0xc000u16 != 0x4000 || w[83] & 0x1000u16 == 0
        || w[87] & 0xc000u16 != 0x4000 || w[86] & 0x1000u16 == 0 {
        Err(Error::Identity)
    } else if w[60] as int + w[61] as int * 0x1_0000 != e.sectors {
        Err(Error::Identity)
    } else if (w[83] & 0x400u16 != 0 && w[100] as int + w[101] as int * 0x1_0000 + w[102] as int * 0x1_0000_0000
        + w[103] as int * 0x1_0000_0000_0000 != e.sectors) || (w[83] & 0x400u16 == 0 && (w[100] != 0 || w[101] != 0
        || w[102] != 0 || w[103] != 0)) {
        Err(Error::Identity)
    } else if !(w[106] == 0 || w[106] == 0x4000 || w[106] == 0x6000) || w[117] != 0 || w[118] != 0 {
        Err(Error::Identity)
    } else if exists|i: int| 0 <= i < 20 && #[trigger] text_byte(w, 10, i) != e.serial@[i] {
        Err(Error::Identity)
    } else if exists|i: int| 0 <= i < 40 && #[trigger] text_byte(w, 27, i) != e.model@[i] {
        Err(Error::Identity)
    } else {
        Ok(())
    }
}

fn text_valid(t: &[u8]) -> (r: bool)
    ensures
        r == text_ok(t@),
{
    let mut any = false;
    let mut i: usize = 0;
    while i < t.len()
        invariant
            i <= t@.len(),
            forall|k: int| 0 <= k < i ==> 0x20 <= #[trigger] t@[k] <= 0x7e,
            any == exists|k: int| 0 <= k < i && #[trigger] t@[k] != 0x20,
        decreases t@.len() - i,
    {
        if t[i] < 0x20 || t[i] > 0x7e {
            return false;
        }
        if t[i] != 0x20 {
            any = true;
        }
        i = i + 1;
    }
    any
}

impl Identity {
    pub fn valid(&self) -> (r: bool)
        ensures
            r == identity_valid(*self),
    {
        self.sectors > 0 && self.sectors < 0x1000_0000 && text_valid(&self.serial) && text_valid(&self.model)
    }
}

fn text_matches(words: &[u16; 256], start: usize, text: &[u8]) -> (r: bool)
    requires
        start + text@.len() / 2 + 1 <= 256,
    ensures
        r == forall|i: int| 0 <= i < text@.len() ==> #[trigger] text_byte(words@, start as int, i) == text@[i],
{
    let mut i: usize = 0;
    while i < text.len()
        invariant
            i <= text@.len(),
            start + text@.len() / 2 + 1 <= 256,
            forall|k: int| 0 <= k < i ==> #[trigger] text_byte(words@, start as int, k) == text@[k],
        decreases text@.len() - i,
    {
        let word = words[start + i / 2];
        let actual = if i % 2 == 0 {
            (word >> 8) as u8
        } else {
            word as u8
        };
        if actual != text[i] {
            proof {
                assert(text_byte(words@, start as int, i as int) != text@[i as int]);
            }
            return false;
        }
        i = i + 1;
    }
    true
}

/// Checks identify data against the pinned profile.
pub fn identify_matches(words: &[u16; 256], expected: &Identity) -> (r: Result<(), Error>)
    ensures
        r == identify_spec(words@, *expected),
{
    if !expected.valid() {
        return Err(Error::Bounds);
    }
    if words[0] != 0x0040 || words[49] & 0x200 == 0 || words[83] & 0xc000 != 0x4000 || words[83] & 0x1000 == 0
        || words[87] & 0xc000 != 0x4000 || words[86] & 0x1000 == 0 {
        return Err(Error::Identity);
    }
    let capacity = words[60] as u64 + words[61] as u64 * 0x1_0000;
    if capacity != expected.sectors as u64 {
        return Err(Error::Identity);
    }
    let extended = words[100] as u128 + words[101] as u128 * 0x1_0000 + words[102] as u128 * 0x1_0000_0000
        + words[103] as u128 * 0x1_0000_0000_0000;
    if (words[83] & 0x400 != 0 && extended != expected.sectors as u128) || (words[83] & 0x400 == 0 && extended
        != 0) {
        return Err(Error::Identity);
    }
    if !(words[106] == 0 || words[106] == 0x4000 || words[106] == 0x6000) || words[117] != 0 || words[118] != 0 {
        return Err(Error::Identity);
    }
    if !text_matches(words, 10, &expected.serial) {
        return Err(Error::Identity);
    }
    if !text_matches(words, 27, &expected.model) {
        return Err(Error::Identity);
    }
    Ok(())
}

/// The errors a port exchange can end in: a failed adapter call, an absent
/// drive, a device fault, or the poll budget running out.
pub open spec fn port_error(e: Error) -> bool {
    e == Error::Transport || e == Error::Unavailable || e == Error::Device || e == Error::Timeout
}

/// Sector bytes from the data words read, each word little-endian.
pub open spec fn words_le(ws: Seq<u16>) -> Seq<u8> {
    Seq::new(2 * ws.len(), |i: int| if i % 2 == 0 { (ws[i / 2] % 256) as u8 } else { (ws[i / 2] / 256) as u8 })
}

pub struct DeviceView {
    pub sectors: u32,
    pub poisoned: bool,
}

/// What the driver has handed to the port adapter and taken from it, in
/// order: register writes, commands, data words written, data words read,
/// status bytes read, and how many adapter calls failed.
pub struct PortLog {
    pub registers: Seq<(Register, u8)>,
    pub commands: Seq<Command>,
    pub written: Seq<u16>,
    pub read: Seq<u16>,
    pub statuses: Seq<u8>,
    pub failures: nat,
}

/// The same log with these statuses appended.
pub open spec fn with_statuses(l: PortLog, ss: Seq<u8>) -> PortLog {
    PortLog { statuses: l.statuses + ss, ..l }
}

/// The register values that select LBA-28 sector `lba` of the master drive
/// for one sector, in the order they are written.
pub open spec fn lba_registers_spec(lba: u32) -> Seq<(Register, u8)> {
    seq![
        (Register::Head, (0xe0 + (lba / 0x100_0000) % 16) as u8),
        (Register::Count, 1u8),
        (Register::LbaLow, (lba % 256) as u8),
        (Register::LbaMid, (lba / 256 % 256) as u8),
        (Register::LbaHigh, (lba / 0x1_0000 % 256) as u8),
    ]
}

pub fn lba_registers(lba: u32) -> (r: [(Register, u8); 5])
    ensures
        r@ == lba_registers_spec(lba),
{
    let r = [
        (Register::Head, (0xe0 + (lba / 0x100_0000) % 16) as u8),
        (Register::Count, 1u8),
        (Register::LbaLow, (lba % 256) as u8),
        (Register::LbaMid, (lba / 256 % 256) as u8),
        (Register::LbaHigh, (lba / 0x1_0000 % 256) as u8),
    ];
    proof {
        assert(r@ =~= lba_registers_spec(lba));
    }
    r
}

/// The data words of a sector: each pair of bytes, little-endian.
pub open spec fn words_of(data: Seq<u8>) -> Seq<u16> {
    Seq::new(256, |i: int| (data[2 * i] + 256 * data[2 * i + 1]) as u16)
}

pub fn sector_words(data: &[u8; 512]) -> (r: [u16; 256])
    ensures
        r@ == words_of(data@),
{
    let mut r = [0u16; 256];
    let mut i: usize = 0;
    while i < 256
        invariant
            i <= 256,
            forall|k: int| 0 <= k < i ==> r@[k] == words_of(data@)[k],
        decreases 256 - i,
    {
        r[i] = data[2 * i] as u16 + 256 * data[2 * i + 1] as u16;
        i = i + 1;
    }
    proof {
        assert(r@ =~= words_of(data@));
    }
    r
}

pub fn sector_bytes(words: &[u16; 256]) -> (r: [u8; 512])
    ensures
        r@ == words_le(words@),
{
    let mut out = [0u8; 512];
    let mut i: usize = 0;
    while i < 256
        invariant
            i <= 256,
            forall|k: int| 0 <= k < 2 * i ==> out@[k] == words_le(words@)[k],
        decreases 256 - i,
    {
        out[2 * i] = (words[i] % 256) as u8;
        out[2 * i + 1] = (words[i] / 256) as u8;
        i = i + 1;
    }
    proof {
        assert(out@ =~= words_le(words@));
    }
    out
}

/// Law: the bytes of a sector's data words are the sector.
pub proof fn law_sector_words_roundtrip(data: Seq<u8>)
    requires
        data.len() == 512,
    ensures
        words_le(words_of(data)) == data,
{
    assert forall|i: int| 0 <= i < 512 implies words_le(words_of(data))[i] == data[i] by {
        let w = words_of(data)[i / 2];
        assert(w == data[2 * (i / 2)] + 256 * data[2 * (i / 2) + 1]);
    }
    assert(words_le(words_of(data)) =~= data);
}

/// What one status byte means to a wait for the data-request bit `drq`.
#[derive(Clone, Copy, Debug, PartialEq, Eq, Structural)]
pub enum Poll {
    /// Floating bus: no drive.
    Absent,
    /// Not busy, with the error or device-fault bit.
    Fault,
    /// Not busy, ready, and the data-request bit as wanted.
    Ready,
    /// Anything else: poll again.
    Busy,
}

pub open spec fn status_step_spec(s: u8, drq: bool) -> Poll {
    if s == 0 || s == 255 {
        Poll::Absent
    } else if s & 0x80 == 0 && s & 0x21 != 0 {
        Poll::Fault
    } else if s & 0x80 == 0 && s & 0x40 != 0 && ((s & 8 != 0) == drq) {
        Poll::Ready
    } else {
        Poll::Busy
    }
}

pub fn status_step(s: u8, drq: bool) -> (r: Poll)
    ensures
        r == status_step_spec(s, drq),
{
    if s == 0 || s == 255 {
        Poll::Absent
    } else if s & 0x80 == 0 && s & 0x21 != 0 {
        Poll::Fault
    } else if s & 0x80 == 0 && s & 0x40 != 0 && ((s & 8 != 0) == drq) {
        Poll::Ready
    } else {
        Poll::Busy
    }
}

pub open spec fn all_busy(ss: Seq<u8>, drq: bool) -> bool {
    forall|i: int| 0 <= i < ss.len() ==> status_step_spec(#[trigger] ss[i], drq) == Poll::Busy
}

/// A wait's verdict on the statuses it read: every status but the last
/// asked to poll again, and the last decided; or the poll bound ran out.
pub open spec fn wait_spec(ss: Seq<u8>, drq: bool, r: Result<(), Error>) -> bool {
    match r {
        Ok(()) => ss.len() >= 1 && all_busy(ss.drop_last(), drq) && status_step_spec(ss.last(), drq) == Poll::Ready,
        Err(Error::Device) => ss.len() >= 1 && all_busy(ss.drop_last(), drq) && status_step_spec(ss.last(), drq)
            == Poll::Fault,
        Err(Error::Unavailable) => ss.len() >= 1 && all_busy(ss.drop_last(), drq) && status_step_spec(ss.last(), drq)
            == Poll::Absent,
        Err(Error::Timeout) => ss.len() == POLLS && all_busy(ss, drq),
        Err(Error::Transport) => ss.len() <= POLLS && all_busy(ss, drq),
        Err(_) => false,
    }
}

/// The pause after a select or command: four status reads showing a drive,
/// unless a read fails or shows a floating bus first.
pub open spec fn delay_spec(ss: Seq<u8>, r: Result<(), Error>) -> bool {
    &&& ss.len() <= 4
    &&& match r {
        Ok(()) => ss.len() == 4 && forall|i: int| 0 <= i < 4 ==> !(#[trigger] ss[i] == 0 || ss[i] == 255),
        Err(Error::Unavailable) => ss.len() >= 1 && (ss.last() == 0 || ss.last() == 255) && forall|i: int|
            0 <= i < ss.len() - 1 ==> !(#[trigger] ss[i] == 0 || ss[i] == 255),
        Err(Error::Transport) => forall|i: int| 0 <= i < ss.len() ==> !(#[trigger] ss[i] == 0 || ss[i] == 255),
        Err(_) => false,
    }
}

/// What a device refuses before touching any port: everything once it is
/// poisoned, and a sector past the disk.
pub open spec fn refusal(v: DeviceView, lba: Option<u32>) -> Option<Error> {
    if v.poisoned {
        Some(Error::Poisoned)
    } else if lba is Some && lba->Some_0 >= v.sectors {
        Some(Error::Bounds)
    } else {
        None
    }
}

/// Poisoning is for good: a poisoned device refuses every read, write and
/// flush before touching a port, and a device that was not refused and
/// failed is poisoned from then on.
pub proof fn law_poisoned_refuses_everything(v: DeviceView, w: DeviceView, lba: u32)
    requires
        v.poisoned,
    ensures
        refusal(v, Some(lba)) == Some(Error::Poisoned),
        refusal(v, None) == Some(Error::Poisoned),
        w.poisoned ==> refusal(w, Some(lba)) == Some(Error::Poisoned) && refusal(w, None) == Some(Error::Poisoned),
{
}

/// A fault: the drive answers, is not busy, and shows the error or
/// device-fault bit.
pub open spec fn status_fault(s: u8) -> bool {
    !(s == 0 || s == 255) && s & 0x80 == 0 && s & 0x21 != 0
}

/// What the statuses read since position `from` say of error `e`: a fault
/// or a floating bus is the last status read; a timeout read at least the
/// full poll bound.
pub open spec fn verdict(statuses: Seq<u8>, from: int, e: Error) -> bool {
    match e {
        Error::Device => statuses.len() > from && status_fault(statuses.last()),
        Error::Unavailable => statuses.len() > from && (statuses.last() == 0 || statuses.last() == 255),
        Error::Timeout => statuses.len() >= from + POLLS,
        _ => true,
    }
}

/// `b` is `a` followed by the first items of `plan`.
pub open spec fn added_from<T>(a: Seq<T>, b: Seq<T>, plan: Seq<T>) -> bool {
    &&& a.len() <= b.len() <= a.len() + plan.len()
    &&& forall|i: int| 0 <= i < a.len() ==> #[trigger] b[i] == a[i]
    &&& forall|i: int| a.len() <= i < b.len() ==> #[trigger] b[i] == plan[i - a.len()]
}

/// An exchange that stopped at its first failure: each of the register
/// writes, the command and the data words written is a prefix of what was
/// planned; the command only after all the registers, data only after the
/// command; at most `reads` words read; a transport error is exactly one
/// failed adapter call, and any other error is what the statuses showed.
pub open spec fn cut_short(
    l0: PortLog,
    l1: PortLog,
    registers: Seq<(Register, u8)>,
    command: Command,
    written: Seq<u16>,
    reads: nat,
    e: Error,
) -> bool {
    &&& added_from(l0.registers, l1.registers, registers)
    &&& added_from(l0.commands, l1.commands, seq![command])
    &&& added_from(l0.written, l1.written, written)
    &&& l1.read.len() <= l0.read.len() + reads
    &&& extends(l0.read, l1.read)
    &&& l1.commands.len() > l0.commands.len() ==> l1.registers.len() == l0.registers.len() + registers.len()
    &&& l1.written.len() > l0.written.len() || l1.read.len() > l0.read.len() ==> l1.commands.len()
        > l0.commands.len()
    &&& extends(l0.statuses, l1.statuses)
    &&& verdict(l1.statuses, l0.statuses.len() as int, e)
    &&& (e == Error::Transport) == (l1.failures == l0.failures + 1)
    &&& e != Error::Transport ==> l1.failures == l0.failures
}

/// `b` continues `a`: `a` is a prefix of it.
pub open spec fn extends<T>(a: Seq<T>, b: Seq<T>) -> bool {
    b.len() >= a.len() && forall|i: int| 0 <= i < a.len() ==> #[trigger] b[i] == a[i]
}

/// The same transfers: registers, commands and data words alike.
pub open spec fn transfers_same(a: PortLog, b: PortLog) -> bool {
    a.registers == b.registers && a.commands == b.commands && a.written == b.written && a.read == b.read
}

/// Nothing exchanged yet.
pub open spec fn empty_log() -> PortLog {
    PortLog {
        registers: Seq::empty(),
        commands: Seq::empty(),
        written: Seq::empty(),
        read: Seq::empty(),
        statuses: Seq::empty(),
        failures: 0,
    }
}

/// One disk behind a port adapter.
pub struct Device<I: Io> {
    pub io: I,
    pub sectors: u32,
    poisoned: bool,
    log: Ghost<PortLog>,
}

impl<I: Io> View for Device<I> {
    type V = DeviceView;

    closed spec fn view(&self) -> DeviceView {
        DeviceView { sectors: self.sectors, poisoned: self.poisoned }
    }
}

impl<I: Io> Device<I> {
    /// The port adapter as it stands.
    pub closed spec fn adapter(&self) -> I {
        self.io
    }

    /// Everything exchanged with the adapter since the device was made.
    pub closed spec fn log(&self) -> PortLog {
        self.log@
    }

    fn status(&mut self) -> (r: Result<u8, ()>)
        ensures
            final(self)@ == old(self)@,
            match r {
                Ok(s) => final(self).log() == (PortLog { statuses: old(self).log().statuses.push(s), ..old(self).log() }),
                Err(()) => final(self).log() == (PortLog { failures: old(self).log().failures + 1, ..old(self).log() }),
            },
    {
        let r = self.io.status();
        proof {
            match r {
                Ok(s) => {
                    self.log@.statuses = self.log@.statuses.push(s);
                },
                Err(()) => {
                    self.log@.failures = self.log@.failures + 1;
                },
            }
        }
        r
    }

    fn set(&mut self, reg: Register, value: u8) -> (r: Result<(), ()>)
        ensures
            final(self)@ == old(self)@,
            final(self).log() == (PortLog {
                registers: old(self).log().registers.push((reg, value)),
                failures: old(self).log().failures + if r is Err { 1nat } else { 0nat },
                ..old(self).log()
            }),
    {
        let r = self.io.register(reg, value);
        proof {
            self.log@.registers = self.log@.registers.push((reg, value));
            if r is Err {
                self.log@.failures = self.log@.failures + 1;
            }
        }
        r
    }

    fn issue(&mut self, command: Command) -> (r: Result<(), ()>)
        ensures
            final(self)@ == old(self)@,
            final(self).log() == (PortLog {
                commands: old(self).log().commands.push(command),
                failures: old(self).log().failures + if r is Err { 1nat } else { 0nat },
                ..old(self).log()
            }),
    {
        let r = self.io.command(command);
        proof {
            self.log@.commands = self.log@.commands.push(command);
            if r is Err {
                self.log@.failures = self.log@.failures + 1;
            }
        }
        r
    }

    fn take_word(&mut self) -> (r: Result<u16, ()>)
        ensures
            final(self)@ == old(self)@,
            match r {
                Ok(w) => final(self).log() == (PortLog { read: old(self).log().read.push(w), ..old(self).log() }),
                Err(()) => final(self).log() == (PortLog { failures: old(self).log().failures + 1, ..old(self).log() }),
            },
    {
        let r = self.io.read_word();
        proof {
            match r {
                Ok(w) => {
                    self.log@.read = self.log@.read.push(w);
                },
                Err(()) => {
                    self.log@.failures = self.log@.failures + 1;
                },
            }
        }
        r
    }

    fn give_word(&mut self, word: u16) -> (r: Result<(), ()>)
        ensures
            final(self)@ == old(self)@,
            final(self).log() == (PortLog {
                written: old(self).log().written.push(word),
                failures: old(self).log().failures + if r is Err { 1nat } else { 0nat },
                ..old(self).log()
            }),
    {
        let r = self.io.write_word(word);
        proof {
            self.log@.written = self.log@.written.push(word);
            if r is Err {
                self.log@.failures = self.log@.failures + 1;
            }
        }
        r
    }

    fn pause(&mut self) -> (r: Result<(), ()>)
        ensures
            final(self)@ == old(self)@,
            final(self).log() == (PortLog {
                failures: old(self).log().failures + if r is Err { 1nat } else { 0nat },
                ..old(self).log()
            }),
    {
        let r = self.io.yield_cpu();
        proof {
            if r is Err {
                self.log@.failures = self.log@.failures + 1;
            }
        }
        r
    }

    /// Identifies the disk: selects the master drive, issues IDENTIFY, reads
    /// its 256 words and checks them against the trusted profile. A refused
    /// profile touches no port; the kernel must already pin the adapter and
    /// mask its interrupt.
    pub fn identify(io: I, expected: Identity) -> (r: Result<Self, Error>)
        ensures
            !identity_valid(expected) ==> r is Err && r->Err_0 == Error::Bounds,
            r matches Ok(d) ==> {
                &&& d@ == (DeviceView { sectors: expected.sectors, poisoned: false })
                &&& identity_valid(expected)
                &&& d.log().registers == seq![
                    (Register::Head, 0xa0u8),
                    (Register::Count, 0u8),
                    (Register::LbaLow, 0u8),
                    (Register::LbaMid, 0u8),
                    (Register::LbaHigh, 0u8),
                ]
                &&& d.log().commands == seq![Command::Identify]
                &&& d.log().written.len() == 0
                &&& d.log().read.len() == 256
                &&& identify_spec(d.log().read, expected) == Ok::<(), Error>(())
                &&& d.log().failures == 0
            },
    {
        if !expected.valid() {
            return Err(Error::Bounds);
        }
        let mut device = Device { io, sectors: expected.sectors, poisoned: false, log: Ghost(empty_log()) };
        device.wait(false)?;
        if device.set(Register::Head, 0xa0).is_err() {
            return Err(Error::Transport);
        }
        device.delay()?;
        device.wait(false)?;
        if device.set(Register::Count, 0).is_err() || device.set(Register::LbaLow, 0).is_err() || device.set(
            Register::LbaMid,
            0,
        ).is_err() || device.set(Register::LbaHigh, 0).is_err() {
            return Err(Error::Transport);
        }
        if device.issue(Command::Identify).is_err() {
            return Err(Error::Transport);
        }
        device.delay()?;
        device.wait(true)?;
        let ghost before = device.log();
        let mut words = [0u16; 256];
        let mut i: usize = 0;
        while i < 256
            invariant
                i <= 256,
                identity_valid(expected),
                device@ == (DeviceView { sectors: expected.sectors, poisoned: false }),
                device.log() == (PortLog { read: before.read + words@.take(i as int), ..before }),
            decreases 256 - i,
        {
            let w = match device.take_word() {
                Ok(w) => w,
                Err(()) => {
                    return Err(Error::Transport);
                },
            };
            let ghost prev = words@;
            words[i] = w;
            proof {
                assert(words@.take(i as int) =~= prev.take(i as int));
                assert(before.read + words@.take(i + 1) =~= (before.read + prev.take(i as int)).push(w));
            }
            i = i + 1;
        }
        device.delay()?;
        device.wait(false)?;
        identify_matches(&words, &expected)?;
        proof {
            assert(words@.take(256) =~= words@);
            assert(before.read =~= Seq::<u16>::empty());
            assert(device.log().read =~= words@);
            assert(device.log().registers =~= seq![
                (Register::Head, 0xa0u8),
                (Register::Count, 0u8),
                (Register::LbaLow, 0u8),
                (Register::LbaMid, 0u8),
                (Register::LbaHigh, 0u8),
            ]);
            assert(device.log().commands =~= seq![Command::Identify]);
        }
        Ok(device)
    }

    /// A device over an adapter whose disk the caller already identified,
    /// with its sector count; only the geometry is checked.
    pub fn test_device(io: I, sectors: u32) -> (r: Result<Self, Error>)
        ensures
            match r {
                Ok(d) => 0 < sectors < 0x1000_0000 && d@ == (DeviceView { sectors, poisoned: false }) && d.adapter()
                    == io && d.log() == empty_log(),
                Err(e) => !(0 < sectors < 0x1000_0000) && e == Error::Bounds,
            },
    {
        if sectors == 0 || sectors >= 0x1000_0000 {
            return Err(Error::Bounds);
        }
        Ok(Device { io, sectors, poisoned: false, log: Ghost(empty_log()) })
    }

    pub fn poisoned(&self) -> (r: bool)
        ensures
            r == self@.poisoned,
    {
        self.poisoned
    }

    /// Polls status until not busy, without a fault, ready and with the
    /// data-request bit as wanted; yields every sixteen polls, and gives up
    /// after a fixed number of polls.
    fn wait(&mut self, drq: bool) -> (r: Result<(), Error>)
        ensures
            final(self)@ == old(self)@,
            r matches Err(e) ==> port_error(e),
            transfers_same(old(self).log(), final(self).log()),
            extends(old(self).log().statuses, final(self).log().statuses),
            wait_spec(final(self).log().statuses.skip(old(self).log().statuses.len() as int), drq, r),
            r matches Err(e) ==> verdict(final(self).log().statuses, old(self).log().statuses.len() as int, e),
            final(self).log().failures == old(self).log().failures + if r == Err::<(), Error>(Error::Transport) {
                1nat
            } else {
                0nat
            },
    {
        let ghost l0 = self.log();
        let ghost n0 = l0.statuses.len() as int;
        proof {
            assert(l0.statuses.take(n0) =~= l0.statuses);
            assert(l0.statuses.skip(n0) =~= Seq::<u8>::empty());
        }
        let mut poll: usize = 0;
        while poll < POLLS
            invariant
                self@ == old(self)@,
                l0 == old(self).log(),
                n0 == l0.statuses.len(),
                transfers_same(l0, self.log()),
                extends(l0.statuses, self.log().statuses),
                self.log().statuses.len() == n0 + poll,
                all_busy(self.log().statuses.skip(n0), drq),
                self.log().failures == l0.failures,
                poll <= POLLS,
            decreases POLLS - poll,
        {
            let ghost ss = self.log().statuses;
            let s = match self.status() {
                Ok(s) => s,
                Err(()) => {
                    return Err(Error::Transport);
                },
            };
            proof {
                assert(self.log().statuses.take(n0) =~= ss.take(n0));
                assert(self.log().statuses.skip(n0) =~= ss.skip(n0).push(s));
                assert(self.log().statuses.skip(n0).drop_last() =~= ss.skip(n0));
            }
            match status_step(s, drq) {
                Poll::Absent => {
                    return Err(Error::Unavailable);
                },
                Poll::Fault => {
                    return Err(Error::Device);
                },
                Poll::Ready => {
                    return Ok(());
                },
                Poll::Busy => {},
            }
            if poll % 16 == 15 {
                if self.pause().is_err() {
                    return Err(Error::Transport);
                }
            }
            poll = poll + 1;
        }
        Err(Error::Timeout)
    }

    /// Four status reads give the device time to settle after a select or
    /// a command.
    fn delay(&mut self) -> (r: Result<(), Error>)
        ensures
            final(self)@ == old(self)@,
            r matches Err(e) ==> e == Error::Transport || e == Error::Unavailable,
            transfers_same(old(self).log(), final(self).log()),
            extends(old(self).log().statuses, final(self).log().statuses),
            delay_spec(final(self).log().statuses.skip(old(self).log().statuses.len() as int), r),
            r matches Err(e) ==> verdict(final(self).log().statuses, old(self).log().statuses.len() as int, e),
            final(self).log().failures == old(self).log().failures + if r == Err::<(), Error>(Error::Transport) {
                1nat
            } else {
                0nat
            },
    {
        let ghost l0 = self.log();
        let ghost n0 = l0.statuses.len() as int;
        proof {
            assert(l0.statuses.take(n0) =~= l0.statuses);
            assert(l0.statuses.skip(n0) =~= Seq::<u8>::empty());
        }
        let mut i: usize = 0;
        while i < 4
            invariant
                self@ == old(self)@,
                l0 == old(self).log(),
                n0 == l0.statuses.len(),
                transfers_same(l0, self.log()),
                extends(l0.statuses, self.log().statuses),
                self.log().statuses.len() == n0 + i,
                forall|k: int|
                    0 <= k < i ==> !(#[trigger] self.log().statuses.skip(n0)[k] == 0 || self.log().statuses.skip(
                        n0,
                    )[k] == 255),
                self.log().failures == l0.failures,
                i <= 4,
            decreases 4 - i,
        {
            let ghost ss = self.log().statuses;
            let s = match self.status() {
                Ok(s) => s,
                Err(()) => {
                    return Err(Error::Transport);
                },
            };
            proof {
                assert(self.log().statuses.take(n0) =~= ss.take(n0));
                assert(self.log().statuses.skip(n0) =~= ss.skip(n0).push(s));
            }
            if s == 0 || s == 255 {
                return Err(Error::Unavailable);
            }
            i = i + 1;
        }
        Ok(())
    }

    /// Selects the LBA-28 sector `lba` of the master drive, one sector: the
    /// register values of `lba_registers`, in order.
    fn address(&mut self, lba: u32) -> (r: Result<(), Error>)
        ensures
            final(self)@ == old(self)@,
            r matches Err(e) ==> port_error(e),
            extends(old(self).log().statuses, final(self).log().statuses),
            r is Ok ==> final(self).log().registers == old(self).log().registers + lba_registers_spec(lba)
                && final(self).log().commands == old(self).log().commands && final(self).log().written == old(
                self,
            ).log().written && final(self).log().read == old(self).log().read && final(self).log().failures == old(
                self,
            ).log().failures,
            r matches Err(e) ==> final(self).log().commands == old(self).log().commands && cut_short(
                old(self).log(),
                final(self).log(),
                lba_registers_spec(lba),
                Command::Read,
                Seq::empty(),
                0,
                e,
            ),
    {
        let regs = lba_registers(lba);
        let ghost l0 = self.log();
        self.wait(false)?;
        if self.set(regs[0].0, regs[0].1).is_err() {
            return Err(Error::Transport);
        }
        self.delay()?;
        self.wait(false)?;
        if self.set(regs[1].0, regs[1].1).is_err() || self.set(regs[2].0, regs[2].1).is_err() || self.set(
            regs[3].0,
            regs[3].1,
        ).is_err() || self.set(regs[4].0, regs[4].1).is_err() {
            return Err(Error::Transport);
        }
        proof {
            assert(self.log().registers =~= l0.registers + lba_registers_spec(lba));
        }
        Ok(())
    }

    fn read_inner(&mut self, lba: u32) -> (r: Result<[u8; 512], Error>)
        ensures
            final(self)@ == old(self)@,
            r matches Err(e) ==> port_error(e),
            extends(old(self).log().statuses, final(self).log().statuses),
            r matches Ok(b) ==> {
                &&& final(self).log().registers == old(self).log().registers + lba_registers_spec(lba)
                &&& final(self).log().commands == old(self).log().commands.push(Command::Read)
                &&& final(self).log().written == old(self).log().written
                &&& final(self).log().read.len() == old(self).log().read.len() + 256
                &&& extends(old(self).log().read, final(self).log().read)
                &&& b@ == words_le(final(self).log().read.skip(old(self).log().read.len() as int))
                &&& final(self).log().failures == old(self).log().failures
            },
            r matches Err(e) ==> cut_short(
                old(self).log(),
                final(self).log(),
                lba_registers_spec(lba),
                Command::Read,
                Seq::empty(),
                256,
                e,
            ),
    {
        let ghost l0 = self.log();
        self.address(lba)?;
        if self.issue(Command::Read).is_err() {
            return Err(Error::Transport);
        }
        self.delay()?;
        self.wait(true)?;
        let ghost before = self.log();
        let mut words = [0u16; 256];
        let mut i: usize = 0;
        while i < 256
            invariant
                i <= 256,
                self@ == old(self)@,
                self.log() == (PortLog { read: before.read + words@.take(i as int), ..before }),
                extends(old(self).log().statuses, before.statuses),
                before.registers == old(self).log().registers + lba_registers_spec(lba),
                before.commands == old(self).log().commands.push(Command::Read),
                before.written == old(self).log().written,
                before.read == old(self).log().read,
                before.failures == old(self).log().failures,
            decreases 256 - i,
        {
            let w = match self.take_word() {
                Ok(w) => w,
                Err(()) => {
                    return Err(Error::Transport);
                },
            };
            let ghost prev = words@;
            words[i] = w;
            proof {
                assert(words@.take(i as int) =~= prev.take(i as int));
                assert(before.read + words@.take(i + 1) =~= (before.read + prev.take(i as int)).push(w));
            }
            i = i + 1;
        }
        self.delay()?;
        self.wait(false)?;
        let out = sector_bytes(&words);
        proof {
            assert(words@.take(256) =~= words@);
            assert(self.log().read.skip(l0.read.len() as int) =~= words@);
            assert(self.log().read.take(l0.read.len() as int) =~= l0.read);
        }
        Ok(out)
    }

    fn write_inner(&mut self, lba: u32, data: &[u8; 512]) -> (r: Result<(), Error>)
        ensures
            final(self)@ == old(self)@,
            r matches Err(e) ==> port_error(e),
            extends(old(self).log().statuses, final(self).log().statuses),
            r is Ok ==> {
                &&& final(self).log().registers == old(self).log().registers + lba_registers_spec(lba)
                &&& final(self).log().commands == old(self).log().commands.push(Command::Write)
                &&& final(self).log().written == old(self).log().written + words_of(data@)
                &&& final(self).log().read == old(self).log().read
                &&& final(self).log().failures == old(self).log().failures
            },
            r matches Err(e) ==> cut_short(
                old(self).log(),
                final(self).log(),
                lba_registers_spec(lba),
                Command::Write,
                words_of(data@),
                0,
                e,
            ),
    {
        let words = sector_words(data);
        self.address(lba)?;
        if self.issue(Command::Write).is_err() {
            return Err(Error::Transport);
        }
        self.delay()?;
        self.wait(true)?;
        let ghost before = self.log();
        let mut i: usize = 0;
        while i < 256
            invariant
                i <= 256,
                self@ == old(self)@,
                words@ == words_of(data@),
                self.log() == (PortLog { written: before.written + words@.take(i as int), ..before }),
                extends(old(self).log().statuses, before.statuses),
                before.registers == old(self).log().registers + lba_registers_spec(lba),
                before.commands == old(self).log().commands.push(Command::Write),
                before.written == old(self).log().written,
                before.read == old(self).log().read,
                before.failures == old(self).log().failures,
            decreases 256 - i,
        {
            if self.give_word(words[i]).is_err() {
                return Err(Error::Transport);
            }
            proof {
                assert(before.written + words@.take(i + 1) =~= (before.written + words@.take(i as int)).push(
                    words@[i as int],
                ));
            }
            i = i + 1;
        }
        self.delay()?;
        self.wait(false)?;
        proof {
            assert(words@.take(256) =~= words@);
        }
        Ok(())
    }

    fn flush_inner(&mut self) -> (r: Result<(), Error>)
        ensures
            final(self)@ == old(self)@,
            r matches Err(e) ==> port_error(e),
            extends(old(self).log().statuses, final(self).log().statuses),
            r is Ok ==> {
                &&& final(self).log().registers == old(self).log().registers
                &&& final(self).log().commands == old(self).log().commands.push(Command::Flush)
                &&& final(self).log().written == old(self).log().written
                &&& final(self).log().read == old(self).log().read
                &&& final(self).log().failures == old(self).log().failures
            },
            r matches Err(e) ==> cut_short(old(self).log(), final(self).log(), Seq::empty(), Command::Flush, Seq::empty(), 0, e),
    {
        self.wait(false)?;
        if self.issue(Command::Flush).is_err() {
            return Err(Error::Transport);
        }
        self.delay()?;
        self.wait(false)
    }

    /// Reads one sector. A poisoned transport and a sector past the disk are
    /// refused before any port is touched; any failure poisons. The sector
    /// is the 256 data words read, little-endian.
    pub fn read512(&mut self, lba: u32) -> (r: Result<[u8; 512], Error>)
        ensures
            final(self)@.sectors == old(self)@.sectors,
            old(self)@.poisoned ==> r is Err && r->Err_0 == Error::Poisoned && final(self)@ == old(self)@
                && final(self).adapter() == old(self).adapter() && final(self).log() == old(self).log(),
            !old(self)@.poisoned && lba >= old(self)@.sectors ==> r is Err && r->Err_0 == Error::Bounds
                && final(self)@ == old(self)@ && final(self).adapter() == old(self).adapter() && final(self).log()
                == old(self).log(),
            !old(self)@.poisoned && lba < old(self)@.sectors ==> final(self)@.poisoned == r is Err && (r matches Err(
                e,
            ) ==> port_error(e)),
            final(self).log().failures > old(self).log().failures ==> r is Err,
            refusal(old(self)@, Some(lba)) matches Some(e) ==> r == Err::<[u8; 512], Error>(e) && final(self)@ == old(
                self,
            )@ && final(self).adapter() == old(self).adapter() && final(self).log() == old(self).log(),
            refusal(old(self)@, Some(lba)) is None && r is Err ==> final(self)@.poisoned,
            r matches Ok(b) ==> {
                &&& final(self).log().registers == old(self).log().registers + lba_registers_spec(lba)
                &&& final(self).log().commands == old(self).log().commands.push(Command::Read)
                &&& final(self).log().written == old(self).log().written
                &&& final(self).log().read.len() == old(self).log().read.len() + 256
                &&& extends(old(self).log().read, final(self).log().read)
                &&& b@ == words_le(final(self).log().read.skip(old(self).log().read.len() as int))
            },
            !old(self)@.poisoned && lba < old(self)@.sectors && r is Err ==> cut_short(
                old(self).log(),
                final(self).log(),
                lba_registers_spec(lba),
                Command::Read,
                Seq::empty(),
                256,
                r->Err_0,
            ),
    {
        if self.poisoned {
            return Err(Error::Poisoned);
        }
        if lba >= self.sectors {
            return Err(Error::Bounds);
        }
        let r = self.read_inner(lba);
        if r.is_err() {
            self.poisoned = true;
        }
        r
    }

    /// Writes one sector: the register values of `lba_registers`, the Write
    /// command and the sector's data words. Success is completion, not
    /// durability: a flush is required. A failure poisons, so an ambiguous
    /// write is never retried.
    pub fn write512(&mut self, lba: u32, data: &[u8; 512]) -> (r: Result<(), Error>)
        ensures
            final(self)@.sectors == old(self)@.sectors,
            old(self)@.poisoned ==> r == Err::<(), Error>(Error::Poisoned) && final(self)@ == old(self)@
                && final(self).adapter() == old(self).adapter() && final(self).log() == old(self).log(),
            !old(self)@.poisoned && lba >= old(self)@.sectors ==> r == Err::<(), Error>(Error::Bounds) && final(self)@
                == old(self)@ && final(self).adapter() == old(self).adapter() && final(self).log() == old(self).log(),
            !old(self)@.poisoned && lba < old(self)@.sectors ==> final(self)@.poisoned == r is Err && (r matches Err(
                e,
            ) ==> port_error(e)),
            final(self).log().failures > old(self).log().failures ==> r is Err,
            refusal(old(self)@, Some(lba)) matches Some(e) ==> r == Err::<(), Error>(e) && final(self)@ == old(self)@
                && final(self).adapter() == old(self).adapter() && final(self).log() == old(self).log(),
            refusal(old(self)@, Some(lba)) is None && r is Err ==> final(self)@.poisoned,
            r is Ok ==> {
                &&& final(self).log().registers == old(self).log().registers + lba_registers_spec(lba)
                &&& final(self).log().commands == old(self).log().commands.push(Command::Write)
                &&& final(self).log().written == old(self).log().written + words_of(data@)
                &&& final(self).log().read == old(self).log().read
            },
            !old(self)@.poisoned && lba < old(self)@.sectors && r is Err ==> cut_short(
                old(self).log(),
                final(self).log(),
                lba_registers_spec(lba),
                Command::Write,
                words_of(data@),
                0,
                r->Err_0,
            ),
    {
        if self.poisoned {
            return Err(Error::Poisoned);
        }
        if lba >= self.sectors {
            return Err(Error::Bounds);
        }
        let r = self.write_inner(lba, data);
        if r.is_err() {
            self.poisoned = true;
        }
        r
    }

    pub fn flush(&mut self) -> (r: Result<(), Error>)
        ensures
            final(self)@.sectors == old(self)@.sectors,
            old(self)@.poisoned ==> r == Err::<(), Error>(Error::Poisoned) && final(self)@ == old(self)@
                && final(self).adapter() == old(self).adapter() && final(self).log() == old(self).log(),
            !old(self)@.poisoned ==> final(self)@.poisoned == r is Err && (r matches Err(e) ==> port_error(e)),
            final(self).log().failures > old(self).log().failures ==> r is Err,
            refusal(old(self)@, None) matches Some(e) ==> r == Err::<(), Error>(e) && final(self)@ == old(self)@
                && final(self).adapter() == old(self).adapter() && final(self).log() == old(self).log(),
            refusal(old(self)@, None) is None && r is Err ==> final(self)@.poisoned,
            r is Ok ==> {
                &&& final(self).log().registers == old(self).log().registers
                &&& final(self).log().commands == old(self).log().commands.push(Command::Flush)
                &&& final(self).log().written == old(self).log().written
                &&& final(self).log().read == old(self).log().read
            },
            !old(self)@.poisoned && r is Err ==> cut_short(
                old(self).log(),
                final(self).log(),
                Seq::empty(),
                Command::Flush,
                Seq::empty(),
                0,
                r->Err_0,
            ),
    {
        if self.poisoned {
            return Err(Error::Poisoned);
        }
        let r = self.flush_inner();
        if r.is_err() {
            self.poisoned = true;
        }
        r
    }
}

} // verus!
