//! NE2000/DP8390 programmed-I/O driver over an abstract port interface. The
//! driver issues no port instructions itself: only a separately reviewed
//! adapter implements `Io`. No bus-master DMA is requested; every wait is
//! bounded by a poll count and a tick deadline, and any I/O failure stops
//! the device for good.
use vstd::prelude::*;
use crate::network::{MAX_FRAME, MIN_FRAME, mac_valid};

verus! {

/// First page of the receive ring.
pub const START: u8 = 0x46;
/// Page after the receive ring.
pub const STOP: u8 = 0x80;
/// First page of the transmit buffer.
pub const TX: u8 = 0x40;
const POLLS: usize = 512;
const TICK_LIMIT: u64 = 20;

#[derive(Clone, Copy, Debug, PartialEq, Eq, Structural)]
pub enum Error {
    Invalid,
    Io,
    Timeout,
    Identity,
    Corrupt,
    Closed,
}

/// Port access provided by the platform adapter. Every operation may fail.
pub trait Io {
    fn read(&mut self, register: u8) -> Result<u8, ()>;

    fn write(&mut self, register: u8, value: u8) -> Result<(), ()>;

    fn read_word(&mut self) -> Result<u16, ()>;

    fn write_word(&mut self, value: u16) -> Result<(), ()>;

    fn reset(&mut self) -> Result<(), ()>;

    fn ticks(&mut self) -> Result<u64, ()>;

    fn yield_cpu(&mut self) -> Result<(), ()>;
}

/// A device: its port interface, the next receive-ring page to read and
/// whether it has been stopped.
pub struct Device<I: Io> {
    pub io: I,
    pub next: u8,
    pub closed: bool,
    pub log: Ghost<NicLog>,
}

/// What the driver has exchanged with the card, in order: register writes
/// and register reads outside status polling (register, value), status
/// bytes polled, and data words written to and read from card memory.
pub struct NicLog {
    pub writes: Seq<(u8, u8)>,
    pub reads: Seq<(u8, u8)>,
    pub statuses: Seq<u8>,
    pub words_out: Seq<u16>,
    pub words_in: Seq<u16>,
}

/// `b` continues `a`.
pub open spec fn grows<T>(a: Seq<T>, b: Seq<T>) -> bool {
    b.len() >= a.len() && forall|i: int| 0 <= i < a.len() ==> #[trigger] b[i] == a[i]
}

/// No register or data transfer between two logs; only status polls.
pub open spec fn polls_only(a: NicLog, b: NicLog) -> bool {
    a.writes == b.writes && a.reads == b.reads && a.words_out == b.words_out && a.words_in == b.words_in && grows(
        a.statuses,
        b.statuses,
    )
}

pub open spec fn empty_nic_log() -> NicLog {
    NicLog {
        writes: Seq::empty(),
        reads: Seq::empty(),
        statuses: Seq::empty(),
        words_out: Seq::empty(),
        words_in: Seq::empty(),
    }
}

/// The register writes that program a remote transfer of `length` bytes at
/// `address`, to the card when `write`.
pub open spec fn remote_writes(address: u16, length: int, write: bool) -> Seq<(u8, u8)> {
    seq![
        (0u8, 0x22u8),
        (7u8, 0x40u8),
        (8u8, (address % 256) as u8),
        (9u8, (address / 256) as u8),
        (10u8, (length % 256) as u8),
        (11u8, (length / 256) as u8),
        (0u8, if write { 0x12u8 } else { 0x0au8 }),
    ]
}

/// The little-endian data words of a frame, its odd last byte padded with a
/// zero.
pub open spec fn frame_words(f: Seq<u8>) -> Seq<u16> {
    Seq::new(
        (rounded(f.len() as int) / 2) as nat,
        |i: int| (f[2 * i] + 256 * (if 2 * i + 1 < f.len() { f[2 * i + 1] as int } else { 0 })) as u16,
    )
}

/// Bytes of data words read from card memory, little-endian.
pub open spec fn word_bytes(ws: Seq<u16>) -> Seq<u8> {
    Seq::new(2 * ws.len(), |i: int| if i % 2 == 0 { (ws[i / 2] % 256) as u8 } else { (ws[i / 2] / 256) as u8 })
}

/// The register writes that start a transmit of `n` bytes once the frame
/// is in card memory, and acknowledge it afterwards.
pub open spec fn transmit_tail(n: int) -> Seq<(u8, u8)> {
    seq![(7u8, 0x4au8), (4u8, TX), (5u8, (n % 256) as u8), (6u8, (n / 256) as u8), (0u8, 0x26u8), (7u8, 0x0au8)]
}

/// What a completed transmit of `frame` exchanges with the card: one read
/// of the command register showing no transmit in progress, the remote
/// write of the frame's padded words, then the transmit start and its
/// acknowledgement.
pub open spec fn transmit_log(a: NicLog, b: NicLog, frame: Seq<u8>) -> bool {
    let n = frame.len() as int;
    &&& b.reads.len() == a.reads.len() + 1
    &&& grows(a.reads, b.reads)
    &&& b.reads.last().0 == 0 && b.reads.last().1 & 4 == 0
    &&& b.words_out == a.words_out + frame_words(frame)
    &&& b.writes == a.writes + remote_writes(0x4000, rounded(n), true) + transmit_tail(n)
    &&& b.words_in == a.words_in
}

/// What a receive exchanged with the card before taking a frame: the
/// interrupt status without ring overflow, then the card's current page,
/// inside the ring.
pub open spec fn ring_polled(a: NicLog, b: NicLog, current: u8) -> bool {
    let r = b.reads.skip(a.reads.len() as int);
    &&& grows(a.reads, b.reads)
    &&& r.len() == 2
    &&& r[0].0 == 7 && r[0].1 & 0x10 == 0
    &&& r[1] == (7u8, current)
    &&& START <= current < STOP
    &&& b.words_out == a.words_out
}

/// The station-address reads that confirm `mac` was programmed: registers
/// one to six on page 1, in order.
pub open spec fn mac_reads(mac: Seq<u8>) -> Seq<(u8, u8)> {
    Seq::new(6, |i: int| ((1 + i) as u8, mac[i]))
}

/// PROM words that carry `mac`, each address byte doubled.
pub open spec fn prom_matches(ws: Seq<u16>, mac: Seq<u8>) -> bool {
    &&& ws.len() == 6
    &&& forall|i: int| 0 <= i < 6 ==> #[trigger] word_bytes(ws)[2 * i] == mac[i] && word_bytes(ws)[2 * i + 1] == mac[i]
}

/// The ring header's verdict for the frame at page `next`: a received
/// frame without errors whose count (CRC included) lies in the frame bounds
/// and whose next-page pointer is exactly where the frame ends in the ring;
/// the frame's length without CRC and the following page.
pub open spec fn header_spec(h: Seq<u8>, next: u8) -> Result<(usize, u8), Error> {
    let count = h[2] + h[3] * 256;
    let pages = (count + 4 + 255) / 256;
    let expected = (START + (next - START + pages) % (STOP - START)) as u8;
    if h[0] % 32 != 1 || count < MIN_FRAME + 4 || count > MAX_FRAME + 4 {
        Err(Error::Corrupt)
    } else if h[1] != expected || h[1] == next {
        Err(Error::Corrupt)
    } else {
        Ok(((count - 4) as usize, expected))
    }
}

pub fn check_header(h: &[u8; 4], next: u8) -> (r: Result<(usize, u8), Error>)
    requires
        ring_ok(next),
    ensures
        r == header_spec(h@, next),
{
    let count = h[2] as usize + h[3] as usize * 256;
    if h[0] % 32 != 1 || count < MIN_FRAME + 4 || count > MAX_FRAME + 4 {
        return Err(Error::Corrupt);
    }
    let pages = (count + 4 + 255) / 256;
    let expected = START + (((next - START) as usize + pages) % ((STOP - START) as usize)) as u8;
    if h[1] != expected || h[1] == next {
        return Err(Error::Corrupt);
    }
    Ok((count - 4, expected))
}

/// The next page lies inside the receive ring.
pub open spec fn ring_ok(next: u8) -> bool {
    START <= next < STOP
}

/// Even length of a remote transfer covering `n` bytes.
pub open spec fn rounded(n: int) -> int {
    (n + 1) / 2 * 2
}

impl<I: Io> Device<I> {
    /// Everything exchanged with the card since the device was made.
    pub open spec fn log(&self) -> NicLog {
        self.log@
    }

    /// Resets and configures the controller, proving its identity by the
    /// station address in its PROM; interrupts stay masked. Any failure
    /// attempts a stop and yields no device.
    pub fn initialize(io: I, mac: [u8; 6]) -> (r: Result<Self, Error>)
        ensures
            !mac_valid(mac@) ==> r == Err::<Self, Error>(Error::Invalid),
            mac_valid(mac@) ==> r != Err::<Self, Error>(Error::Invalid),
            r matches Ok(d) ==> !d.closed && d.next == START + 1,
            r matches Ok(d) ==> d.log().reads == mac_reads(mac@) && prom_matches(d.log().words_in, mac@)
                && d.log().words_out.len() == 0,
    {
        let mut nonzero = false;
        let mut i: usize = 0;
        while i < 6
            invariant
                i <= 6,
                nonzero == (exists|k: int| 0 <= k < i && mac@[k] != 0),
            decreases 6 - i,
        {
            if mac[i] != 0 {
                nonzero = true;
            }
            i = i + 1;
        }
        if !nonzero || mac[0] % 2 != 0 {
            return Err(Error::Invalid);
        }
        let mut d = Device { io, next: START + 1, closed: false, log: Ghost(empty_nic_log()) };
        match d.setup(mac) {
            Err(e) => {
                d.close();
                Err(e)
            },
            Ok(()) => {
                proof {
                    assert(d.log().reads =~= mac_reads(mac@));
                    assert(d.log().words_in.skip(0) =~= d.log().words_in);
                }
                Ok(d)
            },
        }
    }

    fn r(&mut self, register: u8) -> (r: Result<u8, Error>)
        ensures
            final(self).next == old(self).next && final(self).closed == old(self).closed,
            r is Err ==> r == Err::<u8, Error>(Error::Io),
            final(self).log() == (NicLog {
                reads: match r {
                    Ok(v) => old(self).log().reads.push((register, v)),
                    Err(_) => old(self).log().reads,
                },
                ..old(self).log()
            }),
    {
        match self.io.read(register) {
            Ok(v) => {
                proof {
                    self.log@.reads = self.log@.reads.push((register, v));
                }
                Ok(v)
            },
            Err(()) => Err(Error::Io),
        }
    }

    fn status(&mut self) -> (r: Result<u8, Error>)
        ensures
            final(self).next == old(self).next && final(self).closed == old(self).closed,
            r is Err ==> r == Err::<u8, Error>(Error::Io),
            final(self).log() == (NicLog {
                statuses: match r {
                    Ok(v) => old(self).log().statuses.push(v),
                    Err(_) => old(self).log().statuses,
                },
                ..old(self).log()
            }),
    {
        match self.io.read(7) {
            Ok(v) => {
                proof {
                    self.log@.statuses = self.log@.statuses.push(v);
                }
                Ok(v)
            },
            Err(()) => Err(Error::Io),
        }
    }

    fn take_word(&mut self) -> (r: Result<u16, ()>)
        ensures
            final(self).next == old(self).next && final(self).closed == old(self).closed,
            final(self).log() == (NicLog {
                words_in: match r {
                    Ok(v) => old(self).log().words_in.push(v),
                    Err(_) => old(self).log().words_in,
                },
                ..old(self).log()
            }),
    {
        let r = self.io.read_word();
        proof {
            if let Ok(v) = r {
                self.log@.words_in = self.log@.words_in.push(v);
            }
        }
        r
    }

    fn give_word(&mut self, word: u16) -> (r: Result<(), ()>)
        ensures
            final(self).next == old(self).next && final(self).closed == old(self).closed,
            final(self).log() == (NicLog { words_out: old(self).log().words_out.push(word), ..old(self).log() }),
    {
        let r = self.io.write_word(word);
        proof {
            self.log@.words_out = self.log@.words_out.push(word);
        }
        r
    }

    fn w(&mut self, register: u8, value: u8) -> (r: Result<(), Error>)
        ensures
            final(self).next == old(self).next && final(self).closed == old(self).closed,
            r is Err ==> r == Err::<(), Error>(Error::Io),
            final(self).log() == (NicLog { writes: old(self).log().writes.push((register, value)), ..old(self).log() }),
    {
        proof {
            self.log@.writes = self.log@.writes.push((register, value));
        }
        match self.io.write(register, value) {
            Ok(()) => Ok(()),
            Err(()) => Err(Error::Io),
        }
    }

    fn setup(&mut self, mac: [u8; 6]) -> (r: Result<(), Error>)
        ensures
            final(self).next == old(self).next && final(self).closed == old(self).closed,
            r matches Err(e) ==> e == Error::Io || e == Error::Timeout || e == Error::Identity,
            r is Ok ==> {
                &&& final(self).log().reads == old(self).log().reads + mac_reads(mac@)
                &&& prom_matches(final(self).log().words_in.skip(old(self).log().words_in.len() as int), mac@)
                &&& grows(old(self).log().words_in, final(self).log().words_in)
                &&& final(self).log().words_out == old(self).log().words_out
            },
    {
        let ghost l0 = self.log();
        match self.io.reset() {
            Ok(()) => {},
            Err(()) => return Err(Error::Io),
        }
        // A reset need not select page 0, and the status register is paged.
        self.w(0, 0x21)?;
        self.wait(0x80, 0)?;
        // Stopped, little-endian word transfers, no interrupts, loopback
        // while configuring.
        self.w(0, 0x21)?;
        self.w(14, 0x49)?;
        self.w(10, 0)?;
        self.w(11, 0)?;
        self.w(15, 0)?;
        self.w(12, 0x20)?;
        self.w(13, 2)?;
        self.w(4, TX)?;
        self.w(1, START)?;
        self.w(2, STOP)?;
        self.w(3, START)?;
        let mut prom = [0u8; 12];
        self.read_linear(0, &mut prom, 0, 12, true)?;
        let ghost lp = self.log();
        let ghost ws = lp.words_in.skip(l0.words_in.len() as int);
        proof {
            assert(lp.reads == l0.reads && lp.words_out == l0.words_out);
            assert forall|k: int| 0 <= k < 12 implies #[trigger] prom@[k] == word_bytes(ws)[k] by {
                assert(prom@[0 + k] == word_bytes(ws)[k]);
            }
        }
        let mut i: usize = 0;
        while i < 6
            invariant
                i <= 6,
                self.next == old(self).next && self.closed == old(self).closed,
                ws.len() == 6,
                forall|k: int| 0 <= k < 12 ==> #[trigger] prom@[k] == word_bytes(ws)[k],
                forall|k: int| 0 <= k < i ==> #[trigger] word_bytes(ws)[2 * k] == mac@[k] && word_bytes(ws)[2 * k + 1]
                    == mac@[k],
            decreases 6 - i,
        {
            if prom[2 * i] != mac[i] || prom[2 * i + 1] != mac[i] {
                return Err(Error::Identity);
            }
            proof {
                assert(prom@[2 * i as int] == word_bytes(ws)[2 * i as int]);
                assert(prom@[2 * i + 1] == word_bytes(ws)[2 * i + 1]);
                assert forall|k: int| 0 <= k < i + 1 implies #[trigger] word_bytes(ws)[2 * k] == mac@[k] && word_bytes(
                    ws,
                )[2 * k + 1] == mac@[k] by {
                    if k == i {
                        assert(word_bytes(ws)[2 * i as int] == mac@[i as int]);
                    }
                }
            }
            i = i + 1;
        }
        // Page 1 while stopped: station address, current page and an empty
        // multicast filter, then read the address back.
        self.w(0, 0x61)?;
        let mut i: usize = 0;
        while i < 6
            invariant
                i <= 6,
                self.next == old(self).next && self.closed == old(self).closed,
                self.log().reads == lp.reads && self.log().words_in == lp.words_in && self.log().words_out
                    == lp.words_out,
            decreases 6 - i,
        {
            self.w(1 + i as u8, mac[i])?;
            i = i + 1;
        }
        let next = self.next;
        self.w(7, next)?;
        let mut reg: u8 = 8;
        while reg < 16
            invariant
                8 <= reg <= 16,
                self.next == old(self).next && self.closed == old(self).closed,
                self.log().reads == lp.reads && self.log().words_in == lp.words_in && self.log().words_out
                    == lp.words_out,
            decreases 16 - reg,
        {
            self.w(reg, 0)?;
            reg = reg + 1;
        }
        let mut i: usize = 0;
        while i < 6
            invariant
                i <= 6,
                self.next == old(self).next && self.closed == old(self).closed,
                self.log().reads == lp.reads + mac_reads(mac@).take(i as int),
                self.log().words_in == lp.words_in && self.log().words_out == lp.words_out,
            decreases 6 - i,
        {
            let v = self.r(1 + i as u8)?;
            if v != mac[i] {
                return Err(Error::Identity);
            }
            proof {
                assert(lp.reads + mac_reads(mac@).take(i + 1) =~= (lp.reads + mac_reads(mac@).take(i as int)).push(
                    ((1 + i) as u8, v),
                ));
            }
            i = i + 1;
        }
        proof {
            assert(mac_reads(mac@).take(6) =~= mac_reads(mac@));
        }
        self.w(0, 0x21)?;
        self.w(7, 0xff)?;
        self.w(0, 0x22)?;
        self.w(13, 0)?;
        self.w(12, 0)?;
        Ok(())
    }

    /// Polls the status register until a success bit, a failure bit, a
    /// stalled or regressing clock, the tick deadline or the poll budget.
    fn wait(&mut self, success: u8, failure: u8) -> (r: Result<(), Error>)
        ensures
            final(self).next == old(self).next && final(self).closed == old(self).closed,
            r matches Err(e) ==> e == Error::Io || e == Error::Timeout,
            polls_only(old(self).log(), final(self).log()),
    {
        let start = match self.io.ticks() {
            Ok(t) => t,
            Err(()) => return Err(Error::Io),
        };
        if start > u64::MAX - TICK_LIMIT {
            return Err(Error::Timeout);
        }
        let end = start + TICK_LIMIT;
        let mut last = start;
        let mut polls: usize = 0;
        while polls < POLLS
            invariant
                polls <= POLLS,
                self.next == old(self).next && self.closed == old(self).closed,
                polls_only(old(self).log(), self.log()),
            decreases POLLS - polls,
        {
            let now = match self.io.ticks() {
                Ok(t) => t,
                Err(()) => return Err(Error::Io),
            };
            if now < last || now >= end {
                return Err(Error::Timeout);
            }
            last = now;
            let status = self.status()?;
            if status & failure != 0 {
                return Err(Error::Io);
            }
            if status & success != 0 {
                return Ok(());
            }
            match self.io.yield_cpu() {
                Ok(()) => {},
                Err(()) => return Err(Error::Io),
            }
            polls = polls + 1;
        }
        Err(Error::Timeout)
    }

    /// Programs a remote DMA transfer of an even, bounded, nonzero length.
    fn begin_remote(&mut self, address: u16, length: usize, write: bool) -> (r: Result<(), Error>)
        ensures
            final(self).next == old(self).next && final(self).closed == old(self).closed,
            (r == Err::<(), Error>(Error::Invalid)) == (length == 0 || length > MAX_FRAME + 1 || length % 2 != 0),
            r matches Err(e) ==> e == Error::Invalid || e == Error::Io,
            r is Ok ==> final(self).log() == (NicLog {
                writes: old(self).log().writes + remote_writes(address, length as int, write),
                ..old(self).log()
            }),
    {
        if length == 0 || length > MAX_FRAME + 1 || length % 2 != 0 {
            return Err(Error::Invalid);
        }
        self.w(0, 0x22)?;
        self.w(7, 0x40)?;
        self.w(8, (address % 256) as u8)?;
        self.w(9, (address / 256) as u8)?;
        self.w(10, (length % 256) as u8)?;
        self.w(11, (length / 256) as u8)?;
        let r = self.w(0, if write { 0x12 } else { 0x0a });
        proof {
            assert(self.log().writes =~= old(self).log().writes + remote_writes(address, length as int, write));
        }
        r
    }

    /// Reads `len` bytes of controller memory at `address` into
    /// `out[start..start + len]`, in whole words; other bytes of `out` are
    /// untouched.
    fn read_linear(&mut self, address: u16, out: &mut [u8], start: usize, len: usize, prom: bool) -> (r: Result<(), Error>)
        requires
            start + len <= old(out)@.len(),
            start <= MAX_FRAME,
        ensures
            final(self).next == old(self).next && final(self).closed == old(self).closed,
            final(out)@.len() == old(out)@.len(),
            forall|k: int| 0 <= k < start || start + len <= k < old(out)@.len() ==> #[trigger] final(out)@[k] == old(out)@[k],
            (r == Err::<(), Error>(Error::Invalid)) == (len == 0 || len > MAX_FRAME || if prom {
                address != 0 || len != 12
            } else {
                address < 0x4600 || address + rounded(len as int) > 0x8000
            }),
            r matches Err(e) ==> e == Error::Invalid || e == Error::Io || e == Error::Timeout,
            r == Err::<(), Error>(Error::Invalid) ==> final(out)@ == old(out)@,
            r is Ok ==> {
                let ws = final(self).log().words_in.skip(old(self).log().words_in.len() as int);
                &&& final(self).log().writes == old(self).log().writes + remote_writes(
                    address,
                    rounded(len as int),
                    false,
                ) + seq![(7u8, 0x40u8), (0u8, 0x22u8)]
                &&& final(self).log().reads == old(self).log().reads
                &&& final(self).log().words_out == old(self).log().words_out
                &&& grows(old(self).log().words_in, final(self).log().words_in)
                &&& grows(old(self).log().statuses, final(self).log().statuses)
                &&& ws.len() == rounded(len as int) / 2
                &&& forall|k: int| 0 <= k < len ==> #[trigger] final(out)@[start + k] == word_bytes(ws)[k]
            },
    {
        if len == 0 || len > MAX_FRAME {
            return Err(Error::Invalid);
        }
        let even = (len + 1) / 2 * 2;
        let end = address as usize + even;
        if if prom { address != 0 || len != 12 } else { address < 0x4600 || end > 0x8000 } {
            return Err(Error::Invalid);
        }
        self.begin_remote(address, even, false)?;
        let ghost before = self.log();
        let ghost mut ws: Seq<u16> = Seq::empty();
        let mut i: usize = 0;
        while i < len
            invariant
                i <= len + 1,
                i % 2 == 0,
                0 < len <= MAX_FRAME,
                start <= MAX_FRAME,
                !(if prom { address != 0 || len != 12 } else { address < 0x4600 || address + rounded(len as int) > 0x8000 }),
                start + len <= out@.len(),
                out@.len() == old(out)@.len(),
                forall|k: int| 0 <= k < start || start + len <= k < out@.len() ==> #[trigger] out@[k] == old(out)@[k],
                self.next == old(self).next && self.closed == old(self).closed,
                self.log() == (NicLog { words_in: before.words_in + ws, ..before }),
                before.writes == old(self).log().writes + remote_writes(address, even as int, false),
                before.reads == old(self).log().reads && before.words_out == old(self).log().words_out,
                before.words_in == old(self).log().words_in && before.statuses == old(self).log().statuses,
                even == rounded(len as int),
                ws.len() == i / 2,
                forall|k: int| 0 <= k < i && k < len ==> #[trigger] out@[start + k] == word_bytes(ws)[k],
            decreases len + 1 - i,
        {
            let word = match self.take_word() {
                Ok(w) => w,
                Err(()) => return Err(Error::Io),
            };
            out[start + i] = (word % 256) as u8;
            if i + 1 < len {
                out[start + i + 1] = (word / 256) as u8;
            }
            proof {
                let ws0 = ws;
                ws = ws.push(word);
                assert(before.words_in + ws =~= (before.words_in + ws0).push(word));
                assert forall|k: int| 0 <= k < i + 2 && k < len implies #[trigger] out@[start + k] == word_bytes(ws)[k] by {
                    if k < i {
                        assert(word_bytes(ws)[k] == word_bytes(ws0)[k]);
                    }
                }
            }
            i = i + 2;
        }
        self.wait(0x40, 0)?;
        self.w(7, 0x40)?;
        let r = self.w(0, 0x22);
        proof {
            assert(self.log().words_in.skip(old(self).log().words_in.len() as int) =~= ws);
            assert(self.log().writes =~= old(self).log().writes + remote_writes(address, rounded(len as int), false)
                + seq![(7u8, 0x40u8), (0u8, 0x22u8)]);
        }
        r
    }

    /// Reads `len` bytes of the receive ring starting at `address`, wrapping
    /// at the ring's end, into `out[0..len]`. A read that wraps from an odd
    /// distance before the ring's end is refused, as its first part would
    /// run past the end in whole words.
    fn read_ring(&mut self, address: u16, out: &mut [u8], len: usize) -> (r: Result<(), Error>)
        requires
            len <= old(out)@.len(),
        ensures
            final(self).next == old(self).next && final(self).closed == old(self).closed,
            final(out)@.len() == old(out)@.len(),
            forall|k: int| len <= k < old(out)@.len() ==> #[trigger] final(out)@[k] == old(out)@[k],
            (r == Err::<(), Error>(Error::Invalid)) == (!(0x4600 <= address < 0x8000) || len == 0 || len > MAX_FRAME
                || (len >= 0x8000 - address && (0x8000 - address) % 2 == 1)),
            r == Err::<(), Error>(Error::Invalid) ==> final(out)@ == old(out)@,
            r matches Err(e) ==> e == Error::Invalid || e == Error::Io || e == Error::Timeout,
            r is Ok ==> {
                let ws = final(self).log().words_in.skip(old(self).log().words_in.len() as int);
                &&& final(self).log().reads == old(self).log().reads
                &&& final(self).log().words_out == old(self).log().words_out
                &&& grows(old(self).log().words_in, final(self).log().words_in)
                &&& ws.len() == rounded(len as int) / 2
                &&& forall|k: int| 0 <= k < len ==> #[trigger] final(out)@[k] == word_bytes(ws)[k]
            },
    {
        if !(0x4600 <= address && address < 0x8000) || len == 0 || len > MAX_FRAME {
            return Err(Error::Invalid);
        }
        let room = 0x8000 - address as usize;
        let first = if len < room { len } else { room };
        let ghost l0 = self.log();
        self.read_linear(address, out, 0, first, false)?;
        let ghost l1 = self.log();
        let ghost o1 = out@;
        let ghost ws1 = l1.words_in.skip(l0.words_in.len() as int);
        proof {
            assert forall|k: int| 0 <= k < first implies #[trigger] o1[k] == word_bytes(ws1)[k] by {
                assert(o1[0 + k] == word_bytes(ws1)[k]);
            }
        }
        if first < len {
            self.read_linear(0x4600, out, first, len - first, false)?;
            proof {
                let l2 = self.log();
                let ws2 = l2.words_in.skip(l1.words_in.len() as int);
                assert(first % 2 == 0);
                assert(l2.words_in.skip(l0.words_in.len() as int) =~= ws1 + ws2);
                assert(ws1.len() * 2 == first);
                assert((ws1 + ws2).len() == rounded(len as int) / 2);
                assert forall|k: int| 0 <= k < len implies #[trigger] out@[k] == word_bytes(ws1 + ws2)[k] by {
                    if k < first {
                        assert(out@[k] == o1[k]);
                        assert((ws1 + ws2)[k / 2] == ws1[k / 2]);
                    } else {
                        assert(out@[first + (k - first)] == word_bytes(ws2)[k - first]);
                        assert((ws1 + ws2)[k / 2] == ws2[(k - first) / 2]);
                        assert(k % 2 == (k - first) % 2);
                    }
                }
            }
        }
        Ok(())
    }

    /// Stops the controller once; later calls do nothing.
    pub fn close(&mut self)
        ensures
            final(self).closed,
            final(self).next == old(self).next,
            old(self).closed ==> *final(self) == *old(self),
    {
        if !self.closed {
            self.closed = true;
            let _ = self.w(0, 0x21);
        }
    }

    /// Sends one frame of 60 to 554 bytes. A closed device or a refused
    /// length touches no port; any failure after that stops the device.
    pub fn transmit(&mut self, frame: &[u8]) -> (r: Result<(), Error>)
        ensures
            final(self).next == old(self).next,
            old(self).closed ==> r == Err::<(), Error>(Error::Closed) && *final(self) == *old(self),
            !old(self).closed && !(MIN_FRAME <= frame@.len() <= MAX_FRAME) ==> r == Err::<(), Error>(Error::Invalid)
                && *final(self) == *old(self),
            r is Err ==> final(self).closed || *final(self) == *old(self),
            r is Ok ==> !final(self).closed && transmit_log(old(self).log(), final(self).log(), frame@),
    {
        if self.closed {
            return Err(Error::Closed);
        }
        if frame.len() < MIN_FRAME || frame.len() > MAX_FRAME {
            return Err(Error::Invalid);
        }
        let result = self.transmit_inner(frame);
        if result.is_err() {
            self.close();
        }
        result
    }

    fn transmit_inner(&mut self, frame: &[u8]) -> (r: Result<(), Error>)
        requires
            MIN_FRAME <= frame@.len() <= MAX_FRAME,
        ensures
            final(self).next == old(self).next && final(self).closed == old(self).closed,
            r matches Err(e) ==> e == Error::Io || e == Error::Timeout,
            r is Ok ==> transmit_log(old(self).log(), final(self).log(), frame@),
    {
        let command = self.r(0)?;
        if command & 4 != 0 {
            return Err(Error::Io);
        }
        let ghost l1 = self.log();
        let n = frame.len();
        self.begin_remote(0x4000, (n + 1) / 2 * 2, true)?;
        let ghost before = self.log();
        let mut i: usize = 0;
        while i < n
            invariant
                i <= n + 1,
                i % 2 == 0,
                n == frame@.len(),
                MIN_FRAME <= n <= MAX_FRAME,
                self.next == old(self).next && self.closed == old(self).closed,
                self.log() == (NicLog { words_out: before.words_out + frame_words(frame@).take(i as int / 2), ..before }),
            decreases n + 1 - i,
        {
            let hi: u16 = if i + 1 < n { frame[i + 1] as u16 } else { 0 };
            let word = frame[i] as u16 + hi * 256;
            proof {
                assert(word == frame_words(frame@)[i as int / 2]);
            }
            match self.give_word(word) {
                Ok(()) => {},
                Err(()) => return Err(Error::Io),
            }
            proof {
                assert(before.words_out + frame_words(frame@).take(i as int / 2 + 1) =~= (before.words_out
                    + frame_words(frame@).take(i as int / 2)).push(word));
            }
            i = i + 2;
        }
        proof {
            assert(frame_words(frame@).take(i as int / 2) =~= frame_words(frame@));
        }
        self.wait(0x40, 0)?;
        self.w(7, 0x4a)?;
        self.w(4, TX)?;
        self.w(5, (n % 256) as u8)?;
        self.w(6, (n / 256) as u8)?;
        self.w(0, 0x26)?;
        self.wait(2, 8)?;
        self.w(7, 0x0a)?;
        proof {
            assert(self.log().writes =~= old(self).log().writes + remote_writes(0x4000, rounded(n as int), true)
                + transmit_tail(n as int));
            assert(self.log().reads =~= l1.reads);
        }
        Ok(())
    }

    /// Takes the next received frame, without its CRC, into `out` and
    /// zeroes the rest of `out`; `None` when the ring is empty. The frame is
    /// the ring bytes after its four-byte header, which must pass
    /// `check_header`. Any failure
    /// or inconsistent ring state zeroes `out` and stops the device instead
    /// of following a pointer it cannot trust.
    pub fn receive(&mut self, out: &mut [u8; 554]) -> (r: Result<Option<usize>, Error>)
        requires
            ring_ok(old(self).next),
        ensures
            ring_ok(final(self).next),
            old(self).closed ==> r == Err::<Option<usize>, Error>(Error::Closed) && *final(self) == *old(self)
                && final(out)@ == old(out)@,
            !old(self).closed && r is Err ==> final(self).closed && final(out)@ == Seq::new(554, |i: int| 0u8),
            r == Ok::<Option<usize>, Error>(None) ==> final(self).next == old(self).next && !final(self).closed,
            r matches Ok(Some(n)) ==> MIN_FRAME <= n <= MAX_FRAME && !final(self).closed && forall|k: int|
                n <= k < 554 ==> #[trigger] final(out)@[k] == 0,
            r == Ok::<Option<usize>, Error>(None) ==> ring_polled(old(self).log(), final(self).log(), old(self).next),
            r matches Ok(Some(n)) ==> {
                let w = final(self).log().words_in.skip(old(self).log().words_in.len() as int);
                &&& exists|c: u8| c != old(self).next && ring_polled(old(self).log(), final(self).log(), c)
                &&& grows(old(self).log().words_in, final(self).log().words_in)
                &&& w.len() >= 2
                &&& header_spec(word_bytes(w.take(2)).take(4), old(self).next) == Ok::<(usize, u8), Error>(
                    (n, final(self).next),
                )
                &&& forall|k: int| 0 <= k < n ==> #[trigger] final(out)@[k] == word_bytes(w.skip(2))[k]
            },
    {
        if self.closed {
            return Err(Error::Closed);
        }
        let result = self.receive_inner(out);
        if result.is_err() {
            let mut i: usize = 0;
            while i < MAX_FRAME
                invariant
                    i <= MAX_FRAME,
                    forall|k: int| 0 <= k < i ==> out@[k] == 0,
                decreases MAX_FRAME - i,
            {
                out[i] = 0;
                i = i + 1;
            }
            proof {
                assert(out@ =~= Seq::new(554, |i: int| 0u8));
            }
            self.close();
        }
        result
    }

    fn receive_inner(&mut self, out: &mut [u8; 554]) -> (r: Result<Option<usize>, Error>)
        requires
            ring_ok(old(self).next),
        ensures
            ring_ok(final(self).next),
            final(self).closed == old(self).closed,
            r == Ok::<Option<usize>, Error>(None) ==> final(self).next == old(self).next,
            r matches Ok(Some(n)) ==> MIN_FRAME <= n <= MAX_FRAME && forall|k: int|
                n <= k < 554 ==> #[trigger] final(out)@[k] == 0,
            r matches Ok(Some(n)) ==> final(self).next == START + (old(self).next - START + (n + 8 + 255) / 256) % (
            STOP - START),
            r matches Err(e) ==> e == Error::Io || e == Error::Timeout || e == Error::Corrupt,
            r == Ok::<Option<usize>, Error>(None) ==> ring_polled(old(self).log(), final(self).log(), old(self).next),
            r matches Ok(Some(n)) ==> {
                let w = final(self).log().words_in.skip(old(self).log().words_in.len() as int);
                &&& exists|c: u8| c != old(self).next && ring_polled(old(self).log(), final(self).log(), c)
                &&& grows(old(self).log().words_in, final(self).log().words_in)
                &&& w.len() >= 2
                &&& header_spec(word_bytes(w.take(2)).take(4), old(self).next) == Ok::<(usize, u8), Error>(
                    (n, final(self).next),
                )
                &&& forall|k: int| 0 <= k < n ==> #[trigger] final(out)@[k] == word_bytes(w.skip(2))[k]
            },
    {
        let ghost l0 = self.log();
        self.w(0, 0x22)?;
        // An overflowed ring is never guessed at.
        let status = self.r(7)?;
        if status & 0x10 != 0 {
            return Err(Error::Corrupt);
        }
        self.w(0, 0x62)?;
        let current = self.r(7)?;
        self.w(0, 0x22)?;
        if !(START <= current && current < STOP) {
            return Err(Error::Corrupt);
        }
        proof {
            assert(self.log().reads.skip(l0.reads.len() as int) =~= seq![(7u8, status), (7u8, current)]);
        }
        if current == self.next {
            return Ok(None);
        }
        let ghost l1 = self.log();
        let mut header = [0u8; 4];
        let page = self.next as u16 * 256;
        self.read_ring(page, &mut header, 4)?;
        let ghost l2 = self.log();
        let ghost wh = l2.words_in.skip(l1.words_in.len() as int);
        proof {
            assert(header@ =~= word_bytes(wh).take(4));
        }
        // The count includes the Ethernet CRC but not the ring header.
        let (length, expected) = check_header(&header, self.next)?;
        self.read_ring(page + 4, out, length)?;
        let ghost l3 = self.log();
        let ghost wp = l3.words_in.skip(l2.words_in.len() as int);
        proof {
            let w = l3.words_in.skip(l0.words_in.len() as int);
            assert(l1.words_in == l0.words_in);
            assert(w =~= wh + wp);
            assert(w.take(2) =~= wh);
            assert(w.skip(2) =~= wp);
            assert(l3.reads =~= l1.reads);
        }
        let mut i: usize = length;
        while i < MAX_FRAME
            invariant
                length <= i <= MAX_FRAME,
                forall|k: int| length <= k < i ==> out@[k] == 0,
                forall|k: int| 0 <= k < length ==> #[trigger] out@[k] == word_bytes(wp)[k],
            decreases MAX_FRAME - i,
        {
            out[i] = 0;
            i = i + 1;
        }
        self.next = expected;
        let boundary = if self.next == START { STOP - 1 } else { self.next - 1 };
        self.w(3, boundary)?;
        self.w(7, 1)?;
        proof {
            assert(ring_polled(l0, self.log(), current));
            assert(self.log().words_in.skip(l0.words_in.len() as int) =~= l3.words_in.skip(l0.words_in.len() as int));
        }
        Ok(Some(length))
    }
}

} // verus!
