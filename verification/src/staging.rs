//! Kernel-owned bounded byte staging for one package transaction: exact
//! sequential copies into an exclusively owned buffer, a seal per accepted
//! transaction and views only of sealed packages. No allocator, device,
//! signature policy, page mapping or execution authority.
use vstd::prelude::*;

verus! {

pub const MANIFEST_BYTES: usize = 384;
pub const MIN_PACKAGE: usize = MANIFEST_BYTES + 512;
pub const MAX_PACKAGE: usize = MANIFEST_BYTES + 2 * 1024 * 1024;
/// Inspection covers whole storage sectors, final zero padding included.
pub const MIN_INSPECTION: usize = 512;
/// `MAX_PACKAGE` rounded up to whole 512-byte sectors.
pub const MAX_INSPECTION: usize = 2_097_664;
pub const BUFFER_BYTES: usize = 513 * 4096;
pub const MAX_CHUNK: usize = 512;
pub const PRIVATE_PAGES: usize = 9216;
pub const ARENA_PAGES: usize = PRIVATE_PAGES + 513 + 2;

/// The staging extension of the private arena: a guard page, the buffer and
/// a second guard page ending the arena.
#[derive(Clone, Copy, Debug, PartialEq, Eq, Structural)]
pub struct Region {
    pub lower_guard: u64,
    pub start: u64,
    pub end: u64,
    pub arena_end: u64,
}

/// Whether an arena offset is one of the two guard pages.
pub fn guard_offset(offset: u64) -> (r: bool)
    ensures
        r == (offset == PRIVATE_PAGES * 4096 || offset == (ARENA_PAGES - 1) * 4096),
{
    offset == PRIVATE_PAGES as u64 * 4096 || offset == (ARENA_PAGES as u64 - 1) * 4096
}

/// The staging region of an arena: the process strides end right before the
/// lower guard; neither guard belongs to the buffer.
pub fn region(arena: u64, pages: usize) -> (r: Result<Region, Error>)
    ensures
        r is Ok <==> (pages == ARENA_PAGES && arena >= 0x2000000 && arena % 4096 == 0 && arena + ARENA_PAGES * 4096
            <= 0x1_0000_0000),
        match r {
            Ok(g) => g == (Region {
                lower_guard: (arena + PRIVATE_PAGES * 4096) as u64,
                start: (arena + PRIVATE_PAGES * 4096 + 4096) as u64,
                end: (arena + PRIVATE_PAGES * 4096 + 4096 + BUFFER_BYTES) as u64,
                arena_end: (arena + ARENA_PAGES * 4096) as u64,
            }),
            Err(e) => e == Error::Bounds,
        },
{
    if pages != ARENA_PAGES || arena < 0x2000000 || arena % 4096 != 0 {
        return Err(Error::Bounds);
    }
    if arena > u64::MAX - ARENA_PAGES as u64 * 4096 {
        return Err(Error::Bounds);
    }
    let arena_end = arena + ARENA_PAGES as u64 * 4096;
    if arena_end > 0x1_0000_0000 {
        return Err(Error::Bounds);
    }
    let lower_guard = arena + PRIVATE_PAGES as u64 * 4096;
    let start = lower_guard + 4096;
    let end = start + BUFFER_BYTES as u64;
    if end + 4096 != arena_end {
        return Err(Error::Bounds);
    }
    Ok(Region { lower_guard, start, end, arena_end })
}

#[derive(Clone, Copy, Debug, PartialEq, Eq, Structural)]
pub enum Error {
    Bounds,
    Busy,
    Stale,
    Order,
    Incomplete,
    Exhausted,
    State,
}

/// What a staged transaction is for: an executable package, or read-only
/// storage inspection that can never become an executable view.
#[derive(Clone, Copy, Debug, PartialEq, Eq, Structural)]
pub enum Purpose {
    Executable,
    Inspection,
}

/// The identity of one accepted transaction: its seal, target slot, exact
/// length and purpose.
#[derive(Clone, Copy, Debug, PartialEq, Eq, Structural)]
pub struct Identity {
    seal: u64,
    slot: u8,
    length: usize,
    purpose: Purpose,
}

impl Identity {
    pub closed spec fn spec_seal(self) -> u64 {
        self.seal
    }

    pub closed spec fn spec_slot(self) -> u8 {
        self.slot
    }

    pub closed spec fn spec_length(self) -> usize {
        self.length
    }

    pub closed spec fn spec_purpose(self) -> Purpose {
        self.purpose
    }

    pub fn seal(self) -> (r: u64)
        ensures
            r == self.spec_seal(),
    {
        self.seal
    }

    pub fn slot(self) -> (r: usize)
        ensures
            r == self.spec_slot(),
    {
        self.slot as usize
    }

    pub fn length(self) -> (r: usize)
        ensures
            r == self.spec_length(),
    {
        self.length
    }

    pub fn inspection(self) -> (r: bool)
        ensures
            r == (self.spec_purpose() == Purpose::Inspection),
    {
        self.purpose == Purpose::Inspection
    }
}

/// The identity with exactly these fields.
pub closed spec fn make_identity(seal: u64, slot: u8, length: usize, purpose: Purpose) -> Identity {
    Identity { seal, slot, length, purpose }
}

pub proof fn lemma_make_identity(seal: u64, slot: u8, length: usize, purpose: Purpose)
    ensures
        identity_is(make_identity(seal, slot, length, purpose), seal, slot, length, purpose),
{
}

/// Whether an identity has exactly these fields.
pub open spec fn identity_is(id: Identity, seal: u64, slot: u8, length: usize, purpose: Purpose) -> bool {
    id.spec_seal() == seal && id.spec_slot() == slot && id.spec_length() == length && id.spec_purpose() == purpose
}

#[derive(Clone, Copy, Debug, PartialEq, Eq, Structural)]
pub enum Phase {
    Empty,
    Copying,
    Sealed,
}

/// Abstract state of a staging buffer.
pub struct BufferView {
    pub bytes: Seq<u8>,
    pub phase: Phase,
    pub identity: Option<Identity>,
    pub copied: nat,
    pub next: Option<u64>,
}

/// A staging buffer over an exclusively owned byte region. It owns every
/// byte, page-rounded padding included; the owner must remove writable
/// aliases before exposing a sealed view and remove views before reuse.
pub struct Buffer<'a> {
    pub bytes: &'a mut [u8],
    phase: Phase,
    identity: Option<Identity>,
    pub copied: usize,
    pub next: Option<u64>,
}

impl<'a> Buffer<'a> {
    /// Abstract state of the buffer.
    pub closed spec fn state(&self) -> BufferView {
        BufferView {
            bytes: self.bytes@,
            phase: self.phase,
            identity: self.identity,
            copied: self.copied as nat,
            next: self.next,
        }
    }
}

/// Well-formedness: the full buffer, an identity exactly while a transaction
/// is open, and progress within its bounded length.
pub open spec fn buffer_wf(b: BufferView) -> bool {
    &&& b.bytes.len() == BUFFER_BYTES
    &&& (b.phase == Phase::Empty) == (b.identity is None)
    &&& b.phase == Phase::Empty ==> b.copied == 0
    &&& b.identity matches Some(id) ==> b.copied <= id.spec_length() <= MAX_INSPECTION
}

/// Whether a length is acceptable for a purpose.
pub open spec fn bounded(length: usize, purpose: Purpose) -> bool {
    match purpose {
        Purpose::Executable => MIN_PACKAGE <= length <= MAX_PACKAGE,
        Purpose::Inspection => MIN_INSPECTION <= length <= MAX_INSPECTION && length % 512 == 0,
    }
}

/// Opening a transaction: only when empty, only for slots 5 and 7 and a
/// bounded length, and only while seals remain. Each accepted open consumes
/// one seal for good.
pub open spec fn begin_spec(b: BufferView, slot: usize, length: usize, purpose: Purpose) -> (BufferView, Result<Identity, Error>) {
    if b.phase != Phase::Empty {
        (b, Err(Error::Busy))
    } else if !(slot == 5 || slot == 7) || !bounded(length, purpose) {
        (b, Err(Error::Bounds))
    } else if b.next is None {
        (b, Err(Error::Exhausted))
    } else {
        let seal = b.next->Some_0;
        (
            BufferView {
                next: if seal == u64::MAX { None } else { Some((seal + 1) as u64) },
                identity: Some(make_identity(seal, slot as u8, length, purpose)),
                copied: 0,
                phase: Phase::Copying,
                ..b
            },
            Ok(make_identity(seal, slot as u8, length, purpose)),
        )
    }
}

/// The open transaction named by a nonzero seal.
pub open spec fn identity_spec(b: BufferView, seal: u64) -> Result<Identity, Error> {
    match b.identity {
        Some(id) => if seal != 0 && id.spec_seal() == seal {
            Ok(id)
        } else {
            Err(Error::Stale)
        },
        None => Err(Error::Stale),
    }
}

/// An exact sequential copy: no hole, replay, truncation or overlap. A
/// refused copy changes nothing.
pub open spec fn append_spec(b: BufferView, seal: u64, offset: usize, chunk: Seq<u8>) -> (BufferView, Result<(), Error>) {
    match identity_spec(b, seal) {
        Err(e) => (b, Err(e)),
        Ok(id) => if b.phase != Phase::Copying {
            (b, Err(Error::State))
        } else if offset != b.copied {
            (b, Err(Error::Order))
        } else if offset + chunk.len() > usize::MAX || chunk.len() == 0 || chunk.len() > MAX_CHUNK || offset
            + chunk.len() > id.spec_length() {
            (b, Err(Error::Bounds))
        } else {
            (
                BufferView {
                    bytes: b.bytes.subrange(0, offset as int) + chunk + b.bytes.subrange(
                        offset + chunk.len(),
                        b.bytes.len() as int,
                    ),
                    copied: (offset + chunk.len()) as nat,
                    ..b
                },
                Ok(()),
            )
        },
    }
}

pub open spec fn finish_spec(b: BufferView, seal: u64) -> (BufferView, Result<Identity, Error>) {
    match identity_spec(b, seal) {
        Err(e) => (b, Err(e)),
        Ok(id) => if b.phase != Phase::Copying {
            (b, Err(Error::State))
        } else if b.copied != id.spec_length() {
            (b, Err(Error::Incomplete))
        } else if exists|i: int| id.spec_length() <= i < b.bytes.len() && b.bytes[i] != 0 {
            (b, Err(Error::State))
        } else {
            (BufferView { phase: Phase::Sealed, ..b }, Ok(id))
        },
    }
}

/// The sealed bytes of a transaction of the given purpose, padding excluded.
pub open spec fn view_spec(b: BufferView, seal: u64, purpose: Purpose) -> Result<Seq<u8>, Error> {
    match identity_spec(b, seal) {
        Err(e) => Err(e),
        Ok(id) => if b.phase != Phase::Sealed || id.spec_purpose() != purpose {
            Err(Error::State)
        } else {
            Ok(b.bytes.subrange(0, id.spec_length() as int))
        },
    }
}

pub open spec fn emptied(b: BufferView) -> BufferView {
    BufferView { phase: Phase::Empty, identity: None, copied: 0, ..b }
}

impl<'a> Buffer<'a> {
    /// Takes the region, zeroed, once per boot session; reconstructing it to
    /// recover a failed transaction would reset the seals.
    pub fn new(bytes: &'a mut [u8]) -> (r: Result<Self, Error>)
        ensures
            r is Ok <==> old(bytes)@.len() == BUFFER_BYTES,
            match r {
                Ok(b) => buffer_wf(b.state()) && b.state() == (BufferView {
                    bytes: Seq::new(BUFFER_BYTES as nat, |i: int| 0u8),
                    phase: Phase::Empty,
                    identity: None,
                    copied: 0,
                    next: Some(1),
                }),
                Err(e) => e == Error::Bounds && final(bytes)@ == old(bytes)@,
            },
    {
        if bytes.len() != BUFFER_BYTES {
            return Err(Error::Bounds);
        }
        let mut i: usize = 0;
        while i < BUFFER_BYTES
            invariant
                bytes@.len() == BUFFER_BYTES,
                i <= BUFFER_BYTES,
                forall|k: int| 0 <= k < i ==> bytes@[k] == 0,
            decreases BUFFER_BYTES - i,
        {
            bytes[i] = 0;
            i = i + 1;
        }
        let b = Buffer { bytes, phase: Phase::Empty, identity: None, copied: 0, next: Some(1) };
        proof {
            assert(b.state().bytes =~= Seq::new(BUFFER_BYTES as nat, |i: int| 0u8));
        }
        Ok(b)
    }

    /// Opens an executable package transaction for a kernel-reserved slot.
    pub fn begin(&mut self, slot: usize, length: usize) -> (r: Result<Identity, Error>)
        requires
            buffer_wf(old(self).state()),
        ensures
            buffer_wf(final(self).state()),
            final(self).state() == begin_spec(old(self).state(), slot, length, Purpose::Executable).0,
            r == begin_spec(old(self).state(), slot, length, Purpose::Executable).1,
    {
        self.begin_kind(slot, length, Purpose::Executable)
    }

    /// Opens a read-only inspection transaction; its bytes can never become
    /// an executable view.
    pub fn begin_inspection(&mut self, slot: usize, length: usize) -> (r: Result<Identity, Error>)
        requires
            buffer_wf(old(self).state()),
        ensures
            buffer_wf(final(self).state()),
            final(self).state() == begin_spec(old(self).state(), slot, length, Purpose::Inspection).0,
            r == begin_spec(old(self).state(), slot, length, Purpose::Inspection).1,
    {
        self.begin_kind(slot, length, Purpose::Inspection)
    }

    fn begin_kind(&mut self, slot: usize, length: usize, purpose: Purpose) -> (r: Result<Identity, Error>)
        requires
            buffer_wf(old(self).state()),
        ensures
            buffer_wf(final(self).state()),
            final(self).state() == begin_spec(old(self).state(), slot, length, purpose).0,
            r == begin_spec(old(self).state(), slot, length, purpose).1,
    {
        if self.phase != Phase::Empty {
            return Err(Error::Busy);
        }
        let ok = match purpose {
            Purpose::Executable => MIN_PACKAGE <= length && length <= MAX_PACKAGE,
            Purpose::Inspection => MIN_INSPECTION <= length && length <= MAX_INSPECTION && length % 512 == 0,
        };
        if !(slot == 5 || slot == 7) || !ok {
            return Err(Error::Bounds);
        }
        let seal = match self.next {
            Some(s) => s,
            None => return Err(Error::Exhausted),
        };
        let id = Identity { seal, slot: slot as u8, length, purpose };
        self.next = if seal == u64::MAX { None } else { Some(seal + 1) };
        self.identity = Some(id);
        self.copied = 0;
        self.phase = Phase::Copying;
        Ok(id)
    }

    fn identity(&self, seal: u64) -> (r: Result<Identity, Error>)
        ensures
            r == identity_spec(self.state(), seal),
    {
        match self.identity {
            Some(id) => if seal != 0 && id.seal == seal {
                Ok(id)
            } else {
                Err(Error::Stale)
            },
            None => Err(Error::Stale),
        }
    }

    /// Copies the next chunk of the open transaction.
    pub fn append(&mut self, seal: u64, offset: usize, chunk: &[u8]) -> (r: Result<(), Error>)
        requires
            buffer_wf(old(self).state()),
        ensures
            buffer_wf(final(self).state()),
            final(self).state() == append_spec(old(self).state(), seal, offset, chunk@).0,
            r == append_spec(old(self).state(), seal, offset, chunk@).1,
    {
        let id = match self.identity(seal) {
            Ok(id) => id,
            Err(e) => return Err(e),
        };
        if self.phase != Phase::Copying {
            return Err(Error::State);
        }
        if offset != self.copied {
            return Err(Error::Order);
        }
        if offset > usize::MAX - chunk.len() {
            return Err(Error::Bounds);
        }
        let end = offset + chunk.len();
        if chunk.len() == 0 || chunk.len() > MAX_CHUNK || end > id.length {
            return Err(Error::Bounds);
        }
        let ghost before = self.bytes@;
        let ghost st = self.state();
        let mut i: usize = 0;
        while i < chunk.len()
            invariant
                self.state() == (BufferView { bytes: self.bytes@, ..st }),
                i <= chunk@.len(),
                end == offset + chunk@.len(),
                end <= BUFFER_BYTES,
                self.bytes@.len() == BUFFER_BYTES,
                before.len() == BUFFER_BYTES,
                forall|k: int| 0 <= k < offset ==> self.bytes@[k] == before[k],
                forall|k: int| 0 <= k < i ==> self.bytes@[offset + k] == chunk@[k],
                forall|k: int| offset + i <= k < BUFFER_BYTES ==> self.bytes@[k] == before[k],
            decreases chunk@.len() - i,
        {
            self.bytes[offset + i] = chunk[i];
            i = i + 1;
        }
        self.copied = end;
        proof {
            assert(self.bytes@ =~= before.subrange(0, offset as int) + chunk@ + before.subrange(
                end as int,
                before.len() as int,
            ));
        }
        Ok(())
    }

    /// Ends byte copying once every byte has arrived and the padding is zero.
    /// No manager authority or authenticated metadata is produced here.
    pub fn finish(&mut self, seal: u64) -> (r: Result<Identity, Error>)
        requires
            buffer_wf(old(self).state()),
        ensures
            buffer_wf(final(self).state()),
            final(self).state() == finish_spec(old(self).state(), seal).0,
            r == finish_spec(old(self).state(), seal).1,
    {
        let id = match self.identity(seal) {
            Ok(id) => id,
            Err(e) => return Err(e),
        };
        if self.phase != Phase::Copying {
            return Err(Error::State);
        }
        if self.copied != id.length {
            return Err(Error::Incomplete);
        }
        let mut i: usize = id.length;
        while i < self.bytes.len()
            invariant
                buffer_wf(old(self).state()),
                self.state() == old(self).state(),
                identity_spec(old(self).state(), seal) == Ok::<Identity, Error>(id),
                old(self).state().phase == Phase::Copying,
                old(self).state().copied == id.spec_length(),
                id.spec_length() <= i <= self.bytes@.len(),
                forall|k: int| id.spec_length() <= k < i ==> self.bytes@[k] == 0,
            decreases self.bytes@.len() - i,
        {
            if self.bytes[i] != 0 {
                proof {
                    assert(id.spec_length() <= i < self.bytes@.len() && self.bytes@[i as int] != 0);
                }
                return Err(Error::State);
            }
            i = i + 1;
        }
        self.phase = Phase::Sealed;
        Ok(id)
    }

    /// Shared view of exactly the sealed executable package.
    pub fn view(&self, seal: u64) -> (r: Result<&[u8], Error>)
        requires
            buffer_wf(self.state()),
        ensures
            match r {
                Ok(v) => view_spec(self.state(), seal, Purpose::Executable) == Ok::<Seq<u8>, Error>(v@),
                Err(e) => view_spec(self.state(), seal, Purpose::Executable) == Err::<Seq<u8>, Error>(e),
            },
    {
        self.view_of(seal, Purpose::Executable)
    }

    /// Read-only inspection bytes of a sealed inspection transaction. No
    /// signature, damage or freshness authority follows from the seal.
    pub fn inspection_view(&self, seal: u64) -> (r: Result<&[u8], Error>)
        requires
            buffer_wf(self.state()),
        ensures
            match r {
                Ok(v) => view_spec(self.state(), seal, Purpose::Inspection) == Ok::<Seq<u8>, Error>(v@),
                Err(e) => view_spec(self.state(), seal, Purpose::Inspection) == Err::<Seq<u8>, Error>(e),
            },
    {
        self.view_of(seal, Purpose::Inspection)
    }

    fn view_of(&self, seal: u64, purpose: Purpose) -> (r: Result<&[u8], Error>)
        requires
            buffer_wf(self.state()),
        ensures
            match r {
                Ok(v) => view_spec(self.state(), seal, purpose) == Ok::<Seq<u8>, Error>(v@),
                Err(e) => view_spec(self.state(), seal, purpose) == Err::<Seq<u8>, Error>(e),
            },
    {
        let id = match self.identity(seal) {
            Ok(id) => id,
            Err(e) => return Err(e),
        };
        if self.phase != Phase::Sealed || id.purpose != purpose {
            return Err(Error::State);
        }
        let n = id.length;
        Ok(&self.bytes[0..n])
    }

    /// The open transaction, if any.
    pub fn reserved(&self) -> (r: Option<Identity>)
        ensures
            r == self.state().identity,
    {
        self.identity
    }

    /// The transaction named by `seal`, while it is still copying.
    pub fn copying(&self, seal: u64) -> (r: Result<Identity, Error>)
        ensures
            r == (match identity_spec(self.state(), seal) {
                Err(e) => Err(e),
                Ok(id) => if self.state().phase != Phase::Copying {
                    Err(Error::State)
                } else {
                    Ok(id)
                },
            }),
    {
        let id = match self.identity(seal) {
            Ok(id) => id,
            Err(e) => return Err(e),
        };
        if self.phase != Phase::Copying {
            return Err(Error::State);
        }
        Ok(id)
    }

    /// Hands the whole buffer to a caller-supplied eraser, once, and keeps
    /// what it leaves; then empties the buffer only if every byte is zero. A stale seal never calls the eraser;
    /// a failed scrub never resets the transaction. (The eraser cannot change
    /// the slice's length; the length is checked all the same.)
    pub fn clear_with<F: FnOnce(&mut [u8])>(&mut self, seal: u64, erase: F) -> (r: Result<(), Error>)
        requires
            buffer_wf(old(self).state()),
            forall|s: &mut [u8]| #[trigger] erase.requires((s,)),
        ensures
            final(self).state().bytes.len() == BUFFER_BYTES ==> buffer_wf(final(self).state()),
            r is Ok ==> buffer_wf(final(self).state()),
            identity_spec(old(self).state(), seal) is Err ==> final(self).state() == old(self).state() && r == Err::<(), Error>(
                identity_spec(old(self).state(), seal)->Err_0,
            ),
            identity_spec(old(self).state(), seal) is Ok ==> exists|m: &mut [u8]|
                erase.ensures((m,), ()) && m@ == old(self).state().bytes && final(m)@ == final(self).state().bytes,
            identity_spec(old(self).state(), seal) is Ok ==> if final(self).state().bytes.len() == BUFFER_BYTES && forall|
                i: int,
            | 0 <= i < BUFFER_BYTES ==> #[trigger] final(self).state().bytes[i] == 0 {
                r is Ok && final(self).state() == emptied(BufferView { bytes: final(self).state().bytes, ..old(self).state() })
            } else {
                r == Err::<(), Error>(Error::State) && final(self).state() == (BufferView {
                    bytes: final(self).state().bytes,
                    ..old(self).state()
                })
            },
    {
        match self.identity(seal) {
            Ok(_) => {},
            Err(e) => return Err(e),
        }
        let ghost before = self.state();
        let ghost b0 = self.bytes;
        erase(self.bytes);
        let ghost erased = self.state();
        proof {
            assert(exists|m: &mut [u8]| erase.ensures((m,), ()) && m@ == b0@ && final(m)@ == self.bytes@);
        }

        if self.bytes.len() != BUFFER_BYTES {
            return Err(Error::State);
        }
        let mut i: usize = 0;
        while i < self.bytes.len()
            invariant
                self.state() == erased,
                before == old(self).state(),
                identity_spec(before, seal) is Ok,
                erased == (BufferView { bytes: erased.bytes, ..before }),
                buffer_wf(before),
                erased.bytes.len() == BUFFER_BYTES,
                exists|m: &mut [u8]| erase.ensures((m,), ()) && m@ == before.bytes && final(m)@ == erased.bytes,
                i <= self.bytes@.len(),
                forall|k: int| 0 <= k < i ==> self.bytes@[k] == 0,
            decreases self.bytes@.len() - i,
        {
            if self.bytes[i] != 0 {
                return Err(Error::State);
            }
            i = i + 1;
        }
        self.phase = Phase::Empty;
        self.identity = None;
        self.copied = 0;
        Ok(())
    }

    /// Zeroes the whole buffer and ends the transaction named by `seal`.
    pub fn clear(&mut self, seal: u64) -> (r: Result<(), Error>)
        requires
            buffer_wf(old(self).state()),
        ensures
            buffer_wf(final(self).state()),
            match identity_spec(old(self).state(), seal) {
                Err(e) => r == Err::<(), Error>(e) && final(self).state() == old(self).state(),
                Ok(_) => r is Ok && final(self).state() == emptied(
                    BufferView { bytes: Seq::new(BUFFER_BYTES as nat, |i: int| 0u8), ..old(self).state() },
                ),
            },
    {
        match self.identity(seal) {
            Ok(_) => {},
            Err(e) => return Err(e),
        }
        let ghost st = self.state();
        let mut i: usize = 0;
        while i < self.bytes.len()
            invariant
                self.state() == (BufferView { bytes: self.bytes@, ..st }),
                st == old(self).state(),
                i <= self.bytes@.len(),
                self.bytes@.len() == BUFFER_BYTES,
                forall|k: int| 0 <= k < i ==> self.bytes@[k] == 0,
            decreases self.bytes@.len() - i,
        {
            self.bytes[i] = 0;
            i = i + 1;
        }
        self.phase = Phase::Empty;
        self.identity = None;
        self.copied = 0;
        proof {
            assert(self.bytes@ =~= Seq::new(BUFFER_BYTES as nat, |i: int| 0u8));
        }
        Ok(())
    }
}

/// Law: seals are issued in strictly increasing order and never wrap or
/// revive: a transaction takes the next seal, the next one after it is
/// larger or the buffer is exhausted for good, and a refused begin changes
/// nothing.
pub proof fn law_seals_never_repeat(b: BufferView, slot: usize, length: usize, purpose: Purpose)
    ensures
        begin_spec(b, slot, length, purpose).1 is Ok ==> {
            let id = begin_spec(b, slot, length, purpose).1->Ok_0;
            let seal = id.spec_seal();
            &&& identity_is(id, seal, slot as u8, length, purpose)
            &&& begin_spec(b, slot, length, purpose).0.identity == Some(id)
            &&& b.next == Some(seal)
            &&& match begin_spec(b, slot, length, purpose).0.next {
                Some(n) => n > seal,
                None => seal == u64::MAX,
            }
        },
        begin_spec(b, slot, length, purpose).1 is Err ==> begin_spec(b, slot, length, purpose).0 == b,
        b.next is None ==> begin_spec(b, slot, length, purpose).1 is Err,
        b.phase != Phase::Empty ==> begin_spec(b, slot, length, purpose).1 == Err::<Identity, Error>(Error::Busy),
        b.phase == Phase::Empty && (!(slot == 5 || slot == 7) || !bounded(length, purpose)) ==> begin_spec(
            b,
            slot,
            length,
            purpose,
        ).1 == Err::<Identity, Error>(Error::Bounds),
{
    if begin_spec(b, slot, length, purpose).1 is Ok {
        lemma_make_identity(b.next->Some_0, slot as u8, length, purpose);
    }
}

} // verus!
