//! Platform mechanism model: per-process capability tables, bounded message
//! queues with per-sender quotas, round-robin scheduling and user-copy checks.
use vstd::prelude::*;

verus! {

pub const TASKS: usize = 16;
pub const CAP_SLOTS: usize = 11;
pub const MESSAGE_BYTES: usize = 128;
pub const QUEUE_DEPTH: usize = 4;
pub const SEND: u8 = 1;
pub const RECEIVE: u8 = 2;
pub const PORT_READ: u8 = 4;
pub const DRAW: u8 = 8;

#[derive(Clone, Copy, Debug, PartialEq, Eq, Structural)]
pub enum Error {
    Invalid,
    Denied,
    Stale,
    Full,
    Empty,
    Exhausted,
}

#[derive(Clone, Copy, Debug, PartialEq, Eq, Structural)]
pub enum Object {
    Unbound,
    Endpoint { task: u8, generation: u32 },
    Input,
    Framebuffer,
}

/// One capability slot: its current generation, rights, object and whether
/// its generation space is exhausted.
#[derive(Clone, Copy, PartialEq, Eq, Structural)]
pub struct Slot {
    pub generation: u32,
    pub rights: u8,
    pub object: Object,
    pub retired: bool,
}

pub open spec fn empty_slot() -> Slot {
    Slot { generation: 1, rights: 0, object: Object::Unbound, retired: false }
}

/// Handle layout: generation in the high 32 bits, slot index + 1 in the low bits.
pub open spec fn handle_of(generation: u32, index: int) -> int {
    generation as int * 0x1_0000_0000 + index + 1
}

pub open spec fn allowed_rights(object: Object) -> Option<u8> {
    match object {
        Object::Endpoint { task, generation } => if (task as int) < 16 && generation != 0 {
            Some(3u8)
        } else {
            None
        },
        Object::Input => Some(4u8),
        Object::Framebuffer => Some(8u8),
        Object::Unbound => None,
    }
}

pub open spec fn grant_spec(slots: Seq<Slot>, index: usize, object: Object, rights: u8) -> (Seq<Slot>, Result<u64, Error>) {
    if index >= slots.len() {
        (slots, Err(Error::Invalid))
    } else {
        let s = slots[index as int];
        if s.retired || s.object != Object::Unbound || object == Object::Unbound || rights == 0
            || rights & !15u8 != 0 {
            (slots, Err(Error::Denied))
        } else {
            match allowed_rights(object) {
                None => (slots, Err(Error::Invalid)),
                Some(allowed) => if rights & !allowed != 0 {
                    (slots, Err(Error::Denied))
                } else {
                    (
                        slots.update(index as int, Slot { object, rights, ..s }),
                        Ok(handle_of(s.generation, index as int) as u64),
                    )
                },
            }
        }
    }
}

pub open spec fn resolve_spec(slots: Seq<Slot>, handle: u64, right: u8) -> Result<Object, Error> {
    let low = handle as int % 0x1_0000_0000;
    if low == 0 || low - 1 >= slots.len() {
        Err(Error::Invalid)
    } else {
        let s = slots[low - 1];
        if s.retired || s.generation as int != handle as int / 0x1_0000_0000 || s.object == Object::Unbound {
            Err(Error::Stale)
        } else if right == 0 || right & s.rights != right {
            Err(Error::Denied)
        } else {
            Ok(s.object)
        }
    }
}

pub open spec fn revoke_slot(s: Slot) -> Slot {
    if s.generation == u32::MAX {
        Slot { object: Object::Unbound, rights: 0, retired: true, ..s }
    } else {
        Slot { object: Object::Unbound, rights: 0, generation: (s.generation + 1) as u32, ..s }
    }
}

pub open spec fn revoke_spec(slots: Seq<Slot>, index: usize) -> (Seq<Slot>, Result<(), Error>) {
    if index >= slots.len() {
        (slots, Err(Error::Invalid))
    } else {
        (slots.update(index as int, revoke_slot(slots[index as int])), Ok(()))
    }
}

/// A capability table. Only the nucleus grants; handles are interpreted in
/// the holder's own table.
#[derive(Clone, Copy)]
pub struct Caps {
    pub slots: [Slot; 11],
}

impl View for Caps {
    type V = Seq<Slot>;

    open spec fn view(&self) -> Seq<Slot> {
        self.slots@
    }
}

impl Caps {
    pub fn new() -> (c: Self)
        ensures
            c@ == Seq::new(11, |i: int| empty_slot()),
    {
        let c = Caps { slots: [Slot { generation: 1, rights: 0, object: Object::Unbound, retired: false }; 11] };
        proof {
            assert(c@ =~= Seq::new(11, |i: int| empty_slot()));
        }
        c
    }

    pub fn grant(&mut self, index: usize, object: Object, rights: u8) -> (r: Result<u64, Error>)
        ensures
            final(self)@ == grant_spec(old(self)@, index, object, rights).0,
            r == grant_spec(old(self)@, index, object, rights).1,
    {
        if index >= CAP_SLOTS {
            return Err(Error::Invalid);
        }
        let s = self.slots[index];
        if s.retired || s.object != Object::Unbound || object == Object::Unbound || rights == 0
            || rights & !15u8 != 0 {
            return Err(Error::Denied);
        }
        let allowed: u8 = match object {
            Object::Endpoint { task, generation } => {
                if (task as usize) < TASKS && generation != 0 {
                    3u8
                } else {
                    return Err(Error::Invalid);
                }
            },
            Object::Input => 4u8,
            Object::Framebuffer => 8u8,
            Object::Unbound => return Err(Error::Invalid),
        };
        if rights & !allowed != 0 {
            return Err(Error::Denied);
        }
        self.slots[index] = Slot { object, rights, ..s };
        proof {
            assert(self@ =~= old(self)@.update(index as int, Slot { object, rights, ..s }));
        }
        Ok(s.generation as u64 * 0x1_0000_0000 + (index as u64 + 1))
    }

    pub fn resolve(&self, handle: u64, right: u8) -> (r: Result<Object, Error>)
        ensures
            r == resolve_spec(self@, handle, right),
    {
        let low = handle % 0x1_0000_0000;
        if low == 0 || low - 1 >= CAP_SLOTS as u64 {
            return Err(Error::Invalid);
        }
        let index = (low - 1) as usize;
        let s = self.slots[index];
        if s.retired || s.generation as u64 != handle / 0x1_0000_0000 || s.object == Object::Unbound {
            return Err(Error::Stale);
        }
        if right == 0 || right & s.rights != right {
            return Err(Error::Denied);
        }
        Ok(s.object)
    }

    pub fn revoke(&mut self, index: usize) -> (r: Result<(), Error>)
        ensures
            final(self)@ == revoke_spec(old(self)@, index).0,
            r == revoke_spec(old(self)@, index).1,
    {
        if index >= CAP_SLOTS {
            return Err(Error::Invalid);
        }
        let mut s = self.slots[index];
        s.object = Object::Unbound;
        s.rights = 0;
        match s.generation.checked_add(1) {
            Some(next) => s.generation = next,
            None => s.retired = true,
        }
        self.slots[index] = s;
        proof {
            assert(self@ =~= old(self)@.update(index as int, revoke_slot(old(self)@[index as int])));
        }
        Ok(())
    }
}

/// A granted handle resolves to its object for every right it was granted.
pub proof fn law_granted_handle_resolves(slots: Seq<Slot>, index: usize, object: Object, rights: u8, right: u8)
    requires
        slots.len() == 11,
        grant_spec(slots, index, object, rights).1 is Ok,
        right != 0,
        right & rights == right,
    ensures
        resolve_spec(grant_spec(slots, index, object, rights).0, grant_spec(slots, index, object, rights).1->Ok_0, right)
            == Ok::<Object, Error>(object),
{
    let h = grant_spec(slots, index, object, rights).1->Ok_0;
    let g = slots[index as int].generation as int;
    assert(h as int == g * 0x1_0000_0000 + index + 1);
    assert(h as int % 0x1_0000_0000 == index + 1);
    assert(h as int / 0x1_0000_0000 == g);
}

/// A handle issued before a revocation of its slot never resolves again.
pub proof fn law_revoked_handle_is_stale(slots: Seq<Slot>, index: usize, handle: u64, right: u8)
    requires
        slots.len() == 11,
        index < slots.len(),
        handle as int % 0x1_0000_0000 == index + 1,
        handle as int / 0x1_0000_0000 == slots[index as int].generation,
    ensures
        resolve_spec(revoke_spec(slots, index).0, handle, right) == Err::<Object, Error>(Error::Stale),
{
}

/// A revoked handle stays dead even after its slot is granted again: the
/// new grant carries a new generation, so the old handle is stale and the
/// new handle differs from it.
pub proof fn law_regrant_keeps_old_handle_stale(
    slots: Seq<Slot>,
    index: usize,
    handle: u64,
    object: Object,
    rights: u8,
    right: u8,
)
    requires
        slots.len() == 11,
        index < slots.len(),
        handle as int % 0x1_0000_0000 == index + 1,
        handle as int / 0x1_0000_0000 == slots[index as int].generation,
    ensures
        ({
            let revoked = revoke_spec(slots, index).0;
            let (after, h) = grant_spec(revoked, index, object, rights);
            &&& resolve_spec(after, handle, right) == Err::<Object, Error>(Error::Stale)
            &&& h matches Ok(n) ==> n != handle
        }),
{
    let revoked = revoke_spec(slots, index).0;
    let (after, h) = grant_spec(revoked, index, object, rights);
    if let Ok(n) = h {
        let g = revoked[index as int].generation as int;
        assert(n as int == handle_of(revoked[index as int].generation, index as int));
        assert(g == slots[index as int].generation + 1);
        assert(n as int / 0x1_0000_0000 == g && handle as int / 0x1_0000_0000 == g - 1) by (nonlinear_arith)
            requires
                n as int == g * 0x1_0000_0000 + index + 1,
                0 <= index < 11,
                handle as int / 0x1_0000_0000 == g - 1,
        ;
    }
}

#[derive(Clone, Copy, Debug, PartialEq, Eq)]
pub struct Message {
    pub sender: u8,
    pub generation: u32,
    pub length: u8,
    pub bytes: [u8; 128],
}

pub open spec fn padded(bytes: Seq<u8>, n: nat) -> Seq<u8> {
    Seq::new(n, |i: int| if i < bytes.len() { bytes[i] } else { 0u8 })
}

impl Message {
    pub fn from_kernel_sender(sender: usize, generation: u32, bytes: &[u8]) -> (r: Result<Self, Error>)
        ensures
            match r {
                Ok(m) => !(sender >= 16 || generation == 0 || bytes@.len() == 0 || bytes@.len() > 128)
                    && m.sender == sender && m.generation == generation && m.length == bytes@.len()
                    && m.bytes@ == padded(bytes@, 128),
                Err(e) => e == Error::Invalid && (sender >= 16 || generation == 0 || bytes@.len() == 0
                    || bytes@.len() > 128),
            },
    {
        if sender >= TASKS || generation == 0 || bytes.len() == 0 || bytes.len() > MESSAGE_BYTES {
            return Err(Error::Invalid);
        }
        let mut value = Message { sender: sender as u8, generation, length: bytes.len() as u8, bytes: [0u8; 128] };
        let mut i: usize = 0;
        while i < bytes.len()
            invariant
                i <= bytes@.len() <= 128,
                forall|k: int| 0 <= k < 128 ==> #[trigger] value.bytes@[k] == if k < i { bytes@[k] } else { 0u8 },
                value.sender == sender && value.generation == generation && value.length == bytes@.len(),
            decreases bytes.len() - i,
        {
            value.bytes[i] = bytes[i];
            i = i + 1;
        }
        proof {
            assert(value.bytes@ =~= padded(bytes@, 128));
        }
        Ok(value)
    }
}

/// Abstract queue: queued messages, oldest first, and the per-sender limit.
pub struct QueueView {
    pub messages: Seq<Message>,
    pub sender_limit: nat,
}

pub open spec fn same_sender(a: Message, b: Message) -> bool {
    a.sender == b.sender && a.generation == b.generation
}

pub open spec fn count_same(s: Seq<Message>, m: Message) -> nat
    decreases s.len(),
{
    if s.len() == 0 {
        0
    } else {
        count_same(s.drop_last(), m) + if same_sender(s.last(), m) { 1nat } else { 0nat }
    }
}

pub open spec fn queue_push_spec(q: QueueView, m: Message) -> (QueueView, Result<(), Error>) {
    if q.messages.len() == 4 || count_same(q.messages, m) >= q.sender_limit {
        (q, Err(Error::Full))
    } else {
        (QueueView { messages: q.messages.push(m), ..q }, Ok(()))
    }
}

pub open spec fn queue_pop_spec(q: QueueView) -> (QueueView, Result<Message, Error>) {
    if q.messages.len() == 0 {
        (q, Err(Error::Empty))
    } else {
        (QueueView { messages: q.messages.drop_first(), ..q }, Ok(q.messages[0]))
    }
}

/// Bounded ring of at most four messages with a per-sender quota.
#[derive(Clone, Copy)]
pub struct Queue {
    entries: [Message; 4],
    head: usize,
    length: usize,
    sender_limit: usize,
}

impl View for Queue {
    type V = QueueView;

    closed spec fn view(&self) -> QueueView {
        QueueView {
            messages: Seq::new(self.length as nat, |i: int| self.entries@[(self.head + i) % 4]),
            sender_limit: self.sender_limit as nat,
        }
    }
}

impl Queue {
    pub closed spec fn wf(&self) -> bool {
        self.head < 4 && self.length <= 4 && 1 <= self.sender_limit <= 4
    }

    pub fn new() -> (q: Self)
        ensures
            q.wf(),
            q@.messages.len() == 0,
            q@.sender_limit == 4,
    {
        let empty = Message { sender: 0, generation: 0, length: 0, bytes: [0u8; 128] };
        Queue { entries: [empty; 4], head: 0, length: 0, sender_limit: QUEUE_DEPTH }
    }

    pub fn with_sender_limit(limit: usize) -> (r: Result<Self, Error>)
        ensures
            match r {
                Ok(q) => 1 <= limit <= 4 && q.wf() && q@.messages.len() == 0 && q@.sender_limit == limit,
                Err(e) => e == Error::Invalid && (limit == 0 || limit > 4),
            },
    {
        if limit == 0 || limit > QUEUE_DEPTH {
            return Err(Error::Invalid);
        }
        let mut q = Queue::new();
        q.sender_limit = limit;
        Ok(q)
    }

    pub fn push(&mut self, value: Message) -> (r: Result<(), Error>)
        requires
            old(self).wf(),
        ensures
            final(self).wf(),
            final(self)@ == queue_push_spec(old(self)@, value).0,
            r == queue_push_spec(old(self)@, value).1,
    {
        let ghost v = self@;
        let mut same: usize = 0;
        let mut i: usize = 0;
        while i < self.length
            invariant
                self.wf(),
                self@ == v,
                i <= self.length,
                same == count_same(v.messages.subrange(0, i as int), value),
                same <= i,
            decreases self.length - i,
        {
            let old_message = self.entries[(self.head + i) % QUEUE_DEPTH];
            proof {
                assert(v.messages.subrange(0, i + 1).drop_last() =~= v.messages.subrange(0, i as int));
                assert(old_message == v.messages[i as int]);
            }
            if old_message.sender == value.sender && old_message.generation == value.generation {
                same = same + 1;
            }
            i = i + 1;
        }
        proof {
            assert(v.messages.subrange(0, self.length as int) =~= v.messages);
        }
        if self.length == QUEUE_DEPTH || same >= self.sender_limit {
            return Err(Error::Full);
        }
        self.entries[(self.head + self.length) % QUEUE_DEPTH] = value;
        self.length = self.length + 1;
        proof {
            assert(self@.messages =~= v.messages.push(value));
        }
        Ok(())
    }

    pub fn peek(&self) -> (r: Result<Message, Error>)
        requires
            self.wf(),
        ensures
            r == queue_pop_spec(self@).1,
    {
        if self.length == 0 {
            Err(Error::Empty)
        } else {
            Ok(self.entries[self.head])
        }
    }

    pub fn pop(&mut self) -> (r: Result<Message, Error>)
        requires
            old(self).wf(),
        ensures
            final(self).wf(),
            final(self)@ == queue_pop_spec(old(self)@).0,
            r == queue_pop_spec(old(self)@).1,
    {
        let value = match self.peek() {
            Ok(m) => m,
            Err(e) => return Err(e),
        };
        let ghost v = self@;
        self.entries[self.head] = Message { sender: 0, generation: 0, length: 0, bytes: [0u8; 128] };
        self.head = (self.head + 1) % QUEUE_DEPTH;
        self.length = self.length - 1;
        proof {
            assert forall|i: int| 0 <= i < self.length implies #[trigger] self@.messages[i] == v.messages.drop_first()[i] by {
                assert((old(self).head + 1) % 4 != old(self).head || i + 1 >= 4);
            }
            assert(self@.messages =~= v.messages.drop_first());
        }
        Ok(value)
    }
}

/// The queue and the messages of `k` pops in turn, stopping at the first
/// refused one.
pub open spec fn pop_n(q: QueueView, k: nat) -> (QueueView, Seq<Message>)
    decreases k,
{
    if k == 0 {
        (q, Seq::empty())
    } else {
        match queue_pop_spec(q).1 {
            Ok(x) => {
                let rest = pop_n(queue_pop_spec(q).0, (k - 1) as nat);
                (rest.0, seq![x] + rest.1)
            },
            Err(_) => (q, Seq::empty()),
        }
    }
}

proof fn lemma_pop_n(q: QueueView, k: nat)
    requires
        k <= q.messages.len(),
    ensures
        pop_n(q, k).1 == q.messages.take(k as int),
        pop_n(q, k).0.messages == q.messages.skip(k as int),
        pop_n(q, k).0.sender_limit == q.sender_limit,
    decreases k,
{
    if k > 0 {
        let q1 = queue_pop_spec(q).0;
        lemma_pop_n(q1, (k - 1) as nat);
        assert(seq![q.messages[0]] + q1.messages.take(k - 1) =~= q.messages.take(k as int));
        assert(q1.messages.skip(k - 1) =~= q.messages.skip(k as int));
    } else {
        assert(q.messages.skip(0) =~= q.messages);
    }
}

/// Law: messages leave a queue in the order they were accepted: after an
/// accepted push, popping every message gives the earlier messages in
/// their order and then the new one, and leaves the queue empty.
pub proof fn law_queue_fifo(q: QueueView, m: Message)
    requires
        queue_push_spec(q, m).1 is Ok,
    ensures
        pop_n(queue_push_spec(q, m).0, q.messages.len() + 1).1 == q.messages.push(m),
        pop_n(queue_push_spec(q, m).0, q.messages.len() + 1).0.messages.len() == 0,
{
    let p = queue_push_spec(q, m).0;
    lemma_pop_n(p, q.messages.len() + 1);
    assert(p.messages.take(q.messages.len() + 1int) =~= q.messages.push(m));
}

#[derive(Clone, Copy, Debug, PartialEq, Eq, Structural)]
pub enum State {
    Runnable,
    Blocked,
    Dead,
}

pub open spec fn next_from(states: Seq<State>, current: int, offset: int) -> Option<int>
    decreases 17 - offset,
{
    if offset < 1 || offset > 16 {
        None
    } else if states[(current + offset) % 16] == State::Runnable {
        Some((current + offset) % 16)
    } else {
        next_from(states, current, offset + 1)
    }
}

pub open spec fn next_spec(states: Seq<State>, current: usize) -> Result<usize, Error> {
    if current >= 16 {
        Err(Error::Invalid)
    } else {
        match next_from(states, current as int, 1) {
            Some(i) => Ok(i as usize),
            None => Err(Error::Empty),
        }
    }
}

/// Round-robin: the first runnable task after `current`, wrapping to `current` itself.
pub fn next(states: &[State; 16], current: usize) -> (r: Result<usize, Error>)
    ensures
        r == next_spec(states@, current),
{
    if current >= TASKS {
        return Err(Error::Invalid);
    }
    let mut offset: usize = 1;
    while offset <= TASKS
        invariant
            1 <= offset <= 17,
            current < 16,
            next_from(states@, current as int, 1) == next_from(states@, current as int, offset as int),
        decreases 17 - offset,
    {
        let index = (current + offset) % TASKS;
        if states[index] == State::Runnable {
            return Ok(index);
        }
        offset = offset + 1;
    }
    Err(Error::Empty)
}

#[derive(Clone, Copy, Debug)]
pub struct UserRange {
    pub start: u64,
    pub end: u64,
    pub writable: bool,
    pub executable: bool,
}

pub open spec fn range_admits(r: UserRange, pointer: u64, end: int, write: bool) -> bool {
    r.start <= pointer && end <= r.end && r.start < r.end && !(r.writable && r.executable)
        && (!write || r.writable)
}

/// A user copy is allowed only inside one non-W+X mapped range below the canonical hole.
pub open spec fn bounded_buffer_spec(ranges: Seq<UserRange>, pointer: u64, length: usize, write: bool, limit: int) -> Result<(), Error> {
    if length == 0 || length > limit || pointer < 4096 {
        Err(Error::Invalid)
    } else if pointer + length > u64::MAX {
        Err(Error::Invalid)
    } else if pointer + length > 0x0000_8000_0000_0000 {
        Err(Error::Denied)
    } else if exists|i: int| 0 <= i < ranges.len() && range_admits(#[trigger] ranges[i], pointer, pointer + length, write) {
        Ok(())
    } else {
        Err(Error::Denied)
    }
}

pub fn user_buffer(ranges: &[UserRange], pointer: u64, length: usize, write: bool) -> (r: Result<(), Error>)
    ensures
        r == bounded_buffer_spec(ranges@, pointer, length, write, 144),
{
    if length == 0 || length > MESSAGE_BYTES + 16 || pointer < 4096 {
        return Err(Error::Invalid);
    }
    let end = match pointer.checked_add(length as u64) {
        Some(e) => e,
        None => return Err(Error::Invalid),
    };
    if end > 0x0000_8000_0000_0000 {
        return Err(Error::Denied);
    }
    let mut i: usize = 0;
    while i < ranges.len()
        invariant
            i <= ranges@.len(),
            end == pointer + length,
            0 < length <= 144,
            pointer >= 4096,
            end <= 0x0000_8000_0000_0000,
            forall|k: int| 0 <= k < i ==> !range_admits(#[trigger] ranges@[k], pointer, end as int, write),
        decreases ranges.len() - i,
    {
        let r = ranges[i];
        if r.start <= pointer && end <= r.end && r.start < r.end && !(r.writable && r.executable)
            && (!write || r.writable) {
            proof {
                assert(range_admits(ranges@[i as int], pointer, end as int, write));
                assert(exists|k: int| 0 <= k < ranges@.len() && range_admits(#[trigger] ranges@[k], pointer, pointer + length, write));
            }
            return Ok(());
        }
        i = i + 1;
    }
    Err(Error::Denied)
}

pub open spec fn framebuffer_span_spec(width: u32, height: u32, pitch: u32, format: u32, base: u64, bytes: u64) -> Result<u64, Error> {
    if width != 640 || height != 480 || !(640 <= pitch <= 4096) || format > 1 || base == 0 || base % 4096 != 0 {
        Err(Error::Invalid)
    } else {
        let span = pitch * height * 4;
        let rounded = (span + 4095) / 4096 * 4096;
        if rounded > 8 * 1024 * 1024 || rounded > bytes || base + rounded > 0x1_0000_0000 {
            Err(Error::Denied)
        } else {
            Ok(rounded as u64)
        }
    }
}

/// Untrusted framebuffer metadata is reduced to one bounded, page-rounded span.
pub fn framebuffer_span(width: u32, height: u32, pitch: u32, format: u32, base: u64, bytes: u64) -> (r: Result<u64, Error>)
    ensures
        r == framebuffer_span_spec(width, height, pitch, format, base, bytes),
{
    if width != 640 || height != 480 || !(640 <= pitch && pitch <= 4096) || format > 1 || base == 0
        || base % 4096 != 0 {
        return Err(Error::Invalid);
    }
    let span = pitch as u64 * height as u64 * 4;
    let rounded = (span + 4095) / 4096 * 4096;
    if rounded > 8 * 1024 * 1024 || rounded > bytes || base > 0x1_0000_0000 - rounded {
        return Err(Error::Denied);
    }
    Ok(rounded)
}

pub open spec fn context_phase_spec(rax: u64, rcx: u64, r15: u64, others: bool, flags: u64, mxcsr: u32, simd: bool) -> u8 {
    if !others || flags & 0x401 != 0x401 || mxcsr != 0x3f80 || !simd {
        0
    } else if r15 == 0xdddd && rax == 0xeeee && 1 <= rcx <= 10_000_000 {
        1
    } else if r15 == 0xddde && rcx == 0xffff && 1 <= rax <= 10_000_000 {
        2
    } else {
        0
    }
}

/// Timer evidence: which all-register fixture phase (if any) the sampled state proves.
pub fn context_phase(rax: u64, rcx: u64, r15: u64, others: bool, flags: u64, mxcsr: u32, simd: bool) -> (r: u8)
    ensures
        r == context_phase_spec(rax, rcx, r15, others, flags, mxcsr, simd),
{
    if !others || flags & 0x401 != 0x401 || mxcsr != 0x3f80 || !simd {
        return 0;
    }
    if r15 == 0xdddd && rax == 0xeeee && 1 <= rcx && rcx <= 10_000_000 {
        1
    } else if r15 == 0xddde && rcx == 0xffff && 1 <= rax && rax <= 10_000_000 {
        2
    } else {
        0
    }
}

} // verus!
