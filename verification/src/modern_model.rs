//! Logical IPC and live-replacement model of the modern nucleus: per-process
//! capability tables, principal bindings, bounded stamped queues, and the
//! trial, health, cutover, abort and fault transitions of replacing the
//! settings service. Kernel-owned state; callers and handles must come from
//! the real trap context. No signature policy, paging or disk I/O here.
use vstd::prelude::*;

verus! {

pub const TASKS: usize = 16;
pub const PRINCIPALS: usize = 10;
pub const CAP_SLOTS: usize = 12;
pub const MESSAGE_BYTES: usize = 128;
pub const QUEUE_DEPTH: usize = 4;
pub const SEND: u8 = 1;
pub const RECEIVE: u8 = 2;
pub const HEALTH: u8 = 4;
pub const MANAGE: u8 = 8;
pub const SELF_CAP: usize = 0;
pub const SHELL_CAP: usize = 1;
pub const COMPOSITOR_CAP: usize = 2;
pub const HEALTH_CAP: usize = 9;
pub const MANAGER_CAP: usize = 10;

#[derive(Clone, Copy, Debug, PartialEq, Eq, Structural)]
pub enum Error {
    Invalid,
    Denied,
    Stale,
    Full,
    Empty,
    Exhausted,
    Busy,
}

/// A process slot in a given incarnation.
#[derive(Clone, Copy, Debug, PartialEq, Eq, Structural)]
pub struct Endpoint {
    pub slot: u8,
    pub incarnation: u64,
}

/// What a capability names: nothing, sending to whichever endpoint a
/// principal is bound to, receiving on one endpoint, a trial's one-shot
/// health report, or the replacement manager's authority.
#[derive(Clone, Copy, Debug, PartialEq, Eq, Structural)]
pub enum Object {
    Unbound,
    NamedSend { principal: u8 },
    Receive(Endpoint),
    TrialHealth { endpoint: Endpoint, token: u64 },
    Manager,
}

/// One capability slot.
#[derive(Clone, Copy, Debug, PartialEq, Eq, Structural)]
pub struct Cap {
    pub generation: u32,
    pub rights: u8,
    pub object: Object,
    pub retired: bool,
}

pub open spec fn empty_cap() -> Cap {
    Cap { generation: 1, rights: 0, object: Object::Unbound, retired: false }
}

/// Handle layout: generation in the high 32 bits, slot index + 1 in the low.
pub open spec fn handle_of(generation: u32, index: int) -> int {
    generation as int * 0x1_0000_0000 + index + 1
}

/// The one right each object may be granted with, if the object is valid.
pub open spec fn right_for(object: Object) -> Option<u8> {
    match object {
        Object::NamedSend { principal } => if (principal as int) < PRINCIPALS {
            Some(SEND)
        } else {
            None
        },
        Object::Receive(e) => if (e.slot as int) < TASKS && e.incarnation != 0 {
            Some(RECEIVE)
        } else {
            None
        },
        Object::TrialHealth { endpoint, token } => if (endpoint.slot as int) < TASKS && endpoint.incarnation != 0
            && token != 0 {
            Some(HEALTH)
        } else {
            None
        },
        Object::Manager => Some(MANAGE),
        Object::Unbound => None,
    }
}

pub open spec fn grant_spec(caps: Seq<Cap>, index: usize, object: Object, rights: u8) -> (Seq<Cap>, Result<u64, Error>) {
    if index >= caps.len() {
        (caps, Err(Error::Invalid))
    } else {
        match right_for(object) {
            None => (caps, Err(Error::Invalid)),
            Some(allowed) => {
                let s = caps[index as int];
                if rights != allowed || s.retired || s.object != Object::Unbound {
                    (caps, Err(Error::Denied))
                } else {
                    (caps.update(index as int, Cap { object, rights, ..s }), Ok(handle_of(s.generation, index as int) as u64))
                }
            },
        }
    }
}

pub open spec fn resolve_spec(caps: Seq<Cap>, handle: u64, right: u8) -> Result<Object, Error> {
    let low = handle as int % 0x1_0000_0000;
    if low == 0 || low - 1 >= caps.len() {
        Err(Error::Invalid)
    } else {
        let s = caps[low - 1];
        if s.retired || s.object == Object::Unbound || s.generation as int != handle as int / 0x1_0000_0000 {
            Err(Error::Stale)
        } else if right == 0 || right & s.rights != right {
            Err(Error::Denied)
        } else {
            Ok(s.object)
        }
    }
}

/// Revoking empties a slot and advances its generation; an exhausted
/// generation retires the slot for good.
pub open spec fn revoke_cap(s: Cap) -> Cap {
    if s.generation == u32::MAX {
        Cap { object: Object::Unbound, rights: 0, retired: true, ..s }
    } else {
        Cap { object: Object::Unbound, rights: 0, generation: (s.generation + 1) as u32, ..s }
    }
}

pub open spec fn handle_spec(caps: Seq<Cap>, index: usize) -> Result<u64, Error> {
    if index >= caps.len() {
        Err(Error::Invalid)
    } else if caps[index as int].retired || caps[index as int].object == Object::Unbound {
        Err(Error::Stale)
    } else {
        Ok(handle_of(caps[index as int].generation, index as int) as u64)
    }
}

/// A process's capability table; handles are interpreted only in the
/// holder's own table.
#[derive(Clone, Copy)]
pub struct Caps {
    pub slots: [Cap; 12],
}

impl View for Caps {
    type V = Seq<Cap>;

    closed spec fn view(&self) -> Seq<Cap> {
        self.slots@
    }
}

impl Caps {
    pub fn new() -> (c: Self)
        ensures
            c@ == Seq::new(12, |i: int| empty_cap()),
    {
        let c = Caps { slots: [Cap { generation: 1, rights: 0, object: Object::Unbound, retired: false }; 12] };
        proof {
            assert(c@ =~= Seq::new(12, |i: int| empty_cap()));
        }
        c
    }

    pub fn grant(&mut self, index: usize, object: Object, rights: u8) -> (r: Result<u64, Error>)
        ensures
            final(self)@ == grant_spec(old(self)@, index, object, rights).0,
            r == grant_spec(old(self)@, index, object, rights).1,
    {
        if index >= CAP_SLOTS {
            return Err(Error::Invalid);
        }
        let allowed: u8 = match object {
            Object::NamedSend { principal } => if (principal as usize) < PRINCIPALS {
                SEND
            } else {
                return Err(Error::Invalid)
            },
            Object::Receive(e) => if (e.slot as usize) < TASKS && e.incarnation != 0 {
                RECEIVE
            } else {
                return Err(Error::Invalid)
            },
            Object::TrialHealth { endpoint, token } => if (endpoint.slot as usize) < TASKS && endpoint.incarnation != 0
                && token != 0 {
                HEALTH
            } else {
                return Err(Error::Invalid)
            },
            Object::Manager => MANAGE,
            Object::Unbound => return Err(Error::Invalid),
        };
        let s = self.slots[index];
        if rights != allowed || s.retired || s.object != Object::Unbound {
            return Err(Error::Denied);
        }
        self.slots[index] = Cap { object, rights, ..s };
        proof {
            assert(self@ =~= old(self)@.update(index as int, Cap { object, rights, ..s }));
        }
        Ok(s.generation as u64 * 0x1_0000_0000 + (index as u64 + 1))
    }

    pub fn resolve(&self, handle: u64, right: u8) -> (r: Result<Object, Error>)
        ensures
            r == resolve_spec(self@, handle, right),
    {
        let low = handle % 0x1_0000_0000;
        if low == 0 || low - 1 >= CAP_SLOTS as u64 {
            return Err(Error::Invalid);
        }
        let s = self.slots[(low - 1) as usize];
        if s.retired || s.object == Object::Unbound || s.generation as u64 != handle / 0x1_0000_0000 {
            return Err(Error::Stale);
        }
        if right == 0 || right & s.rights != right {
            return Err(Error::Denied);
        }
        Ok(s.object)
    }

    pub fn revoke(&mut self, index: usize) -> (r: Result<(), Error>)
        ensures
            index < CAP_SLOTS ==> final(self)@ == old(self)@.update(index as int, revoke_cap(old(self)@[index as int]))
                && r is Ok,
            index >= CAP_SLOTS ==> final(self)@ == old(self)@ && r == Err::<(), Error>(Error::Invalid),
    {
        if index >= CAP_SLOTS {
            return Err(Error::Invalid);
        }
        let mut s = self.slots[index];
        s.object = Object::Unbound;
        s.rights = 0;
        if s.generation == u32::MAX {
            s.retired = true;
        } else {
            s.generation = s.generation + 1;
        }
        self.slots[index] = s;
        proof {
            assert(self@ =~= old(self)@.update(index as int, revoke_cap(old(self)@[index as int])));
        }
        Ok(())
    }

    /// Revokes every slot.
    fn revoke_all(&mut self)
        ensures
            final(self)@ == old(self)@.map_values(|s: Cap| revoke_cap(s)),
    {
        let mut i: usize = 0;
        while i < CAP_SLOTS
            invariant
                i <= CAP_SLOTS,
                self@.len() == CAP_SLOTS,
                forall|k: int| 0 <= k < i ==> self@[k] == revoke_cap(old(self)@[k]),
                forall|k: int| i <= k < CAP_SLOTS ==> self@[k] == old(self)@[k],
            decreases CAP_SLOTS - i,
        {
            let _ = self.revoke(i);
            i = i + 1;
        }
        proof {
            assert(self@ =~= old(self)@.map_values(|s: Cap| revoke_cap(s)));
        }
    }

    /// The handle currently naming slot `index`.
    pub fn handle(&self, index: usize) -> (r: Result<u64, Error>)
        ensures
            r == handle_spec(self@, index),
    {
        if index >= CAP_SLOTS {
            return Err(Error::Invalid);
        }
        let s = self.slots[index];
        if s.retired || s.object == Object::Unbound {
            return Err(Error::Stale);
        }
        Ok(s.generation as u64 * 0x1_0000_0000 + (index as u64 + 1))
    }
}

impl Default for Caps {
    fn default() -> (c: Self)
        ensures
            c@ == Seq::new(12, |i: int| empty_cap()),
    {
        Caps::new()
    }
}

/// A message stamped by the kernel with the sender's principal and
/// incarnation; bytes past `length` are zero.
#[derive(Clone, Copy, Debug, PartialEq, Eq)]
pub struct Message {
    pub principal: u8,
    pub incarnation: u64,
    pub length: u8,
    pub bytes: [u8; 128],
}

/// `m` is the kernel stamp of `bytes` from `principal` in `incarnation`.
pub open spec fn is_stamp(m: Message, principal: u8, incarnation: u64, bytes: Seq<u8>) -> bool {
    &&& m.principal == principal
    &&& m.incarnation == incarnation
    &&& m.length == bytes.len()
    &&& m.bytes@ == bytes + Seq::new((MESSAGE_BYTES - bytes.len()) as nat, |i: int| 0u8)
}

/// Whether a stamp may be made: a known principal, a live incarnation and
/// one to 128 bytes.
pub open spec fn stamp_ok(principal: u8, incarnation: u64, bytes: Seq<u8>) -> bool {
    (principal as int) < PRINCIPALS && incarnation != 0 && 1 <= bytes.len() <= MESSAGE_BYTES
}

proof fn lemma_stamp_unique(a: Message, b: Message, principal: u8, incarnation: u64, bytes: Seq<u8>)
    requires
        is_stamp(a, principal, incarnation, bytes),
        is_stamp(b, principal, incarnation, bytes),
    ensures
        a == b,
{
    assert(a.bytes =~= b.bytes);
}

/// The stamp of `bytes`, when it exists.
pub open spec fn stamp_of(principal: u8, incarnation: u64, bytes: Seq<u8>) -> Message {
    choose|m: Message| #[trigger] is_stamp(m, principal, incarnation, bytes)
}

impl Message {
    fn stamp(principal: u8, incarnation: u64, bytes: &[u8]) -> (r: Result<Self, Error>)
        ensures
            r is Ok <==> stamp_ok(principal, incarnation, bytes@),
            match r {
                Ok(m) => m == stamp_of(principal, incarnation, bytes@) && is_stamp(m, principal, incarnation, bytes@),
                Err(e) => e == Error::Invalid,
            },
    {
        if principal as usize >= PRINCIPALS || incarnation == 0 || bytes.len() == 0 || bytes.len() > MESSAGE_BYTES {
            return Err(Error::Invalid);
        }
        let mut data = [0u8; 128];
        let mut i: usize = 0;
        while i < bytes.len()
            invariant
                i <= bytes@.len() <= MESSAGE_BYTES,
                forall|k: int| 0 <= k < i ==> data@[k] == bytes@[k],
                forall|k: int| bytes@.len() <= k < MESSAGE_BYTES ==> data@[k] == 0,
            decreases bytes@.len() - i,
        {
            data[i] = bytes[i];
            i = i + 1;
        }
        let m = Message { principal, incarnation, length: bytes.len() as u8, bytes: data };
        proof {
            assert(m.bytes@ =~= bytes@ + Seq::new((MESSAGE_BYTES - bytes@.len()) as nat, |i: int| 0u8));
            let c = stamp_of(principal, incarnation, bytes@);
            assert(is_stamp(m, principal, incarnation, bytes@));
            lemma_stamp_unique(c, m, principal, incarnation, bytes@);
        }
        Ok(m)
    }
}

pub open spec fn same_sender(m: Message, principal: u8, incarnation: u64) -> bool {
    m.principal == principal && m.incarnation == incarnation
}

/// Number of queued messages from one sender incarnation among the first `n`.
pub open spec fn queued_from(q: Seq<Message>, principal: u8, incarnation: u64, n: int) -> nat
    decreases n,
{
    if n <= 0 {
        0
    } else {
        queued_from(q, principal, incarnation, n - 1) + if same_sender(q[n - 1], principal, incarnation) {
            1nat
        } else {
            0nat
        }
    }
}

/// Enqueueing: at most four messages, and at most two from one sender
/// incarnation, so one sender cannot fill a shared service queue.
pub open spec fn push_spec(q: Seq<Message>, m: Message) -> (Seq<Message>, Result<(), Error>) {
    if q.len() >= QUEUE_DEPTH || queued_from(q, m.principal, m.incarnation, q.len() as int) >= 2 {
        (q, Err(Error::Full))
    } else {
        (q.push(m), Ok(()))
    }
}

/// Removing every message of one sender incarnation, keeping the order of
/// the others.
pub open spec fn purge_spec(q: Seq<Message>, principal: u8, incarnation: u64) -> Seq<Message> {
    q.filter(|m: Message| !same_sender(m, principal, incarnation))
}

proof fn lemma_purge_push(q: Seq<Message>, principal: u8, incarnation: u64, m: Message)
    ensures
        purge_spec(q.push(m), principal, incarnation) == if same_sender(m, principal, incarnation) {
            purge_spec(q, principal, incarnation)
        } else {
            purge_spec(q, principal, incarnation).push(m)
        },
{
    reveal(Seq::filter);
    assert(q.push(m).drop_last() =~= q);
}

/// A bounded FIFO of stamped messages.
#[derive(Clone, Copy)]
struct Queue {
    messages: [Message; 4],
    length: usize,
}

impl View for Queue {
    type V = Seq<Message>;

    closed spec fn view(&self) -> Seq<Message> {
        self.messages@.subrange(0, self.length as int)
    }
}

impl Queue {
    spec fn wf(&self) -> bool {
        self.length <= QUEUE_DEPTH
    }

    fn new() -> (q: Self)
        ensures
            q.wf(),
            q@ == Seq::<Message>::empty(),
    {
        let q = Queue { messages: [Message { principal: 0, incarnation: 0, length: 0, bytes: [0u8; 128] }; 4], length: 0 };
        proof {
            assert(q@ =~= Seq::<Message>::empty());
        }
        q
    }

    fn push(&mut self, m: Message) -> (r: Result<(), Error>)
        requires
            old(self).wf(),
        ensures
            final(self).wf(),
            final(self)@ == push_spec(old(self)@, m).0,
            r == push_spec(old(self)@, m).1,
    {
        if self.length >= QUEUE_DEPTH {
            return Err(Error::Full);
        }
        let mut same: usize = 0;
        let mut i: usize = 0;
        while i < self.length
            invariant
                self.wf(),
                i <= self.length,
                self@ == old(self)@,
                same == queued_from(self@, m.principal, m.incarnation, i as int),
                same <= i,
            decreases self.length - i,
        {
            if self.messages[i].principal == m.principal && self.messages[i].incarnation == m.incarnation {
                same = same + 1;
            }
            i = i + 1;
        }
        if same >= 2 {
            return Err(Error::Full);
        }
        let ghost before = self@;
        self.messages[self.length] = m;
        self.length = self.length + 1;
        proof {
            assert(self@ =~= before.push(m));
        }
        Ok(())
    }

    fn pop(&mut self) -> (r: Result<Message, Error>)
        requires
            old(self).wf(),
        ensures
            final(self).wf(),
            old(self)@.len() == 0 ==> r == Err::<Message, Error>(Error::Empty) && final(self)@ == old(self)@,
            old(self)@.len() > 0 ==> r == Ok::<Message, Error>(old(self)@[0]) && final(self)@ == old(self)@.drop_first(),
    {
        if self.length == 0 {
            return Err(Error::Empty);
        }
        let m = self.messages[0];
        let ghost before = self@;
        let mut i: usize = 1;
        while i < self.length
            invariant
                1 <= i <= self.length <= QUEUE_DEPTH,
                before.len() == self.length,
                forall|k: int| 0 <= k < i - 1 ==> self.messages@[k] == before[k + 1],
                forall|k: int| i <= k < self.length ==> self.messages@[k] == before[k],
            decreases self.length - i,
        {
            self.messages[i - 1] = self.messages[i];
            i = i + 1;
        }
        self.length = self.length - 1;
        self.messages[self.length] = Message { principal: 0, incarnation: 0, length: 0, bytes: [0u8; 128] };
        proof {
            assert(self@ =~= before.drop_first());
        }
        Ok(m)
    }

    fn purge(&mut self, principal: u8, incarnation: u64)
        requires
            old(self).wf(),
        ensures
            final(self).wf(),
            final(self)@ == purge_spec(old(self)@, principal, incarnation),
    {
        let ghost before = self@;
        let mut n: usize = 0;
        let mut i: usize = 0;
        while i < self.length
            invariant
                self.length == before.len() <= QUEUE_DEPTH,
                n <= i <= self.length,
                forall|k: int| i <= k < self.length ==> self.messages@[k] == before[k],
                self.messages@.subrange(0, n as int) == purge_spec(before.subrange(0, i as int), principal, incarnation),
            decreases self.length - i,
        {
            let m = self.messages[i];
            proof {
                assert(before.subrange(0, i as int + 1) =~= before.subrange(0, i as int).push(m));
                lemma_purge_push(before.subrange(0, i as int), principal, incarnation, m);
            }
            if m.principal != principal || m.incarnation != incarnation {
                let ghost kept = self.messages@.subrange(0, n as int);
                self.messages[n] = m;
                proof {
                    assert(self.messages@.subrange(0, n as int + 1) =~= kept.push(m));
                }
                n = n + 1;
            }
            i = i + 1;
        }
        proof {
            assert(before.subrange(0, i as int) =~= before);
        }
        let mut k: usize = n;
        while k < QUEUE_DEPTH
            invariant
                n <= k <= QUEUE_DEPTH,
                self.length <= QUEUE_DEPTH,
                self.messages@.subrange(0, n as int) == purge_spec(before, principal, incarnation),
            decreases QUEUE_DEPTH - k,
        {
            self.messages[k] = Message { principal: 0, incarnation: 0, length: 0, bytes: [0u8; 128] };
            k = k + 1;
        }
        self.length = n;
    }
}

#[derive(Clone, Copy, Debug, PartialEq, Eq, Structural)]
pub enum State {
    Vacant,
    Trial,
    Healthy,
    Active,
}

/// Abstract state of one process slot.
#[verifier::ext_equal]
pub struct ProcessView {
    pub state: State,
    pub principal: Option<u8>,
    pub incarnation: u64,
    pub caps: Seq<Cap>,
    pub queue: Seq<Message>,
}

#[derive(Clone, Copy)]
struct Process {
    state: State,
    principal: Option<u8>,
    incarnation: u64,
    caps: Caps,
    queue: Queue,
}

impl View for Process {
    type V = ProcessView;

    closed spec fn view(&self) -> ProcessView {
        ProcessView {
            state: self.state,
            principal: self.principal,
            incarnation: self.incarnation,
            caps: self.caps@,
            queue: self.queue@,
        }
    }
}

/// A replacement trial: its token and endpoint, the endpoint it would
/// replace, its remaining and signed tick budgets and the identity of the
/// staged image it runs.
#[derive(Clone, Copy, Debug, PartialEq, Eq)]
pub struct Trial {
    token: u64,
    endpoint: Endpoint,
    previous: Option<Endpoint>,
    budget: u32,
    signed_budget: u32,
    image_seal: u64,
    image_digest: [u8; 32],
    image_generation: u64,
}

pub struct TrialView {
    pub token: u64,
    pub endpoint: Endpoint,
    pub previous: Option<Endpoint>,
    pub budget: u32,
    pub signed_budget: u32,
    pub image_seal: u64,
    pub image_digest: Seq<u8>,
    pub image_generation: u64,
}

impl View for Trial {
    type V = TrialView;

    closed spec fn view(&self) -> TrialView {
        TrialView {
            token: self.token,
            endpoint: self.endpoint,
            previous: self.previous,
            budget: self.budget,
            signed_budget: self.signed_budget,
            image_seal: self.image_seal,
            image_digest: self.image_digest@,
            image_generation: self.image_generation,
        }
    }
}

impl Trial {
    pub fn token(&self) -> (r: u64)
        ensures
            r == self@.token,
    {
        self.token
    }

    pub fn endpoint(&self) -> (r: Endpoint)
        ensures
            r == self@.endpoint,
    {
        self.endpoint
    }

    pub fn image_seal(&self) -> (r: u64)
        ensures
            r == self@.image_seal,
    {
        self.image_seal
    }

    pub fn signed_budget(&self) -> (r: u32)
        ensures
            r == self@.signed_budget,
    {
        self.signed_budget
    }

    pub fn image_digest(&self) -> (r: [u8; 32])
        ensures
            r@ == self@.image_digest,
    {
        self.image_digest
    }

    pub fn image_generation(&self) -> (r: u64)
        ensures
            r == self@.image_generation,
    {
        self.image_generation
    }
}

/// Result of a cutover: the endpoint replaced, if any, and the new one.
#[derive(Clone, Copy, Debug, PartialEq, Eq, Structural)]
pub struct Cutover {
    pub previous: Option<Endpoint>,
    pub current: Endpoint,
}

/// The kernel-owned record of an authenticated staged image: its seal,
/// digest, generation and signed tick budget.
#[derive(Clone, Copy, Debug, PartialEq, Eq)]
pub struct StagedImage {
    pub seal: u64,
    pub digest: [u8; 32],
    pub generation: u64,
    pub signed_budget: u32,
}

/// Abstract state of the nucleus model.
#[verifier::ext_equal]
pub struct RuntimeView {
    pub processes: Seq<ProcessView>,
    pub bindings: Seq<Option<Endpoint>>,
    pub clock: u64,
    pub next_token: u64,
    pub trial: Option<TrialView>,
    pub staged: Option<StagedImage>,
    pub recovery_required: bool,
}

/// Kernel state: sixteen process slots, the endpoint each principal is
/// bound to, the incarnation clock and token counter, the trial in progress,
/// the staged image and whether controlled recovery is required.
pub struct Runtime {
    processes: [Process; 16],
    bindings: [Option<Endpoint>; 10],
    pub clock: u64,
    pub next_token: u64,
    pub trial: Option<Trial>,
    pub staged: Option<StagedImage>,
    recovery_required: bool,
}

pub open spec fn trial_view(t: Option<Trial>) -> Option<TrialView> {
    match t {
        Some(x) => Some(x@),
        None => None,
    }
}

impl View for Runtime {
    type V = RuntimeView;

    closed spec fn view(&self) -> RuntimeView {
        RuntimeView {
            processes: self.processes@.map_values(|p: Process| p@),
            bindings: self.bindings@,
            clock: self.clock,
            next_token: self.next_token,
            trial: trial_view(self.trial),
            staged: self.staged,
            recovery_required: self.recovery_required,
        }
    }
}

/// Every capability in a table names a valid object or nothing.
pub open spec fn caps_wf(caps: Seq<Cap>) -> bool {
    caps.len() == CAP_SLOTS && forall|k: int|
        0 <= k < CAP_SLOTS ==> (#[trigger] caps[k]).object == Object::Unbound || right_for(caps[k].object) is Some
}

/// Well-formedness of the nucleus state.
pub open spec fn runtime_wf(r: RuntimeView) -> bool {
    &&& r.processes.len() == TASKS
    &&& r.bindings.len() == PRINCIPALS
    &&& forall|i: int|
        0 <= i < TASKS ==> {
            let p = #[trigger] r.processes[i];
            &&& p.queue.len() <= QUEUE_DEPTH
            &&& caps_wf(p.caps)
            &&& (p.principal matches Some(x) ==> (x as int) < PRINCIPALS)
        }
    &&& (r.trial matches Some(t) ==> (t.endpoint.slot as int) < TASKS && t.budget >= 1)
}

/// The endpoint is the current incarnation of an active process.
pub open spec fn alive(r: RuntimeView, e: Endpoint) -> bool {
    (e.slot as int) < TASKS && r.processes[e.slot as int].state == State::Active && r.processes[e.slot as int].incarnation
        == e.incarnation
}

/// Only the active manager principal, through its manager capability.
pub open spec fn manager_spec(r: RuntimeView, caller: usize, handle: u64) -> Result<(), Error> {
    if caller >= TASKS {
        Err(Error::Invalid)
    } else {
        let p = r.processes[caller as int];
        if p.state != State::Active || p.principal != Some(8u8) {
            Err(Error::Denied)
        } else {
            match resolve_spec(p.caps, handle, MANAGE) {
                Err(e) => Err(e),
                Ok(o) => if o != Object::Manager {
                    Err(Error::Denied)
                } else {
                    Ok(())
                },
            }
        }
    }
}

/// Destroying a process: its binding (if still its own) is dropped, every
/// queue loses the messages it sent in that incarnation, and the slot becomes
/// vacant with an empty queue and every capability revoked.
pub open spec fn destroy_spec(r: RuntimeView, index: int) -> RuntimeView {
    let p = r.processes[index];
    let r1 = match p.principal {
        Some(x) => RuntimeView {
            bindings: if r.bindings[x as int] == Some(Endpoint { slot: index as u8, incarnation: p.incarnation }) {
                r.bindings.update(x as int, None)
            } else {
                r.bindings
            },
            processes: r.processes.map_values(
                |q: ProcessView| ProcessView { queue: purge_spec(q.queue, x, p.incarnation), ..q },
            ),
            ..r
        },
        None => r,
    };
    RuntimeView {
        processes: r1.processes.update(
            index,
            ProcessView {
                state: State::Vacant,
                principal: None,
                queue: Seq::empty(),
                caps: p.caps.map_values(|s: Cap| revoke_cap(s)),
                ..r1.processes[index]
            },
        ),
        ..r1
    }
}

/// Starting a trial: only the manager, only outside recovery, one at a time,
/// only for the exact staged image (whose record is consumed), only with a
/// sane signed budget, only while the bound endpoint it would replace is
/// alive, only into a vacant replacement slot (5 first, then 7), and only
/// while the incarnation clock and token counter have room. The trial gets
/// nothing but its health capability.
pub open spec fn begin_trial_spec(r: RuntimeView, caller: usize, handle: u64, image_seal: u64) -> (RuntimeView, Result<TrialView, Error>) {
    if manager_spec(r, caller, handle) is Err {
        (r, Err(manager_spec(r, caller, handle)->Err_0))
    } else if r.recovery_required {
        (r, Err(Error::Denied))
    } else if r.trial is Some {
        (r, Err(Error::Busy))
    } else if r.staged is None {
        (r, Err(Error::Stale))
    } else {
        let st = r.staged->Some_0;
        let previous = r.bindings[5];
        if image_seal == 0 || image_seal != st.seal {
            (r, Err(Error::Stale))
        } else if st.generation == 0 || st.digest@ == Seq::new(32, |i: int| 0u8) || !(1 <= st.signed_budget <= 100) {
            (r, Err(Error::Invalid))
        } else if previous is Some && !alive(r, previous->Some_0) {
            (r, Err(Error::Stale))
        } else if r.processes[5].state != State::Vacant && r.processes[7].state != State::Vacant {
            (r, Err(Error::Busy))
        } else if r.clock == u64::MAX || r.next_token == u64::MAX {
            (r, Err(Error::Exhausted))
        } else {
            let index: int = if r.processes[5].state == State::Vacant { 5 } else { 7 };
            let incarnation = (r.clock + 1) as u64;
            let endpoint = Endpoint { slot: index as u8, incarnation };
            let token = r.next_token;
            let g = grant_spec(r.processes[index].caps, HEALTH_CAP, Object::TrialHealth { endpoint, token }, HEALTH);
            if g.1 is Err {
                (r, Err(g.1->Err_0))
            } else {
                let t = TrialView {
                    token,
                    endpoint,
                    previous,
                    budget: st.signed_budget,
                    signed_budget: st.signed_budget,
                    image_seal,
                    image_digest: st.digest@,
                    image_generation: st.generation,
                };
                (
                    RuntimeView {
                        clock: incarnation,
                        next_token: (r.next_token + 1) as u64,
                        staged: None,
                        processes: r.processes.update(
                            index,
                            ProcessView {
                                state: State::Trial,
                                principal: None,
                                incarnation,
                                caps: g.0,
                                queue: Seq::empty(),
                            },
                        ),
                        trial: Some(t),
                        ..r
                    },
                    Ok(t),
                )
            }
        }
    }
}

/// The one-shot health report of the trial process itself.
pub open spec fn ready_spec(r: RuntimeView, caller: usize, handle: u64, token: u64) -> (RuntimeView, Result<(), Error>) {
    match r.trial {
        None => (r, Err(Error::Stale)),
        Some(t) => if caller >= TASKS {
            (r, Err(Error::Invalid))
        } else {
            let p = r.processes[caller as int];
            if caller != t.endpoint.slot || p.state != State::Trial || p.incarnation != t.endpoint.incarnation || token
                != t.token {
                (r, Err(Error::Denied))
            } else {
                match resolve_spec(p.caps, handle, HEALTH) {
                    Err(e) => (r, Err(e)),
                    Ok(o) => if o != (Object::TrialHealth { endpoint: t.endpoint, token }) {
                        (r, Err(Error::Denied))
                    } else {
                        (
                            RuntimeView {
                                processes: r.processes.update(
                                    caller as int,
                                    ProcessView {
                                        caps: p.caps.update(HEALTH_CAP as int, revoke_cap(p.caps[HEALTH_CAP as int])),
                                        state: State::Healthy,
                                        ..p
                                    },
                                ),
                                ..r
                            },
                            Ok(()),
                        )
                    },
                }
            }
        },
    }
}

/// Sending through a named capability reaches whichever live endpoint the
/// principal is bound to now; the message is stamped with the sender.
pub open spec fn send_spec(r: RuntimeView, caller: usize, handle: u64, bytes: Seq<u8>) -> (RuntimeView, Result<(), Error>) {
    if caller >= TASKS {
        (r, Err(Error::Invalid))
    } else {
        let p = r.processes[caller as int];
        if p.state != State::Active {
            (r, Err(Error::Denied))
        } else {
            match resolve_spec(p.caps, handle, SEND) {
                Err(e) => (r, Err(e)),
                Ok(o) => match o {
                    Object::NamedSend { principal } => if p.principal is None {
                        (r, Err(Error::Denied))
                    } else if r.bindings[principal as int] is None {
                        (r, Err(Error::Stale))
                    } else {
                        let e = r.bindings[principal as int]->Some_0;
                        if !alive(r, e) {
                            (r, Err(Error::Stale))
                        } else if !stamp_ok(p.principal->Some_0, p.incarnation, bytes) {
                            (r, Err(Error::Invalid))
                        } else {
                            let target = r.processes[e.slot as int];
                            let pushed = push_spec(target.queue, stamp_of(p.principal->Some_0, p.incarnation, bytes));
                            (
                                RuntimeView {
                                    processes: r.processes.update(e.slot as int, ProcessView { queue: pushed.0, ..target }),
                                    ..r
                                },
                                pushed.1,
                            )
                        }
                    },
                    _ => (r, Err(Error::Denied)),
                },
            }
        }
    }
}

/// Receiving only through the receive capability for the caller's own
/// current endpoint.
pub open spec fn receive_spec(r: RuntimeView, caller: usize, handle: u64) -> (RuntimeView, Result<Message, Error>) {
    if caller >= TASKS {
        (r, Err(Error::Invalid))
    } else {
        let p = r.processes[caller as int];
        if p.state != State::Active {
            (r, Err(Error::Denied))
        } else {
            match resolve_spec(p.caps, handle, RECEIVE) {
                Err(e) => (r, Err(e)),
                Ok(o) => if o != Object::Receive(Endpoint { slot: caller as u8, incarnation: p.incarnation }) {
                    (r, Err(Error::Denied))
                } else if p.queue.len() == 0 {
                    (r, Err(Error::Empty))
                } else {
                    (
                        RuntimeView {
                            processes: r.processes.update(caller as int, ProcessView { queue: p.queue.drop_first(), ..p }),
                            ..r
                        },
                        Ok(p.queue[0]),
                    )
                },
            }
        }
    }
}

/// The manager abandons the trial with its token; the trial process is
/// destroyed.
pub open spec fn abort_spec(r: RuntimeView, caller: usize, handle: u64, token: u64) -> (RuntimeView, Result<(), Error>) {
    if manager_spec(r, caller, handle) is Err {
        (r, Err(manager_spec(r, caller, handle)->Err_0))
    } else {
        match r.trial {
            None => (r, Err(Error::Stale)),
            Some(t) => if t.token != token {
                (r, Err(Error::Stale))
            } else {
                (RuntimeView { trial: None, ..destroy_spec(r, t.endpoint.slot as int) }, Ok(()))
            },
        }
    }
}

/// The manager switches principal 5 to the healthy trial: only if nothing
/// changed since the trial began, with all grants checked before any
/// mutation; the replaced endpoint is destroyed and the new one receives
/// fresh production capabilities and an empty queue.
pub open spec fn cutover_spec(r: RuntimeView, caller: usize, handle: u64, token: u64) -> (RuntimeView, Result<Cutover, Error>) {
    if manager_spec(r, caller, handle) is Err {
        (r, Err(manager_spec(r, caller, handle)->Err_0))
    } else {
        match r.trial {
            None => (r, Err(Error::Stale)),
            Some(t) => {
                let index = t.endpoint.slot as int;
                let p = r.processes[index];
                if token != t.token || r.bindings[5] != t.previous || p.state != State::Healthy || p.incarnation
                    != t.endpoint.incarnation {
                    (r, Err(Error::Stale))
                } else if t.previous is Some && !alive(r, t.previous->Some_0) {
                    (r, Err(Error::Stale))
                } else {
                    let g1 = grant_spec(p.caps, SELF_CAP, Object::Receive(t.endpoint), RECEIVE);
                    let g2 = grant_spec(g1.0, SHELL_CAP, Object::NamedSend { principal: 0 }, SEND);
                    let g3 = grant_spec(g2.0, COMPOSITOR_CAP, Object::NamedSend { principal: 3 }, SEND);
                    if g1.1 is Err {
                        (r, Err(g1.1->Err_0))
                    } else if g2.1 is Err {
                        (r, Err(g2.1->Err_0))
                    } else if g3.1 is Err {
                        (r, Err(g3.1->Err_0))
                    } else {
                        let r1 = match t.previous {
                            Some(old) => destroy_spec(r, old.slot as int),
                            None => r,
                        };
                        (
                            RuntimeView {
                                processes: r1.processes.update(
                                    index,
                                    ProcessView {
                                        queue: Seq::empty(),
                                        caps: g3.0,
                                        principal: Some(5u8),
                                        state: State::Active,
                                        ..r1.processes[index]
                                    },
                                ),
                                bindings: r1.bindings.update(5, Some(t.endpoint)),
                                trial: None,
                                ..r1
                            },
                            Ok(Cutover { previous: t.previous, current: t.endpoint }),
                        )
                    }
                }
            },
        }
    }
}

/// A timer tick charged to an endpoint named by the saved context: only the
/// trial's current incarnation, while still on trial, spends its budget; the
/// trial is destroyed when the budget runs out. Delayed ticks for a reused
/// slot are refused.
pub open spec fn preempt_spec(r: RuntimeView, endpoint: Endpoint, token: u64) -> (RuntimeView, Result<bool, Error>) {
    let slot = endpoint.slot as int;
    if slot >= TASKS {
        (r, Err(Error::Invalid))
    } else if r.processes[slot].state == State::Vacant || r.processes[slot].incarnation != endpoint.incarnation {
        (r, Err(Error::Stale))
    } else {
        match r.trial {
            None => (r, Ok(false)),
            Some(t) => if endpoint != t.endpoint {
                (r, Ok(false))
            } else if token != t.token {
                (r, Err(Error::Stale))
            } else if r.processes[slot].state != State::Trial {
                (r, Ok(false))
            } else if t.budget == 1 {
                (RuntimeView { trial: None, ..destroy_spec(r, slot) }, Ok(true))
            } else {
                (RuntimeView { trial: Some(TrialView { budget: (t.budget - 1) as u32, ..t }), ..r }, Ok(false))
            },
        }
    }
}

/// A fault of an endpoint named by the saved context destroys it. A fault of
/// the manager also cancels any trial and the staged image and requires
/// controlled recovery; a fault of the trial process ends the trial.
pub open spec fn fault_spec(r: RuntimeView, endpoint: Endpoint) -> (RuntimeView, Result<(), Error>) {
    let slot = endpoint.slot as int;
    if slot >= TASKS {
        (r, Err(Error::Invalid))
    } else if r.processes[slot].state == State::Vacant || r.processes[slot].incarnation != endpoint.incarnation {
        (r, Err(Error::Stale))
    } else {
        let r1 = if r.processes[slot].principal == Some(8u8) {
            let r0 = match r.trial {
                Some(t) => destroy_spec(r, t.endpoint.slot as int),
                None => r,
            };
            RuntimeView { trial: None, staged: None, recovery_required: true, ..r0 }
        } else if r.trial matches Some(t) && t.endpoint == endpoint {
            RuntimeView { trial: None, ..r }
        } else {
            r
        };
        (destroy_spec(r1, slot), Ok(()))
    }
}

/// Processes of the initial graph: slots 0 to 9 except 7.
pub open spec fn initial_active(i: int) -> bool {
    0 <= i <= 9 && i != 7
}

/// Capability `k` of process `i` in the initial graph: each active process
/// receives on its own endpoint; the manager (8) holds the manager
/// capability; settings (5) may send to the shell (0) and the compositor
/// (3); the shell may send to whichever endpoint principal 5 is bound to,
/// and files (1) to the storage principal (4).
pub open spec fn initial_cap(i: int, k: int) -> Cap {
    if initial_active(i) && k == SELF_CAP {
        Cap {
            generation: 1,
            rights: RECEIVE,
            object: Object::Receive(Endpoint { slot: i as u8, incarnation: 1 }),
            retired: false,
        }
    } else if i == 8 && k == MANAGER_CAP {
        Cap { generation: 1, rights: MANAGE, object: Object::Manager, retired: false }
    } else if i == 5 && k == SHELL_CAP {
        Cap { generation: 1, rights: SEND, object: Object::NamedSend { principal: 0 }, retired: false }
    } else if i == 5 && k == COMPOSITOR_CAP {
        Cap { generation: 1, rights: SEND, object: Object::NamedSend { principal: 3 }, retired: false }
    } else if i == 0 && k == 5 {
        Cap { generation: 1, rights: SEND, object: Object::NamedSend { principal: 5 }, retired: false }
    } else if i == 1 && k == 4 {
        Cap { generation: 1, rights: SEND, object: Object::NamedSend { principal: 4 }, retired: false }
    } else {
        empty_cap()
    }
}

/// The initial model graph.
pub open spec fn initial_runtime(r: RuntimeView) -> bool {
    &&& r.clock == 1
    &&& r.next_token == 1
    &&& r.trial is None
    &&& r.staged is None
    &&& !r.recovery_required
    &&& forall|i: int|
        0 <= i < PRINCIPALS ==> #[trigger] r.bindings[i] == if initial_active(i) {
            Some(Endpoint { slot: i as u8, incarnation: 1 })
        } else {
            None
        }
    &&& forall|i: int|
        0 <= i < TASKS ==> {
            let p = #[trigger] r.processes[i];
            &&& p.state == if initial_active(i) { State::Active } else { State::Vacant }
            &&& p.principal == if initial_active(i) { Some(i as u8) } else { None }
            &&& p.incarnation == if initial_active(i) { 1u64 } else { 0u64 }
            &&& p.queue.len() == 0
            &&& p.caps == Seq::new(CAP_SLOTS as nat, |k: int| initial_cap(i, k))
        }
}

/// Process `i` of the initial graph.
pub open spec fn initial_process_view(i: int) -> ProcessView {
    ProcessView {
        state: if initial_active(i) { State::Active } else { State::Vacant },
        principal: if initial_active(i) { Some(i as u8) } else { None },
        incarnation: if initial_active(i) { 1u64 } else { 0u64 },
        caps: Seq::new(CAP_SLOTS as nat, |k: int| initial_cap(i, k)),
        queue: Seq::empty(),
    }
}

fn initial_process(i: usize) -> (p: Process)
    requires
        i < TASKS,
    ensures
        p@ == initial_process_view(i as int),
        p.queue.wf(),
{
    let active = i <= 9 && i != 7;
    let mut caps = Caps::new();
    if active {
        let _ = caps.grant(SELF_CAP, Object::Receive(Endpoint { slot: i as u8, incarnation: 1 }), RECEIVE);
    }
    if i == 8 {
        let _ = caps.grant(MANAGER_CAP, Object::Manager, MANAGE);
    }
    if i == 5 {
        let _ = caps.grant(SHELL_CAP, Object::NamedSend { principal: 0 }, SEND);
        let _ = caps.grant(COMPOSITOR_CAP, Object::NamedSend { principal: 3 }, SEND);
    }
    if i == 0 {
        let _ = caps.grant(5, Object::NamedSend { principal: 5 }, SEND);
    }
    if i == 1 {
        let _ = caps.grant(4, Object::NamedSend { principal: 4 }, SEND);
    }
    proof {
        assert(caps@ =~= Seq::new(CAP_SLOTS as nat, |k: int| initial_cap(i as int, k)));
    }
    let p = Process {
        state: if active { State::Active } else { State::Vacant },
        principal: if active { Some(i as u8) } else { None },
        incarnation: if active { 1 } else { 0 },
        caps,
        queue: Queue::new(),
    };
    proof {
        assert(p@.caps =~= initial_process_view(i as int).caps);
    }
    p
}

fn initial_binding(i: usize) -> (b: Option<Endpoint>)
    ensures
        b == if initial_active(i as int) { Some(Endpoint { slot: i as u8, incarnation: 1 }) } else { None },
{
    if i <= 9 && i != 7 {
        Some(Endpoint { slot: i as u8, incarnation: 1 })
    } else {
        None
    }
}

fn all_zero(digest: &[u8; 32]) -> (r: bool)
    ensures
        r == (digest@ == Seq::new(32, |i: int| 0u8)),
{
    let mut i: usize = 0;
    while i < 32
        invariant
            i <= 32,
            forall|k: int| 0 <= k < i ==> digest@[k] == 0,
        decreases 32 - i,
    {
        if digest[i] != 0 {
            proof {
                assert(digest@[i as int] != Seq::new(32, |i: int| 0u8)[i as int]);
            }
            return false;
        }
        i = i + 1;
    }
    proof {
        assert(digest@ =~= Seq::new(32, |i: int| 0u8));
    }
    true
}

impl Runtime {
    /// Well-formedness of the whole state, representation included.
    pub closed spec fn wf(&self) -> bool {
        &&& runtime_wf(self@)
        &&& forall|i: int| 0 <= i < TASKS ==> #[trigger] self.processes@[i].queue.wf()
    }

    proof fn lemma_view(&self, i: int)
        requires
            0 <= i < TASKS,
        ensures
            self@.processes[i] == self.processes@[i]@,
            self@.processes.len() == TASKS,
    {
    }

    /// The initial model graph, before a real kernel connects process
    /// construction.
    pub fn new() -> (r: Self)
        ensures
            r.wf(),
            initial_runtime(r@),
    {
        let r = Runtime {
            processes: [
                initial_process(0),
                initial_process(1),
                initial_process(2),
                initial_process(3),
                initial_process(4),
                initial_process(5),
                initial_process(6),
                initial_process(7),
                initial_process(8),
                initial_process(9),
                initial_process(10),
                initial_process(11),
                initial_process(12),
                initial_process(13),
                initial_process(14),
                initial_process(15),
            ],
            bindings: [
                initial_binding(0),
                initial_binding(1),
                initial_binding(2),
                initial_binding(3),
                initial_binding(4),
                initial_binding(5),
                initial_binding(6),
                initial_binding(7),
                initial_binding(8),
                initial_binding(9),
            ],
            clock: 1,
            next_token: 1,
            trial: None,
            staged: None,
            recovery_required: false,
        };
        proof {
            assert forall|k: int| 0 <= k < TASKS implies #[trigger] r@.processes[k] == initial_process_view(k) by {
                assert(r@.processes[k] == r.processes@[k]@);
            }
            assert forall|k: int| 0 <= k < TASKS implies #[trigger] r.processes@[k].queue.wf() by {
                assert(r@.processes[k] == r.processes@[k]@);
            }
        }
        r
    }

    pub fn recovery_required(&self) -> (r: bool)
        ensures
            r == self@.recovery_required,
    {
        self.recovery_required
    }

    /// The endpoint a principal is bound to.
    pub fn binding(&self, principal: usize) -> (r: Result<Option<Endpoint>, Error>)
        ensures
            principal < PRINCIPALS ==> r == Ok::<Option<Endpoint>, Error>(self@.bindings[principal as int]),
            principal >= PRINCIPALS ==> r == Err::<Option<Endpoint>, Error>(Error::Invalid),
    {
        if principal >= PRINCIPALS {
            return Err(Error::Invalid);
        }
        Ok(self.bindings[principal])
    }

    pub fn state(&self, slot: usize) -> (r: Result<State, Error>)
        ensures
            slot < TASKS ==> r == Ok::<State, Error>(self@.processes[slot as int].state),
            slot >= TASKS ==> r == Err::<State, Error>(Error::Invalid),
    {
        if slot >= TASKS {
            return Err(Error::Invalid);
        }
        Ok(self.processes[slot].state)
    }

    /// The handle currently naming capability `index` of process `slot`.
    pub fn handle(&self, slot: usize, index: usize) -> (r: Result<u64, Error>)
        ensures
            slot < TASKS ==> r == handle_spec(self@.processes[slot as int].caps, index),
            slot >= TASKS ==> r == Err::<u64, Error>(Error::Invalid),
    {
        if slot >= TASKS {
            return Err(Error::Invalid);
        }
        self.processes[slot].caps.handle(index)
    }

    fn manager(&self, caller: usize, handle: u64) -> (r: Result<(), Error>)
        requires
            self.wf(),
        ensures
            r == manager_spec(self@, caller, handle),
    {
        if caller >= TASKS {
            return Err(Error::Invalid);
        }
        let p = self.processes[caller];
        proof {
            self.lemma_view(caller as int);
        }
        if p.state != State::Active || p.principal != Some(8u8) {
            return Err(Error::Denied);
        }
        match p.caps.resolve(handle, MANAGE) {
            Err(e) => Err(e),
            Ok(o) => if o != Object::Manager {
                Err(Error::Denied)
            } else {
                Ok(())
            },
        }
    }

    fn endpoint_alive(&self, e: Endpoint) -> (r: bool)
        requires
            self.wf(),
        ensures
            r == alive(self@, e),
    {
        let slot = e.slot as usize;
        if slot >= TASKS {
            return false;
        }
        proof {
            self.lemma_view(slot as int);
        }
        self.processes[slot].state == State::Active && self.processes[slot].incarnation == e.incarnation
    }

    fn destroy(&mut self, index: usize)
        requires
            old(self).wf(),
            index < TASKS,
        ensures
            final(self).wf(),
            final(self)@ == destroy_spec(old(self)@, index as int),
            final(self).clock == old(self).clock && final(self).next_token == old(self).next_token,
            final(self).trial == old(self).trial && final(self).staged == old(self).staged,
    {
        let ghost r0 = self@;
        proof {
            self.lemma_view(index as int);
        }
        let p = self.processes[index];
        match p.principal {
            Some(x) => {
                let inc = p.incarnation;
                let mine = match self.bindings[x as usize] {
                    Some(e) => e.slot == index as u8 && e.incarnation == inc,
                    None => false,
                };
                if mine {
                    self.bindings[x as usize] = None;
                }
                let ghost b1 = self@.bindings;
                proof {
                    assert(b1 =~= (if r0.bindings[x as int] == Some(Endpoint { slot: index as u8, incarnation: inc }) {
                        r0.bindings.update(x as int, None)
                    } else {
                        r0.bindings
                    }));
                }
                let mut j: usize = 0;
                while j < TASKS
                    invariant
                        j <= TASKS,
                        self@.bindings == b1,
                        self.clock == old(self).clock && self.next_token == old(self).next_token,
                        self.trial == old(self).trial && self.staged == old(self).staged,
                        self.recovery_required == old(self).recovery_required,
                        r0 == old(self)@,
                        runtime_wf(r0),
                        forall|k: int| 0 <= k < TASKS ==> #[trigger] self.processes@[k].queue.wf(),
                        forall|k: int|
                            0 <= k < j ==> #[trigger] self.processes@[k]@ == (ProcessView {
                                queue: purge_spec(r0.processes[k].queue, x, inc),
                                ..r0.processes[k]
                            }),
                        forall|k: int| j <= k < TASKS ==> #[trigger] self.processes@[k]@ == r0.processes[k],
                    decreases TASKS - j,
                {
                    let mut q = self.processes[j];
                    let ghost q0 = q@;
                    q.queue.purge(x, inc);
                    proof {
                        assert(q@ =~= ProcessView { queue: purge_spec(q0.queue, x, inc), ..q0 });
                    }
                    self.processes[j] = q;
                    j = j + 1;
                }
                proof {
                    assert(self@.processes =~= r0.processes.map_values(
                        |q: ProcessView| ProcessView { queue: purge_spec(q.queue, x, inc), ..q },
                    ));
                }
            },
            None => {},
        }
        let ghost r1 = self@;
        let mut q = self.processes[index];
        q.state = State::Vacant;
        q.principal = None;
        q.queue = Queue::new();
        q.caps.revoke_all();
        self.processes[index] = q;
        proof {
            assert(self@.processes =~= r1.processes.update(
                index as int,
                ProcessView {
                    state: State::Vacant,
                    principal: None,
                    queue: Seq::empty(),
                    caps: p@.caps.map_values(|s: Cap| revoke_cap(s)),
                    ..r1.processes[index as int]
                },
            ));
            assert forall|k: int| 0 <= k < TASKS implies caps_wf(#[trigger] self@.processes[k].caps) by {
                assert(self@.processes[k] == self.processes@[k]@);
                if k != index {
                    assert(self.processes@[k]@.caps == r0.processes[k].caps);
                }
            }
        }
    }

    /// Starts a trial of the staged image; see `begin_trial_spec`. No caller
    /// budget is accepted: the bound and the image identity come from the
    /// kernel-owned staged record.
    pub fn begin_trial(&mut self, caller: usize, handle: u64, image_seal: u64) -> (r: Result<Trial, Error>)
        requires
            old(self).wf(),
        ensures
            final(self).wf(),
            final(self)@ == begin_trial_spec(old(self)@, caller, handle, image_seal).0,
            match r {
                Ok(t) => begin_trial_spec(old(self)@, caller, handle, image_seal).1 == Ok::<TrialView, Error>(t@),
                Err(e) => begin_trial_spec(old(self)@, caller, handle, image_seal).1 == Err::<TrialView, Error>(e),
            },
    {
        match self.manager(caller, handle) {
            Err(e) => return Err(e),
            Ok(()) => {},
        }
        if self.recovery_required {
            return Err(Error::Denied);
        }
        if self.trial.is_some() {
            return Err(Error::Busy);
        }
        let stage = match self.staged {
            Some(s) => s,
            None => return Err(Error::Stale),
        };
        if image_seal == 0 || image_seal != stage.seal {
            return Err(Error::Stale);
        }
        if stage.generation == 0 || all_zero(&stage.digest) || !(1 <= stage.signed_budget && stage.signed_budget <= 100) {
            return Err(Error::Invalid);
        }
        let budget = stage.signed_budget;
        let previous = self.bindings[5];
        match previous {
            Some(e) => if !self.endpoint_alive(e) {
                return Err(Error::Stale);
            },
            None => {},
        }
        proof {
            self.lemma_view(5);
            self.lemma_view(7);
        }
        let index: usize = if self.processes[5].state == State::Vacant {
            5
        } else if self.processes[7].state == State::Vacant {
            7
        } else {
            return Err(Error::Busy);
        };
        if self.clock == u64::MAX || self.next_token == u64::MAX {
            return Err(Error::Exhausted);
        }
        let incarnation = self.clock + 1;
        let next_token = self.next_token + 1;
        let endpoint = Endpoint { slot: index as u8, incarnation };
        let token = self.next_token;
        let mut caps = self.processes[index].caps;
        match caps.grant(HEALTH_CAP, Object::TrialHealth { endpoint, token }, HEALTH) {
            Err(e) => return Err(e),
            Ok(_) => {},
        }
        let trial = Trial {
            token,
            endpoint,
            previous,
            budget,
            signed_budget: budget,
            image_seal,
            image_digest: stage.digest,
            image_generation: stage.generation,
        };
        let ghost r0 = self@;
        self.clock = incarnation;
        self.next_token = next_token;
        self.staged = None;
        self.processes[index] = Process { state: State::Trial, principal: None, incarnation, caps, queue: Queue::new() };
        self.trial = Some(trial);
        proof {
            assert(self@.processes =~= r0.processes.update(
                index as int,
                ProcessView { state: State::Trial, principal: None, incarnation, caps: caps@, queue: Seq::empty() },
            ));
            assert forall|k: int| 0 <= k < TASKS implies #[trigger] self.processes@[k].queue.wf() by {
                assert(self@.processes[k] == self.processes@[k]@);
            }
            assert forall|k: int| 0 <= k < TASKS implies caps_wf(#[trigger] self@.processes[k].caps) by {
                assert(self@.processes[k] == self.processes@[k]@);
            }
        }
        Ok(trial)
    }

    /// The trial process's one-shot health report.
    pub fn ready(&mut self, caller: usize, handle: u64, token: u64) -> (r: Result<(), Error>)
        requires
            old(self).wf(),
        ensures
            final(self).wf(),
            final(self)@ == ready_spec(old(self)@, caller, handle, token).0,
            r == ready_spec(old(self)@, caller, handle, token).1,
    {
        let trial = match self.trial {
            Some(t) => t,
            None => return Err(Error::Stale),
        };
        if caller >= TASKS {
            return Err(Error::Invalid);
        }
        proof {
            self.lemma_view(caller as int);
        }
        let mut p = self.processes[caller];
        if caller != trial.endpoint.slot as usize || p.state != State::Trial || p.incarnation != trial.endpoint.incarnation
            || token != trial.token {
            return Err(Error::Denied);
        }
        match p.caps.resolve(handle, HEALTH) {
            Err(e) => return Err(e),
            Ok(o) => if o != (Object::TrialHealth { endpoint: trial.endpoint, token }) {
                return Err(Error::Denied);
            },
        }
        let ghost r0 = self@;
        let _ = p.caps.revoke(HEALTH_CAP);
        p.state = State::Healthy;
        self.processes[caller] = p;
        proof {
            assert(self@.processes =~= r0.processes.update(caller as int, p@));
            assert forall|k: int| 0 <= k < TASKS implies #[trigger] self.processes@[k].queue.wf() by {
                assert(self@.processes[k] == self.processes@[k]@);
            }
            assert forall|k: int| 0 <= k < TASKS implies caps_wf(#[trigger] self@.processes[k].caps) by {
                assert(self@.processes[k] == self.processes@[k]@);
            }
        }
        Ok(())
    }

    /// Sends through a named capability; see `send_spec`.
    pub fn send(&mut self, caller: usize, handle: u64, bytes: &[u8]) -> (r: Result<(), Error>)
        requires
            old(self).wf(),
        ensures
            final(self).wf(),
            final(self)@ == send_spec(old(self)@, caller, handle, bytes@).0,
            r == send_spec(old(self)@, caller, handle, bytes@).1,
    {
        if caller >= TASKS {
            return Err(Error::Invalid);
        }
        proof {
            self.lemma_view(caller as int);
        }
        let p = self.processes[caller];
        if p.state != State::Active {
            return Err(Error::Denied);
        }
        let principal = match p.caps.resolve(handle, SEND) {
            Err(e) => return Err(e),
            Ok(Object::NamedSend { principal }) => principal,
            Ok(_) => return Err(Error::Denied),
        };
        let sender = match p.principal {
            Some(x) => x,
            None => return Err(Error::Denied),
        };
        let e = match self.bindings[principal as usize] {
            Some(e) => e,
            None => return Err(Error::Stale),
        };
        if !self.endpoint_alive(e) {
            return Err(Error::Stale);
        }
        let m = match Message::stamp(sender, p.incarnation, bytes) {
            Ok(m) => m,
            Err(err) => return Err(err),
        };
        let slot = e.slot as usize;
        proof {
            self.lemma_view(slot as int);
        }
        let ghost r0 = self@;
        let mut target = self.processes[slot];
        let pushed = target.queue.push(m);
        self.processes[slot] = target;
        proof {
            assert(self@.processes =~= r0.processes.update(slot as int, target@));
            assert forall|k: int| 0 <= k < TASKS implies #[trigger] self.processes@[k].queue.wf() by {
                assert(self@.processes[k] == self.processes@[k]@);
            }
            assert forall|k: int| 0 <= k < TASKS implies caps_wf(#[trigger] self@.processes[k].caps) by {
                assert(self@.processes[k] == self.processes@[k]@);
            }
        }
        pushed
    }

    /// Receives on the caller's own endpoint; see `receive_spec`.
    pub fn receive(&mut self, caller: usize, handle: u64) -> (r: Result<Message, Error>)
        requires
            old(self).wf(),
        ensures
            final(self).wf(),
            final(self)@ == receive_spec(old(self)@, caller, handle).0,
            r == receive_spec(old(self)@, caller, handle).1,
    {
        if caller >= TASKS {
            return Err(Error::Invalid);
        }
        proof {
            self.lemma_view(caller as int);
        }
        let mut p = self.processes[caller];
        if p.state != State::Active {
            return Err(Error::Denied);
        }
        let expected = Object::Receive(Endpoint { slot: caller as u8, incarnation: p.incarnation });
        match p.caps.resolve(handle, RECEIVE) {
            Err(e) => return Err(e),
            Ok(o) => if o != expected {
                return Err(Error::Denied);
            },
        }
        let ghost r0 = self@;
        let m = p.queue.pop();
        if m.is_err() {
            return m;
        }
        self.processes[caller] = p;
        proof {
            assert(self@.processes =~= r0.processes.update(caller as int, p@));
            assert forall|k: int| 0 <= k < TASKS implies #[trigger] self.processes@[k].queue.wf() by {
                assert(self@.processes[k] == self.processes@[k]@);
            }
            assert forall|k: int| 0 <= k < TASKS implies caps_wf(#[trigger] self@.processes[k].caps) by {
                assert(self@.processes[k] == self.processes@[k]@);
            }
        }
        m
    }

    /// The manager abandons the trial; see `abort_spec`.
    pub fn abort(&mut self, caller: usize, handle: u64, token: u64) -> (r: Result<(), Error>)
        requires
            old(self).wf(),
        ensures
            final(self).wf(),
            final(self)@ == abort_spec(old(self)@, caller, handle, token).0,
            r == abort_spec(old(self)@, caller, handle, token).1,
    {
        match self.manager(caller, handle) {
            Err(e) => return Err(e),
            Ok(()) => {},
        }
        let t = match self.trial {
            Some(t) => t,
            None => return Err(Error::Stale),
        };
        if t.token != token {
            return Err(Error::Stale);
        }
        self.destroy(t.endpoint.slot as usize);
        self.trial = None;
        Ok(())
    }

    /// Switches principal 5 to the healthy trial; see `cutover_spec`. The
    /// real caller must run with interrupts disabled and finish process
    /// sealing first; this switches model bindings, capabilities and queues,
    /// not durable storage.
    pub fn cutover(&mut self, caller: usize, handle: u64, token: u64) -> (r: Result<Cutover, Error>)
        requires
            old(self).wf(),
        ensures
            final(self).wf(),
            final(self)@ == cutover_spec(old(self)@, caller, handle, token).0,
            r == cutover_spec(old(self)@, caller, handle, token).1,
    {
        match self.manager(caller, handle) {
            Err(e) => return Err(e),
            Ok(()) => {},
        }
        let t = match self.trial {
            Some(t) => t,
            None => return Err(Error::Stale),
        };
        let index = t.endpoint.slot as usize;
        proof {
            self.lemma_view(index as int);
        }
        let same_previous = match (self.bindings[5], t.previous) {
            (Some(a), Some(b)) => a == b,
            (None, None) => true,
            _ => false,
        };
        if token != t.token || !same_previous || self.processes[index].state != State::Healthy
            || self.processes[index].incarnation != t.endpoint.incarnation {
            return Err(Error::Stale);
        }
        match t.previous {
            Some(e) => if !self.endpoint_alive(e) {
                return Err(Error::Stale);
            },
            None => {},
        }
        let mut caps = self.processes[index].caps;
        match caps.grant(SELF_CAP, Object::Receive(t.endpoint), RECEIVE) {
            Err(e) => return Err(e),
            Ok(_) => {},
        }
        match caps.grant(SHELL_CAP, Object::NamedSend { principal: 0 }, SEND) {
            Err(e) => return Err(e),
            Ok(_) => {},
        }
        match caps.grant(COMPOSITOR_CAP, Object::NamedSend { principal: 3 }, SEND) {
            Err(e) => return Err(e),
            Ok(_) => {},
        }
        match t.previous {
            Some(old) => self.destroy(old.slot as usize),
            None => {},
        }
        let ghost r1 = self@;
        proof {
            self.lemma_view(index as int);
        }
        let mut p = self.processes[index];
        p.queue = Queue::new();
        p.caps = caps;
        p.principal = Some(5);
        p.state = State::Active;
        self.processes[index] = p;
        self.bindings[5] = Some(t.endpoint);
        self.trial = None;
        proof {
            assert(self@.processes =~= r1.processes.update(index as int, p@));
            assert(self@.bindings =~= r1.bindings.update(5, Some(t.endpoint)));
            assert forall|k: int| 0 <= k < TASKS implies #[trigger] self.processes@[k].queue.wf() by {
                assert(self@.processes[k] == self.processes@[k]@);
            }
            assert forall|k: int| 0 <= k < TASKS implies caps_wf(#[trigger] self@.processes[k].caps) by {
                assert(self@.processes[k] == self.processes@[k]@);
            }
        }
        Ok(Cutover { previous: t.previous, current: t.endpoint })
    }

    /// A timer tick for the endpoint named by the saved context; see
    /// `preempt_spec`.
    pub fn preempt(&mut self, endpoint: Endpoint, token: u64) -> (r: Result<bool, Error>)
        requires
            old(self).wf(),
        ensures
            final(self).wf(),
            final(self)@ == preempt_spec(old(self)@, endpoint, token).0,
            r == preempt_spec(old(self)@, endpoint, token).1,
    {
        let slot = endpoint.slot as usize;
        if slot >= TASKS {
            return Err(Error::Invalid);
        }
        proof {
            self.lemma_view(slot as int);
        }
        let process = self.processes[slot];
        if process.state == State::Vacant || process.incarnation != endpoint.incarnation {
            return Err(Error::Stale);
        }
        let mut t = match self.trial {
            Some(t) => t,
            None => return Ok(false),
        };
        if endpoint != t.endpoint {
            return Ok(false);
        }
        if token != t.token {
            return Err(Error::Stale);
        }
        if process.state != State::Trial {
            return Ok(false);
        }
        if t.budget == 1 {
            self.destroy(slot);
            self.trial = None;
            return Ok(true);
        }
        t.budget = t.budget - 1;
        self.trial = Some(t);
        Ok(false)
    }

    /// A fault of the endpoint named by the saved context; see `fault_spec`.
    pub fn fault(&mut self, endpoint: Endpoint) -> (r: Result<(), Error>)
        requires
            old(self).wf(),
        ensures
            final(self).wf(),
            final(self)@ == fault_spec(old(self)@, endpoint).0,
            r == fault_spec(old(self)@, endpoint).1,
    {
        let slot = endpoint.slot as usize;
        if slot >= TASKS {
            return Err(Error::Invalid);
        }
        proof {
            self.lemma_view(slot as int);
        }
        let process = self.processes[slot];
        if process.state == State::Vacant || process.incarnation != endpoint.incarnation {
            return Err(Error::Stale);
        }
        if process.principal == Some(8u8) {
            match self.trial {
                Some(t) => self.destroy(t.endpoint.slot as usize),
                None => {},
            }
            self.trial = None;
            self.staged = None;
            self.recovery_required = true;
        } else {
            match self.trial {
                Some(t) => if t.endpoint == endpoint {
                    self.trial = None;
                },
                None => {},
            }
        }
        self.destroy(slot);
        Ok(())
    }
}

impl Default for Runtime {
    fn default() -> (r: Self)
        ensures
            r.wf(),
            initial_runtime(r@),
    {
        Runtime::new()
    }
}

/// A granted handle resolves to its object through the right it was granted.
pub proof fn law_granted_handle_resolves(caps: Seq<Cap>, index: usize, object: Object, rights: u8)
    requires
        caps.len() == CAP_SLOTS,
        grant_spec(caps, index, object, rights).1 is Ok,
    ensures
        resolve_spec(grant_spec(caps, index, object, rights).0, grant_spec(caps, index, object, rights).1->Ok_0, rights)
            == Ok::<Object, Error>(object),
{
    let h = grant_spec(caps, index, object, rights).1->Ok_0;
    let g = caps[index as int].generation as int;
    assert(h as int == g * 0x1_0000_0000 + index + 1);
    assert(h as int % 0x1_0000_0000 == index + 1);
    assert(h as int / 0x1_0000_0000 == g);
    assert(rights & rights == rights) by (bit_vector);
    assert(rights != 0);
}

/// Law: in a fresh table, a grant in any slot succeeds exactly for a valid
/// object with its one right, and the handle is generation one's handle for
/// that slot, which resolves to the object; an invalid object is refused as
/// invalid, a valid one with other rights as denied.
pub proof fn law_fresh_grant(index: usize, object: Object, rights: u8)
    requires
        index < CAP_SLOTS,
    ensures
        ({
            let caps = Seq::new(12, |i: int| empty_cap());
            let (after, r) = grant_spec(caps, index, object, rights);
            &&& right_for(object) is None ==> r == Err::<u64, Error>(Error::Invalid)
            &&& (right_for(object) is Some && rights != right_for(object)->Some_0) ==> r == Err::<u64, Error>(
                Error::Denied,
            )
            &&& right_for(object) == Some(rights) ==> {
                &&& r == Ok::<u64, Error>((0x1_0000_0000 + index + 1) as u64)
                &&& resolve_spec(after, r->Ok_0, rights) == Ok::<Object, Error>(object)
            }
        }),
{
    let caps = Seq::new(12, |i: int| empty_cap());
    if right_for(object) == Some(rights) {
        law_granted_handle_resolves(caps, index, object, rights);
    }
}

/// A handle issued before its slot was revoked never resolves again: the
/// generation moved on or the slot is retired.
pub proof fn law_revoked_handle_is_stale(caps: Seq<Cap>, index: usize, handle: u64, right: u8)
    requires
        caps.len() == CAP_SLOTS,
        index < CAP_SLOTS,
        handle as int % 0x1_0000_0000 == index + 1,
        handle as int / 0x1_0000_0000 == caps[index as int].generation,
    ensures
        resolve_spec(caps.update(index as int, revoke_cap(caps[index as int])), handle, right) == Err::<Object, Error>(
            Error::Stale,
        ),
{
}

/// Events for an endpoint that is not the current incarnation of its slot
/// (a delayed timer or fault from before the slot was reused) are refused
/// and change nothing.
pub proof fn law_stale_events_change_nothing(r: RuntimeView, endpoint: Endpoint, token: u64)
    requires
        runtime_wf(r),
        (endpoint.slot as int) < TASKS,
        r.processes[endpoint.slot as int].incarnation != endpoint.incarnation,
    ensures
        preempt_spec(r, endpoint, token) == (r, Err::<bool, Error>(Error::Stale)),
        fault_spec(r, endpoint) == (r, Err::<(), Error>(Error::Stale)),
{
}

/// A successful cutover binds principal 5 to the trial endpoint, which is
/// now active with the production capabilities and an empty queue, and no
/// trial remains.
pub proof fn law_cutover_rebinds(r: RuntimeView, caller: usize, handle: u64, token: u64)
    requires
        runtime_wf(r),
        cutover_spec(r, caller, handle, token).1 is Ok,
    ensures
        ({
            let t = r.trial->Some_0;
            let after = cutover_spec(r, caller, handle, token).0;
            &&& after.bindings[5] == Some(t.endpoint)
            &&& alive(after, t.endpoint)
            &&& after.processes[t.endpoint.slot as int].queue.len() == 0
            &&& after.trial is None
        }),
{
}

/// The state after `n` timer ticks charged to one endpoint with one token.
pub open spec fn preempt_times(r: RuntimeView, endpoint: Endpoint, token: u64, n: nat) -> RuntimeView
    decreases n,
{
    if n == 0 {
        r
    } else {
        preempt_spec(preempt_times(r, endpoint, token, (n - 1) as nat), endpoint, token).0
    }
}

proof fn lemma_preempt_times(r: RuntimeView, j: nat)
    requires
        r.trial is Some,
        (r.trial->Some_0.endpoint.slot as int) < TASKS,
        r.processes[r.trial->Some_0.endpoint.slot as int].state == State::Trial,
        r.processes[r.trial->Some_0.endpoint.slot as int].incarnation == r.trial->Some_0.endpoint.incarnation,
        j < r.trial->Some_0.budget,
    ensures
        ({
            let t = r.trial->Some_0;
            preempt_times(r, t.endpoint, t.token, j) == (RuntimeView {
                trial: Some(TrialView { budget: (t.budget - j) as u32, ..t }),
                ..r
            })
        }),
    decreases j,
{
    let t = r.trial->Some_0;
    if j == 0 {
        assert(preempt_times(r, t.endpoint, t.token, j) =~= (RuntimeView {
            trial: Some(TrialView { budget: (t.budget - j) as u32, ..t }),
            ..r
        }));
    } else {
        lemma_preempt_times(r, (j - 1) as nat);
    }
}

/// A trial's signed budget is spent one tick at a time: of the ticks charged
/// to the trial endpoint with its token while it is still on trial, the
/// first `budget - 1` answer `false` and leave it running with one tick less
/// each, and the last answers `true`, vacates its slot and ends the trial.
/// A tick for the same endpoint under another token is refused as stale and
/// changes nothing.
pub proof fn law_trial_budget_consumed(r: RuntimeView, k: nat, other: u64)
    requires
        runtime_wf(r),
        r.trial is Some,
        r.processes[r.trial->Some_0.endpoint.slot as int].state == State::Trial,
        r.processes[r.trial->Some_0.endpoint.slot as int].incarnation == r.trial->Some_0.endpoint.incarnation,
        1 <= k <= r.trial->Some_0.budget,
        other != r.trial->Some_0.token,
    ensures
        ({
            let t = r.trial->Some_0;
            let before = preempt_times(r, t.endpoint, t.token, (k - 1) as nat);
            let (after, answer) = preempt_spec(before, t.endpoint, t.token);
            &&& answer == Ok::<bool, Error>(k == t.budget)
            &&& k < t.budget ==> after.trial == Some(TrialView { budget: (t.budget - k) as u32, ..t })
                && after.processes == r.processes
            &&& k == t.budget ==> after.trial is None && after.processes[t.endpoint.slot as int].state
                == State::Vacant
            &&& preempt_spec(before, t.endpoint, other) == (before, Err::<bool, Error>(Error::Stale))
        }),
{
    lemma_preempt_times(r, (k - 1) as nat);
}

/// The health report is one-shot and only the trial's own: it succeeds only
/// for the trial process calling with its token and its health capability,
/// marks it healthy, and a second report fails; a refused report changes
/// nothing.
pub proof fn law_health_is_one_shot(r: RuntimeView, caller: usize, handle: u64, token: u64)
    requires
        runtime_wf(r),
    ensures
        ({
            let (after, answer) = ready_spec(r, caller, handle, token);
            &&& answer is Err ==> after == r
            &&& answer is Ok ==> {
                let t = r.trial->Some_0;
                &&& r.trial is Some
                &&& caller == t.endpoint.slot && token == t.token
                &&& resolve_spec(r.processes[caller as int].caps, handle, HEALTH) == Ok::<Object, Error>(
                    Object::TrialHealth { endpoint: t.endpoint, token },
                )
                &&& after.processes[caller as int].state == State::Healthy
                &&& ready_spec(after, caller, handle, token).1 is Err
            }
        }),
{
}

} // verus!
