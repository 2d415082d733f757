//! Private file IPC between the store server and its clients: request ids
//! correlate replies within one live service epoch, are never reused, and
//! a lost reply to a mutation locks further writes.
use vstd::prelude::*;
use crate::store::{self, Failure, Store, StoreView, Step, decode_spec, process_spec, published, status_bytes, store_wf, store_name_ok};
use crate::vault::{Block, all_zero, precedes, zero_bytes};
use crate::platform_store::{CREATE, WRITE, READ, LIST, OK, INVALID, NOT_FOUND, EXISTS, QUOTA};
use crate::le::{le64, le_bytes, read64, put_le, lemma_le_bytes_len};

verus! {

pub const DEADLINE_TICKS: u64 = 4096;
pub const MESSAGE_BUDGET: u32 = 65536;
pub const READ_ONLY: u8 = 5;
pub const UNAVAILABLE: u8 = 6;
pub const UNCERTAIN: u8 = 7;

/// `RARFIO01`, the tag closing every frame.
pub open spec fn frame_tag() -> Seq<u8> {
    seq![0x52u8, 0x41, 0x52, 0x46, 0x49, 0x4f, 0x30, 0x31]
}

pub open spec fn mutation_spec(op: u8) -> bool {
    op == CREATE || op == WRITE
}

pub fn mutation(op: u8) -> (r: bool)
    ensures
        r == mutation_spec(op),
{
    op == CREATE || op == WRITE
}

/// A frame: an 80-byte body, 32 zero bytes, a nonzero id and the tag; its
/// id and the body padded back to 128 bytes.
pub open spec fn unpack_spec(frame: Seq<u8>) -> Option<(u64, Seq<u8>)> {
    if frame.len() != 128 || frame.subrange(120, 128) != frame_tag() || !all_zero(frame.subrange(80, 112)) || le64(
        frame,
        112,
    ) == 0 {
        None
    } else {
        Some((le64(frame, 112) as u64, frame.take(80) + zero_bytes(48)))
    }
}

/// Framing a body whose last 48 bytes are zero under a nonzero id.
pub open spec fn pack_spec(body: Seq<u8>, id: u64) -> Option<Seq<u8>> {
    if id == 0 || !all_zero(body.subrange(80, 128)) {
        None
    } else {
        Some(body.take(112) + le_bytes(id as int, 8) + frame_tag())
    }
}

fn zero_in(b: &[u8], from: usize, to: usize) -> (r: bool)
    requires
        from <= to <= b@.len(),
    ensures
        r == all_zero(b@.subrange(from as int, to as int)),
{
    let mut i = from;
    while i < to
        invariant
            from <= i <= to <= b@.len(),
            forall|k: int| from <= k < i ==> b@[k] == 0,
        decreases to - i,
    {
        if b[i] != 0 {
            proof {
                assert(b@.subrange(from as int, to as int)[i - from] != 0);
            }
            return false;
        }
        i = i + 1;
    }
    proof {
        assert forall|k: int| 0 <= k < to - from implies #[trigger] b@.subrange(from as int, to as int)[k] == 0 by {
            assert(b@[from + k] == 0);
        }
    }
    true
}

pub fn unpack(frame: &[u8]) -> (r: Option<(u64, [u8; 128])>)
    ensures
        match unpack_spec(frame@) {
            None => r is None,
            Some((id, body)) => r matches Some(x) && x.0 == id && x.1@ == body,
        },
{
    if frame.len() != 128 {
        return None;
    }
    let tag: [u8; 8] = [0x52, 0x41, 0x52, 0x46, 0x49, 0x4f, 0x30, 0x31];
    proof {
        assert(tag@ =~= frame_tag());
    }
    let mut i: usize = 0;
    while i < 8
        invariant
            i <= 8,
            frame@.len() == 128,
            tag@ == frame_tag(),
            forall|k: int| 0 <= k < i ==> frame@[120 + k] == tag@[k],
        decreases 8 - i,
    {
        if frame[120 + i] != tag[i] {
            proof {
                assert(frame@.subrange(120, 128)[i as int] != frame_tag()[i as int]);
            }
            return None;
        }
        i = i + 1;
    }
    proof {
        assert(frame@.subrange(120, 128) =~= frame_tag());
    }
    if !zero_in(frame, 80, 112) {
        return None;
    }
    let id = read64(frame, 112);
    if id == 0 {
        return None;
    }
    let mut body = [0u8; 128];
    let mut j: usize = 0;
    while j < 80
        invariant
            j <= 80,
            frame@.len() == 128,
            forall|k: int| 0 <= k < j ==> body@[k] == frame@[k],
            forall|k: int| j <= k < 128 ==> body@[k] == 0,
        decreases 80 - j,
    {
        body[j] = frame[j];
        j = j + 1;
    }
    proof {
        assert(body@ =~= frame@.take(80) + zero_bytes(48));
    }
    Some((id, body))
}

pub fn pack(body: [u8; 128], id: u64) -> (r: Option<[u8; 128]>)
    ensures
        match pack_spec(body@, id) {
            None => r is None,
            Some(f) => r matches Some(x) && x@ == f,
        },
{
    if id == 0 || !zero_in(&body, 80, 128) {
        return None;
    }
    let mut frame = body;
    put_le(&mut frame, 112, id, 8);
    let tag: [u8; 8] = [0x52, 0x41, 0x52, 0x46, 0x49, 0x4f, 0x30, 0x31];
    let ghost with_id = frame@;
    let mut i: usize = 0;
    while i < 8
        invariant
            i <= 8,
            frame@.len() == 128,
            forall|k: int| 0 <= k < 120 ==> frame@[k] == with_id[k],
            forall|k: int| 0 <= k < i ==> frame@[120 + k] == tag@[k],
        decreases 8 - i,
    {
        frame[120 + i] = tag[i];
        i = i + 1;
    }
    proof {
        lemma_le_bytes_len(id as int, 8);
        assert(with_id.subrange(112, 120) =~= le_bytes(id as int, 8));
        let target = body@.take(112) + le_bytes(id as int, 8) + frame_tag();
        assert forall|k: int| 0 <= k < 128 implies frame@[k] == target[k] by {
            if k < 112 {
                assert(with_id[k] == body@[k]);
            } else if k < 120 {
                assert(with_id[k] == with_id.subrange(112, 120)[k - 112]);
            }
        }
        assert(frame@ =~= target);
    }
    Some(frame)
}

/// Which non-OK statuses a reply to `op` may carry.
pub open spec fn status_allowed(op: u8, status: u8) -> bool {
    if status == INVALID || status == UNAVAILABLE {
        true
    } else if status == NOT_FOUND {
        op == READ || op == WRITE
    } else if status == EXISTS {
        op == CREATE
    } else if status == QUOTA || status == READ_ONLY || status == UNCERTAIN {
        mutation_spec(op)
    } else {
        false
    }
}

/// Walks `k` listed names from `at`: each between one and twelve bytes,
/// within the 80-byte body, a valid file name and strictly after the
/// previous one; where the walk ends.
pub open spec fn list_walk(body: Seq<u8>, at: int, k: nat, prev: Option<Seq<u8>>) -> Option<int>
    decreases k,
{
    if k == 0 {
        Some(at)
    } else {
        let size = body[at] as int;
        let start = at + 1;
        if size == 0 || size > 12 || start + size > 80 {
            None
        } else {
            let name = body.subrange(start, start + size);
            if !store_name_ok(name) || (prev is Some && !precedes(prev->Some_0, name)) {
                None
            } else {
                list_walk(body, start + size, (k - 1) as nat, Some(name))
            }
        }
    }
}

/// A reply body the client accepts for a request of `op`.
pub open spec fn reply_valid_spec(op: u8, body: Seq<u8>) -> bool {
    let status = body[0];
    if status != OK {
        status_allowed(op, status) && all_zero(body.subrange(1, 128))
    } else if op == CREATE || op == WRITE {
        all_zero(body)
    } else if op == READ {
        let size = body[2] as int;
        body[1] == 0 && size <= 64 && all_zero(body.subrange(3, 16)) && all_zero(body.subrange(16 + size, 128))
    } else if op == LIST {
        body[1] <= 4 && body[2] == 0 && body[3] == 0 && match list_walk(body, 4, body[1] as nat, None) {
            None => false,
            Some(at) => all_zero(body.subrange(at, 128)),
        }
    } else {
        false
    }
}

fn status_allowed_exec(op: u8, status: u8) -> (r: bool)
    ensures
        r == status_allowed(op, status),
{
    if status == INVALID || status == UNAVAILABLE {
        true
    } else if status == NOT_FOUND {
        op == READ || op == WRITE
    } else if status == EXISTS {
        op == CREATE
    } else if status == QUOTA || status == READ_ONLY || status == UNCERTAIN {
        mutation(op)
    } else {
        false
    }
}

pub fn reply_valid(op: u8, body: &[u8; 128]) -> (r: bool)
    ensures
        r == reply_valid_spec(op, body@),
{
    let status = body[0];
    if status != OK {
        return status_allowed_exec(op, status) && zero_in(body, 1, 128);
    }
    if op == CREATE || op == WRITE {
        proof {
            assert(body@.subrange(0, 128) =~= body@);
        }
        return zero_in(body, 0, 128);
    }
    if op == READ {
        let size = body[2] as usize;
        return body[1] == 0 && size <= 64 && zero_in(body, 3, 16) && zero_in(body, 16 + size, 128);
    }
    if op != LIST {
        return false;
    }
    if body[1] > 4 || body[2] != 0 || body[3] != 0 {
        return false;
    }
    let count = body[1];
    let mut at: usize = 4;
    let mut k: u8 = 0;
    let mut prev: Option<&[u8]> = None;
    while k < count
        invariant
            k <= count <= 4,
            count == body@[1],
            op == LIST,
            body@[0] == OK,
            body@[2] == 0 && body@[3] == 0,
            4 <= at <= 80,
            list_walk(body@, 4, count as nat, None) == list_walk(
                body@,
                at as int,
                (count - k) as nat,
                match prev {
                    Some(p) => Some(p@),
                    None => None,
                },
            ),
        decreases count - k,
    {
        let size = body[at] as usize;
        let start = at + 1;
        if size == 0 || size > 12 || start + size > 80 {
            return false;
        }
        let name = &body[start..start + size];
        let ordered = match prev {
            Some(p) => crate::vault::precedes_exec(p, name),
            None => true,
        };
        if !store::name_ok(name) || !ordered {
            return false;
        }
        prev = Some(name);
        at = start + size;
        k = k + 1;
    }
    zero_in(body, at, 128)
}

/// The reply body a store failure is reported as.
pub open spec fn failure_body(f: Failure) -> Seq<u8> {
    status_bytes(
        match f {
            Failure::ReadOnly => READ_ONLY,
            Failure::Unavailable => UNAVAILABLE,
            Failure::Indeterminate => UNCERTAIN,
        },
    )
}

pub struct ServerView {
    pub store: StoreView,
    pub last: Seq<u64>,
}

/// Which request a server accepts: from Files or Terminal at their installed
/// incarnations, framed, with an id exactly one past that role's last id.
pub open spec fn accept_spec(s: ServerView, sender: u64, generation: u64, frame: Seq<u8>) -> Option<(int, u64, Seq<u8>)> {
    let authorized = (sender == 4 && generation == s.store.files_generation) || (sender == 6 && generation
        == s.store.terminal_generation);
    if !authorized {
        None
    } else {
        let role: int = if sender == 4 { 0 } else { 1 };
        match unpack_spec(frame) {
            None => None,
            Some((id, body)) => if s.last[role] + 1 != id {
                None
            } else {
                Some((role, id, body))
            },
        }
    }
}

/// One store server loop, owning the store and each role's last id.
pub struct Server<B: Block> {
    store: Store<B>,
    last: [u64; 2],
}

impl<B: Block> View for Server<B> {
    type V = ServerView;

    closed spec fn view(&self) -> ServerView {
        ServerView { store: self.store@, last: self.last@ }
    }
}

fn failure_reply(f: Failure) -> (r: [u8; 128])
    ensures
        r@ == failure_body(f),
{
    let mut out = [0u8; 128];
    out[0] = match f {
        Failure::ReadOnly => READ_ONLY,
        Failure::Unavailable => UNAVAILABLE,
        Failure::Indeterminate => UNCERTAIN,
    };
    proof {
        assert(out@ =~= failure_body(f));
    }
    out
}

impl<B: Block> Server<B> {
    pub fn new(store: Store<B>) -> (s: Self)
        ensures
            s@.store == store@,
            s@.last == seq![0u64, 0u64],
    {
        let s = Server { store, last: [0, 0] };
        proof {
            assert(s.last@ =~= seq![0u64, 0u64]);
        }
        s
    }

    pub fn store(&self) -> (r: &Store<B>)
        ensures
            r@ == self@.store,
    {
        &self.store
    }

    pub fn into_store(self) -> (r: Store<B>)
        ensures
            r@ == self@.store,
    {
        self.store
    }

    /// Handles one envelope. An id is consumed before any store work, so a
    /// stale, duplicate or gapped frame is never executed; a lost reply
    /// therefore can never cause a mutation to run twice.
    pub fn handle(&mut self, sender: u64, generation: u64, frame: &[u8]) -> (r: Option<[u8; 128]>)
        requires
            store_wf(old(self)@.store),
        ensures
            store_wf(final(self)@.store),
            match accept_spec(old(self)@, sender, generation, frame@) {
                None => r is None && final(self)@ == old(self)@,
                Some((role, id, body)) => {
                    &&& final(self)@.last == old(self)@.last.update(role, id)
                    &&& match process_spec(old(self)@.store, sender, generation, body) {
                        Step::Reply(b) => final(self)@.store == old(self)@.store && pack_opt(r) == pack_spec(b, id),
                        Step::Refuse(f) => final(self)@.store == old(self)@.store && pack_opt(r) == pack_spec(
                            failure_body(f),
                            id,
                        ),
                        Step::Publish(c) => exists|res: Result<(), Failure>|
                            #[trigger] published(old(self)@.store, final(self)@.store, c, res) && pack_opt(r) == pack_spec(
                                match res {
                                    Ok(()) => status_bytes(OK),
                                    Err(f) => failure_body(f),
                                },
                                id,
                            ),
                    }
                },
            },
    {
        if !self.store.authorized(sender, generation) {
            return None;
        }
        let role: usize = if sender == 4 { 0 } else { 1 };
        let (id, body) = match unpack(frame) {
            Some(v) => v,
            None => {
                return None;
            },
        };
        if self.last[role] == u64::MAX || self.last[role] + 1 != id {
            return None;
        }
        self.last[role] = id;
        let reply = match self.store.process(sender, generation, &body) {
            Ok(reply) => reply,
            Err(error) => failure_reply(error),
        };
        pack(reply, id)
    }
}

/// The bytes of an optional frame.
pub open spec fn pack_opt(r: Option<[u8; 128]>) -> Option<Seq<u8>> {
    match r {
        Some(x) => Some(x@),
        None => None,
    }
}

#[derive(Clone, Copy, Debug, PartialEq, Eq)]
pub enum StartError {
    Invalid,
    Busy,
    WritesLocked,
    Exhausted,
}

/// What a request came to: a reply body, or a failure the user must see.
#[derive(Clone, Copy, Debug, PartialEq, Eq)]
pub enum Outcome {
    Reply([u8; 128]),
    ReadOnly,
    Unavailable,
    SaveUncertain,
}

pub enum OutcomeView {
    Reply(Seq<u8>),
    ReadOnly,
    Unavailable,
    SaveUncertain,
}

pub open spec fn outcome_view(o: Option<Outcome>) -> Option<OutcomeView> {
    match o {
        None => None,
        Some(Outcome::Reply(b)) => Some(OutcomeView::Reply(b@)),
        Some(Outcome::ReadOnly) => Some(OutcomeView::ReadOnly),
        Some(Outcome::Unavailable) => Some(OutcomeView::Unavailable),
        Some(Outcome::SaveUncertain) => Some(OutcomeView::SaveUncertain),
    }
}

#[derive(Clone, Copy)]
pub struct Pending {
    pub id: u64,
    pub op: u8,
    pub deadline: u64,
    pub budget: u32,
}

pub struct ClientView {
    pub generation: u64,
    pub next: u64,
    pub pending: Option<Pending>,
    pub writes_locked: bool,
}

/// Giving up on the pending request: an unanswered mutation may have been
/// saved, so it locks writes; a read or listing is merely unavailable.
pub open spec fn expire_spec(c: ClientView) -> (ClientView, Option<OutcomeView>) {
    match c.pending {
        None => (c, None),
        Some(p) => if mutation_spec(p.op) {
            (ClientView { pending: None, writes_locked: true, ..c }, Some(OutcomeView::SaveUncertain))
        } else {
            (ClientView { pending: None, ..c }, Some(OutcomeView::Unavailable))
        },
    }
}

pub open spec fn tick_spec(c: ClientView, now: u64) -> (ClientView, Option<OutcomeView>) {
    if c.pending is Some && now >= c.pending->Some_0.deadline {
        expire_spec(c)
    } else {
        (c, None)
    }
}

pub open spec fn exhausted_spec(c: ClientView) -> (ClientView, Option<OutcomeView>) {
    if c.pending is Some && c.pending->Some_0.budget == 0 {
        expire_spec(c)
    } else {
        (c, None)
    }
}

/// Sending one request: one at a time, canonical, no writes once locked,
/// a fresh id that is consumed even if the frame is never sent, and an
/// absolute deadline.
pub open spec fn begin_spec(c: ClientView, now: u64, body: Seq<u8>) -> (ClientView, Result<Seq<u8>, StartError>) {
    if c.pending is Some {
        (c, Err(StartError::Busy))
    } else {
        match decode_spec(body) {
            None => (c, Err(StartError::Invalid)),
            Some((op, _, _)) => if c.writes_locked && mutation_spec(op) {
                (c, Err(StartError::WritesLocked))
            } else if c.next == 0 {
                (c, Err(StartError::Exhausted))
            } else if now + DEADLINE_TICKS > u64::MAX {
                (c, Err(StartError::Exhausted))
            } else {
                let id = c.next;
                let next = if id == u64::MAX { 0 } else { (id + 1) as u64 };
                match pack_spec(body, id) {
                    None => (ClientView { next, ..c }, Err(StartError::Invalid)),
                    Some(frame) => (
                        ClientView {
                            next,
                            pending: Some(
                                Pending { id, op, deadline: (now + DEADLINE_TICKS) as u64, budget: MESSAGE_BUDGET },
                            ),
                            ..c
                        },
                        Ok(frame),
                    ),
                }
            },
        }
    }
}

/// Receiving one envelope while a request is pending: past the deadline or
/// the budget it expires; every envelope spends budget; only the storage
/// service's incarnation, the pending id and a valid reply complete it, and
/// a storage failure locks writes.
pub open spec fn receive_spec(c: ClientView, now: u64, sender: u64, generation: u64, frame: Seq<u8>) -> (ClientView, Option<OutcomeView>) {
    match c.pending {
        None => (c, None),
        Some(p) => if now >= p.deadline || p.budget == 0 {
            expire_spec(c)
        } else {
            let c1 = ClientView { pending: Some(Pending { budget: (p.budget - 1) as u32, ..p }), ..c };
            if sender != 1 || generation != c.generation {
                exhausted_spec(c1)
            } else {
                match unpack_spec(frame) {
                    None => exhausted_spec(c1),
                    Some((id, body)) => if id != p.id || !reply_valid_spec(p.op, body) {
                        exhausted_spec(c1)
                    } else {
                        let c2 = ClientView { pending: None, ..c1 };
                        if body[0] == READ_ONLY {
                            (ClientView { writes_locked: true, ..c2 }, Some(OutcomeView::ReadOnly))
                        } else if body[0] == UNAVAILABLE {
                            (ClientView { writes_locked: true, ..c2 }, Some(OutcomeView::Unavailable))
                        } else if body[0] == UNCERTAIN {
                            (ClientView { writes_locked: true, ..c2 }, Some(OutcomeView::SaveUncertain))
                        } else {
                            (c2, Some(OutcomeView::Reply(body)))
                        }
                    },
                }
            }
        },
    }
}

/// The client side of the file IPC, bound to the storage incarnation.
pub struct Client {
    generation: u64,
    pub next: u64,
    pending: Option<Pending>,
    writes_locked: bool,
}

impl View for Client {
    type V = ClientView;

    closed spec fn view(&self) -> ClientView {
        ClientView {
            generation: self.generation,
            next: self.next,
            pending: self.pending,
            writes_locked: self.writes_locked,
        }
    }
}

impl Client {
    /// The storage incarnation is trusted bootstrap material.
    pub fn new(generation: u64) -> (r: Result<Client, StartError>)
        ensures
            match r {
                Ok(c) => generation != 0 && c@ == (ClientView {
                    generation,
                    next: 1,
                    pending: None,
                    writes_locked: false,
                }),
                Err(e) => generation == 0 && e == StartError::Invalid,
            },
    {
        if generation == 0 {
            return Err(StartError::Invalid);
        }
        Ok(Client { generation, next: 1, pending: None, writes_locked: false })
    }

    pub fn writes_locked(&self) -> (r: bool)
        ensures
            r == self@.writes_locked,
    {
        self.writes_locked
    }

    /// Frames the one request to send. The id is allocated before the only
    /// send attempt; there is no retry and no rollback.
    pub fn begin(&mut self, now: u64, body: &[u8]) -> (r: Result<[u8; 128], StartError>)
        ensures
            final(self)@ == begin_spec(old(self)@, now, body@).0,
            match begin_spec(old(self)@, now, body@).1 {
                Ok(f) => r matches Ok(x) && x@ == f,
                Err(e) => r matches Err(x) && x == e,
            },
    {
        if self.pending.is_some() {
            return Err(StartError::Busy);
        }
        let op = match store::decode(body) {
            None => {
                return Err(StartError::Invalid);
            },
            Some((op, _, _)) => op,
        };
        if self.writes_locked && mutation(op) {
            return Err(StartError::WritesLocked);
        }
        if self.next == 0 {
            return Err(StartError::Exhausted);
        }
        if now > u64::MAX - DEADLINE_TICKS {
            return Err(StartError::Exhausted);
        }
        let deadline = now + DEADLINE_TICKS;
        let id = self.next;
        self.next = if id == u64::MAX { 0 } else { id + 1 };
        let mut value = [0u8; 128];
        let mut i: usize = 0;
        while i < 128
            invariant
                i <= 128,
                body@.len() == 128,
                forall|k: int| 0 <= k < i ==> value@[k] == body@[k],
            decreases 128 - i,
        {
            value[i] = body[i];
            i = i + 1;
        }
        proof {
            assert(value@ =~= body@);
        }
        let frame = match pack(value, id) {
            Some(f) => f,
            None => {
                return Err(StartError::Invalid);
            },
        };
        self.pending = Some(Pending { id, op, deadline, budget: MESSAGE_BUDGET });
        Ok(frame)
    }

    /// At a send failure or the fixed deadline.
    pub fn expire(&mut self) -> (r: Option<Outcome>)
        ensures
            final(self)@ == expire_spec(old(self)@).0,
            outcome_view(r) == expire_spec(old(self)@).1,
    {
        match self.pending {
            None => None,
            Some(p) => {
                self.pending = None;
                if mutation(p.op) {
                    self.writes_locked = true;
                    Some(Outcome::SaveUncertain)
                } else {
                    Some(Outcome::Unavailable)
                }
            },
        }
    }

    pub fn tick(&mut self, now: u64) -> (r: Option<Outcome>)
        ensures
            final(self)@ == tick_spec(old(self)@, now).0,
            outcome_view(r) == tick_spec(old(self)@, now).1,
    {
        let due = match self.pending {
            Some(p) => now >= p.deadline,
            None => false,
        };
        if due {
            self.expire()
        } else {
            None
        }
    }

    fn exhausted(&mut self) -> (r: Option<Outcome>)
        ensures
            final(self)@ == exhausted_spec(old(self)@).0,
            outcome_view(r) == exhausted_spec(old(self)@).1,
    {
        let spent = match self.pending {
            Some(p) => p.budget == 0,
            None => false,
        };
        if spent {
            self.expire()
        } else {
            None
        }
    }

    /// Takes one envelope addressed to this client. Ticks are the kernel's
    /// monotonic clock; stale or malformed envelopes spend the fixed budget
    /// and never extend the deadline.
    pub fn receive(&mut self, now: u64, sender: u64, generation: u64, frame: &[u8]) -> (r: Option<Outcome>)
        ensures
            final(self)@ == receive_spec(old(self)@, now, sender, generation, frame@).0,
            outcome_view(r) == receive_spec(old(self)@, now, sender, generation, frame@).1,
    {
        let p = match self.pending {
            None => {
                return None;
            },
            Some(p) => p,
        };
        if now >= p.deadline || p.budget == 0 {
            return self.expire();
        }
        self.pending = Some(Pending { budget: p.budget - 1, ..p });
        if sender != 1 || generation != self.generation {
            return self.exhausted();
        }
        let (id, body) = match unpack(frame) {
            None => {
                return self.exhausted();
            },
            Some(v) => v,
        };
        if id != p.id || !reply_valid(p.op, &body) {
            return self.exhausted();
        }
        self.pending = None;
        if body[0] == READ_ONLY {
            self.writes_locked = true;
            Some(Outcome::ReadOnly)
        } else if body[0] == UNAVAILABLE {
            self.writes_locked = true;
            Some(Outcome::Unavailable)
        } else if body[0] == UNCERTAIN {
            self.writes_locked = true;
            Some(Outcome::SaveUncertain)
        } else {
            Some(Outcome::Reply(body))
        }
    }
}

/// Once writes are locked, no client operation unlocks them.
pub proof fn law_writes_lock_is_sticky(c: ClientView, now: u64, body: Seq<u8>, sender: u64, generation: u64, frame: Seq<u8>)
    requires
        c.writes_locked,
    ensures
        begin_spec(c, now, body).0.writes_locked,
        expire_spec(c).0.writes_locked,
        tick_spec(c, now).0.writes_locked,
        receive_spec(c, now, sender, generation, frame).0.writes_locked,
{
}

/// Ids are issued in strictly increasing order and never wrap: an issued id
/// is the next one, the next one after it is larger or the client is
/// exhausted, and an exhausted client issues nothing.
pub proof fn law_ids_never_repeat(c: ClientView, now: u64, body: Seq<u8>)
    ensures
        begin_spec(c, now, body).1 is Ok ==> c.next != 0 && begin_spec(c, now, body).0.pending->Some_0.id == c.next
            && (begin_spec(c, now, body).0.next == 0 || begin_spec(c, now, body).0.next > c.next),
        c.next == 0 ==> begin_spec(c, now, body).1 is Err && begin_spec(c, now, body).0.next == 0,
        begin_spec(c, now, body).0.next == c.next || begin_spec(c, now, body).0.next == 0
            || begin_spec(c, now, body).0.next == c.next + 1,
{
}

/// A server never executes a frame whose id it has already accepted for that
/// role: the last accepted id only grows.
pub proof fn law_server_ids_advance(s: ServerView, sender: u64, generation: u64, frame: Seq<u8>)
    requires
        s.last.len() == 2,
    ensures
        accept_spec(s, sender, generation, frame) matches Some((role, id, _)) ==> id == s.last[role] + 1,
{
}

} // verus!
