//! The application side of a file session: one request at a time over the
//! runtime's stamped IPC and kernel ticks, with bounded work and an absolute
//! deadline, never retrying and never claiming a save that was not
//! acknowledged.
use vstd::prelude::*;
use crate::transport::{
    Client, ClientView, Outcome, OutcomeView, StartError, MESSAGE_BUDGET, READ_ONLY, UNAVAILABLE, UNCERTAIN, begin_spec,
    expire_spec, mutation_spec, outcome_view, receive_spec, reply_valid_spec, tick_spec,
};
use crate::store::decode_spec;

verus! {

/// One kernel-stamped envelope.
#[derive(Clone, Copy)]
pub struct Envelope {
    pub sender: u64,
    pub generation: u64,
    pub length: usize,
    pub bytes: [u8; 128],
}

/// What the runtime provides: the kernel clock, one send attempt per frame
/// (an error, a full queue included, closes the session), a non-blocking
/// poll of at most one envelope, and yielding the CPU.
pub trait Runtime {
    fn now(&mut self) -> Result<u64, ()>;

    fn send_once(&mut self, frame: &[u8; 128]) -> Result<(), ()>;

    fn poll(&mut self) -> Result<Option<Envelope>, ()>;

    fn yield_now(&mut self) -> Result<(), ()>;
}

/// The UI's bounded input queue: it returns false when full.
pub trait Input {
    fn push(&mut self, frame: [u8; 128]) -> bool;
}

pub struct SessionView {
    pub client: ClientView,
    pub shell_generation: u64,
    pub closed: bool,
    pub input_lost: bool,
    pub last_tick: u64,
}

/// One call the session made on its runtime or on the UI's input queue,
/// with the answer it got.
pub enum RuntimeCall {
    Now(Result<u64, ()>),
    Send(Result<(), ()>),
    Poll(Result<Option<Envelope>, ()>),
    Push(bool),
    Yield(Result<(), ()>),
}

/// Where a call stands between two runtime calls: waiting for the first
/// clock reading, for the send, for a round's clock, poll, input push,
/// second clock or yield, or done with its result. `Broken` is a call the
/// session would not have made.
pub enum Stage {
    Start,
    Sending,
    Round(nat),
    Polling(nat),
    Pushing(nat, Envelope),
    Checking(nat, Option<Envelope>),
    Yielding(nat),
    Done(Result<OutcomeView, StartError>),
    Broken,
}

/// A reply body the session may hand to the UI for a request of `op`: one
/// the transport validated, and not a storage failure.
pub open spec fn reply_ok(op: u8, b: Seq<u8>) -> bool {
    reply_valid_spec(op, b) && b[0] != READ_ONLY && b[0] != UNAVAILABLE && b[0] != UNCERTAIN
}

/// What never goes back across a call: closing, the write lock, lost
/// input, and the clock.
pub open spec fn session_grows(old: SessionView, new: SessionView) -> bool {
    &&& old.closed ==> new.closed
    &&& old.client.writes_locked ==> new.client.writes_locked
    &&& old.input_lost ==> new.input_lost
    &&& old.last_tick <= new.last_tick
    &&& new.client.generation == old.client.generation
    &&& new.shell_generation == old.shell_generation
    &&& new.client.next == 0 || new.client.next >= old.client.next || old.client.next == 0
}

/// Reading the clock: an error or a regression fails and changes nothing.
pub open spec fn clock_spec(s: SessionView, answer: Result<u64, ()>) -> (SessionView, Result<u64, ()>) {
    match answer {
        Err(()) => (s, Err(())),
        Ok(n) => if n < s.last_tick {
            (s, Err(()))
        } else {
            (SessionView { last_tick: n, ..s }, Ok(n))
        },
    }
}

/// Giving up: the session closes and the pending request expires.
pub open spec fn abort_spec(s: SessionView) -> (SessionView, Stage) {
    (
        SessionView { closed: true, client: expire_spec(s.client).0, ..s },
        Stage::Done(
            Ok(
                match expire_spec(s.client).1 {
                    Some(o) => o,
                    None => OutcomeView::Unavailable,
                },
            ),
        ),
    )
}

/// Entering round `k` of the budget, or giving up when it is spent.
pub open spec fn round_spec(s: SessionView, k: nat) -> (SessionView, Stage) {
    if k >= MESSAGE_BUDGET {
        abort_spec(s)
    } else {
        (s, Stage::Round(k))
    }
}

/// An envelope the UI receives: a complete one from the current shell.
pub open spec fn shell_input(s: SessionView, e: Envelope) -> bool {
    e.sender == 0 && e.generation == s.shell_generation && e.length == 128
}

/// The bytes of an envelope the transport examines: none past 128.
pub open spec fn envelope_bytes(e: Envelope) -> Seq<u8> {
    if e.length <= 128 {
        e.bytes@.subrange(0, e.length as int)
    } else {
        Seq::empty()
    }
}

/// A clock reading inside a round: a failure gives up, a passed deadline
/// ends with the expiry's outcome.
pub open spec fn timed_spec(s: SessionView, answer: Result<u64, ()>) -> (SessionView, Option<Stage>, u64) {
    let (s1, t) = clock_spec(s, answer);
    match t {
        Err(()) => (abort_spec(s1).0, Some(abort_spec(s1).1), 0),
        Ok(now) => {
            let (c, o) = tick_spec(s1.client, now);
            let s2 = SessionView { client: c, ..s1 };
            match o {
                Some(x) => (s2, Some(Stage::Done(Ok(x))), now),
                None => (s2, None, now),
            }
        },
    }
}

/// One runtime call and what the session does with its answer, up to the
/// next runtime call.
pub open spec fn next_spec(s: SessionView, body: Seq<u8>, stage: Stage, call: RuntimeCall) -> (SessionView, Stage) {
    match (stage, call) {
        (Stage::Start, RuntimeCall::Now(a)) => {
            let (s1, t) = clock_spec(s, a);
            match t {
                Err(()) => abort_spec(s1),
                Ok(now) => {
                    let (c, b) = begin_spec(s1.client, now, body);
                    let s2 = SessionView { client: c, ..s1 };
                    match b {
                        Err(e) => (s2, Stage::Done(Err(e))),
                        Ok(_) => (s2, Stage::Sending),
                    }
                },
            }
        },
        (Stage::Sending, RuntimeCall::Send(a)) => if a is Err {
            abort_spec(s)
        } else {
            round_spec(s, 0)
        },
        (Stage::Round(k), RuntimeCall::Now(a)) => {
            let (s1, stop, _) = timed_spec(s, a);
            match stop {
                Some(st) => (s1, st),
                None => (s1, Stage::Polling(k)),
            }
        },
        (Stage::Polling(k), RuntimeCall::Poll(a)) => match a {
            Err(()) => abort_spec(s),
            Ok(e) => if e is Some && shell_input(s, e->Some_0) {
                (s, Stage::Pushing(k, e->Some_0))
            } else {
                (s, Stage::Checking(k, e))
            },
        },
        (Stage::Pushing(k, e), RuntimeCall::Push(taken)) => (
            if taken {
                s
            } else {
                SessionView { input_lost: true, ..s }
            },
            Stage::Checking(k, Some(e)),
        ),
        (Stage::Checking(k, e), RuntimeCall::Now(a)) => {
            let (s1, stop, now) = timed_spec(s, a);
            match stop {
                Some(st) => (s1, st),
                None => match e {
                    None => (s1, Stage::Yielding(k)),
                    Some(env) => {
                        let (c, o) = receive_spec(s1.client, now, env.sender, env.generation, envelope_bytes(env));
                        let s2 = SessionView { client: c, ..s1 };
                        match o {
                            Some(x) => (s2, Stage::Done(Ok(x))),
                            None => (s2, Stage::Yielding(k)),
                        }
                    },
                },
            }
        },
        (Stage::Yielding(k), RuntimeCall::Yield(a)) => if a is Err {
            abort_spec(s)
        } else {
            round_spec(s, k + 1)
        },
        _ => (s, Stage::Broken),
    }
}

/// Where a call stands before any runtime call: a closed session is done.
pub open spec fn start_spec(s: SessionView) -> Stage {
    if s.closed {
        Stage::Done(Ok(OutcomeView::Unavailable))
    } else {
        Stage::Start
    }
}

/// A call of `body` from state `s` that got the answers in `calls`, in order.
pub open spec fn run_spec(s: SessionView, body: Seq<u8>, calls: Seq<RuntimeCall>) -> (SessionView, Stage)
    decreases calls.len(),
{
    if calls.len() == 0 {
        (s, start_spec(s))
    } else {
        let (s1, st) = run_spec(s, body, calls.drop_last());
        next_spec(s1, body, st, calls.last())
    }
}

/// The result of a call, as a value.
pub open spec fn result_view(r: Result<Outcome, StartError>) -> Result<OutcomeView, StartError> {
    match r {
        Ok(o) => Ok(outcome_view(Some(o))->Some_0),
        Err(e) => Err(e),
    }
}

proof fn lemma_run_push(s: SessionView, body: Seq<u8>, calls: Seq<RuntimeCall>, c: RuntimeCall)
    ensures
        run_spec(s, body, calls.push(c)) == next_spec(run_spec(s, body, calls).0, body, run_spec(s, body, calls).1, c),
{
    assert(calls.push(c).drop_last() =~= calls);
}

/// What the session does when its one send fails: it closes, and answers
/// uncertain for a create or write and unavailable otherwise; a later call
/// answers unavailable without touching the runtime.
pub proof fn law_failed_send_closes(s: SessionView, body: Seq<u8>, now: u64)
    requires
        !s.closed,
        s.last_tick <= now,
        begin_spec(s.client, now, body).1 is Ok,
    ensures
        ({
            let (after, stage) = run_spec(s, body, seq![RuntimeCall::Now(Ok(now)), RuntimeCall::Send(Err(()))]);
            &&& after.closed
            &&& stage == Stage::Done(
                Ok(
                    if mutation_spec(decode_spec(body)->Some_0.0) {
                        OutcomeView::SaveUncertain
                    } else {
                        OutcomeView::Unavailable
                    },
                ),
            )
            &&& mutation_spec(decode_spec(body)->Some_0.0) ==> after.client.writes_locked
            &&& forall|other: Seq<u8>| run_spec(after, other, Seq::empty()) == (after, Stage::Done(Ok(OutcomeView::Unavailable)))
        }),
{
    let calls = seq![RuntimeCall::Now(Ok(now)), RuntimeCall::Send(Err(()))];
    let one = seq![RuntimeCall::Now(Ok(now))];
    assert(calls.drop_last() =~= one);
    assert(one.drop_last() =~= Seq::<RuntimeCall>::empty());
    lemma_begin_next(s.client, now, body);
    let s1 = SessionView { last_tick: now, ..s };
    let s2 = SessionView { client: begin_spec(s.client, now, body).0, ..s1 };
    assert(run_spec(s, body, Seq::empty()) == (s, Stage::Start));
    assert(run_spec(s, body, one) == (s2, Stage::Sending));
    assert(run_spec(s, body, calls) == abort_spec(s2));
}

pub struct Session {
    client: Client,
    shell_generation: u64,
    closed: bool,
    input_lost: bool,
    last_tick: u64,
    calls: Ghost<Seq<RuntimeCall>>,
}

impl View for Session {
    type V = SessionView;

    closed spec fn view(&self) -> SessionView {
        SessionView {
            client: self.client@,
            shell_generation: self.shell_generation,
            closed: self.closed,
            input_lost: self.input_lost,
            last_tick: self.last_tick,
        }
    }
}

proof fn lemma_begin_next(c: ClientView, now: u64, body: Seq<u8>)
    ensures
        begin_spec(c, now, body).0.next == c.next || begin_spec(c, now, body).0.next == 0
            || begin_spec(c, now, body).0.next == c.next + 1,
        begin_spec(c, now, body).0.generation == c.generation,
        c.writes_locked ==> begin_spec(c, now, body).0.writes_locked,
        begin_spec(c, now, body).1 is Ok ==> begin_spec(c, now, body).0.pending is Some && decode_spec(body) is Some
            && begin_spec(c, now, body).0.pending->Some_0.op == decode_spec(body)->Some_0.0,
        begin_spec(c, now, body).1 is Err ==> begin_spec(c, now, body).0.pending == c.pending,
{
}

impl Session {
    /// Incarnations are trusted bootstrap material; a session is never
    /// recreated under the same live grants.
    pub fn new(storage_generation: u64, shell_generation: u64) -> (r: Result<Session, StartError>)
        ensures
            match r {
                Ok(s) => storage_generation != 0 && shell_generation != 0 && s@ == (SessionView {
                    client: ClientView { generation: storage_generation, next: 1, pending: None, writes_locked: false },
                    shell_generation,
                    closed: false,
                    input_lost: false,
                    last_tick: 0,
                }) && s.runtime_calls() == Seq::<RuntimeCall>::empty(),
                Err(e) => (storage_generation == 0 || shell_generation == 0) && e == StartError::Invalid,
            },
    {
        if shell_generation == 0 {
            return Err(StartError::Invalid);
        }
        let client = Client::new(storage_generation)?;
        Ok(Session { client, shell_generation, closed: false, input_lost: false, last_tick: 0, calls: Ghost(Seq::empty()) })
    }

    /// The runtime and input calls made since the session was created, with
    /// their answers, in order.
    pub closed spec fn runtime_calls(&self) -> Seq<RuntimeCall> {
        self.calls@
    }

    pub fn closed(&self) -> (r: bool)
        ensures
            r == self@.closed,
    {
        self.closed
    }

    pub fn writes_locked(&self) -> (r: bool)
        ensures
            r == (self@.closed || self@.client.writes_locked),
    {
        self.closed || self.client.writes_locked()
    }

    pub fn input_lost(&self) -> (r: bool)
        ensures
            r == self@.input_lost,
    {
        self.input_lost
    }

    /// Reads the kernel clock; a regression is an error.
    fn clock<R: Runtime>(&mut self, runtime: &mut R) -> (r: Result<u64, ()>)
        ensures
            final(self).runtime_calls().len() == old(self).runtime_calls().len() + 1,
            final(self).runtime_calls() == old(self).runtime_calls().push(final(self).runtime_calls().last()),
            final(self).runtime_calls().last() is Now,
            (final(self)@, r) == clock_spec(old(self)@, final(self).runtime_calls().last()->Now_0),
    {
        let a = runtime.now();
        proof {
            self.calls@ = self.calls@.push(RuntimeCall::Now(a));
        }
        let now = match a {
            Ok(n) => n,
            Err(()) => {
                return Err(());
            },
        };
        if now < self.last_tick {
            return Err(());
        }
        self.last_tick = now;
        Ok(now)
    }

    /// Closes the session and gives up on the pending request.
    fn abort(&mut self) -> (r: Outcome)
        ensures
            (final(self)@, Stage::Done(Ok(outcome_view(Some(r))->Some_0))) == abort_spec(old(self)@),
            final(self).runtime_calls() == old(self).runtime_calls(),
    {
        self.closed = true;
        match self.client.expire() {
            Some(o) => o,
            None => Outcome::Unavailable,
        }
    }

    /// One request with one send attempt, an absolute deadline and a fixed
    /// budget of envelopes: what the session does is `run_spec` of the
    /// runtime's answers, and it ends done. Only a reply the transport
    /// validated reaches the UI as a reply; an unacknowledged mutation locks
    /// writes; current-shell input dequeued meanwhile is handed to the UI or
    /// flagged as lost.
    #[verifier::rlimit(60)]
    pub fn call<R: Runtime, I: Input>(&mut self, runtime: &mut R, input: &mut I, body: &[u8; 128]) -> (r: Result<Outcome, StartError>)
        ensures
            session_grows(old(self)@, final(self)@),
            old(self).runtime_calls().len() <= final(self).runtime_calls().len(),
            final(self).runtime_calls().take(old(self).runtime_calls().len() as int) == old(self).runtime_calls(),
            run_spec(old(self)@, body@, final(self).runtime_calls().skip(old(self).runtime_calls().len() as int)) == (
            final(self)@, Stage::Done(result_view(r))),
            old(self)@.closed ==> r == Ok::<Outcome, StartError>(Outcome::Unavailable) && final(self)@ == old(self)@
                && final(self).runtime_calls() == old(self).runtime_calls(),
            match r {
                Ok(Outcome::Reply(b)) => decode_spec(body@) matches Some((op, _, _)) && reply_ok(op, b@),
                _ => true,
            },
    {
        let ghost s0 = self@;
        let ghost c0 = self.calls@;
        let ghost mut added: Seq<RuntimeCall> = Seq::empty();
        proof {
            assert(c0.take(c0.len() as int) =~= c0);
            assert(c0.skip(c0.len() as int) =~= added);
        }
        if self.closed {
            return Ok(Outcome::Unavailable);
        }
        let ghost pre = self@;
        let clocked = self.clock(runtime);
        proof {
            let c = self.calls@.last();
            lemma_run_push(s0, body@, added, c);
            added = added.push(c);
            assert(self.calls@ =~= c0 + added);
        }
        let now = match clocked {
            Ok(n) => n,
            Err(()) => {
                let o = self.abort();
                proof { self.lemma_log(c0, added); }
                return Ok(o);
            },
        };
        proof {
            lemma_begin_next(self@.client, now, body@);
        }
        let frame = match self.client.begin(now, body) {
            Ok(f) => f,
            Err(e) => {
                proof { self.lemma_log(c0, added); }
                return Err(e);
            },
        };
        let ghost op = self@.client.pending->Some_0.op;
        let a = runtime.send_once(&frame);
        proof {
            lemma_run_push(s0, body@, added, RuntimeCall::Send(a));
            added = added.push(RuntimeCall::Send(a));
            self.calls@ = self.calls@.push(RuntimeCall::Send(a));
            assert(self.calls@ =~= c0 + added);
        }
        if a.is_err() {
            let o = self.abort();
            proof { self.lemma_log(c0, added); }
            return Ok(o);
        }
        let mut round: u32 = 0;
        while round < MESSAGE_BUDGET
            invariant
                s0 == old(self)@,
                c0 == old(self).calls@,
                !s0.closed,
                session_grows(s0, self@),
                !self@.closed,
                self@.client.pending is Some,
                self@.client.pending->Some_0.op == op,
                decode_spec(body@) matches Some((o, _, _)) && o == op,
                self.calls@ == c0 + added,
                run_spec(s0, body@, added) == round_spec(self@, round as nat),
            decreases MESSAGE_BUDGET - round,
        {
            let clocked = self.clock(runtime);
            proof {
                let c = self.calls@.last();
                lemma_run_push(s0, body@, added, c);
                added = added.push(c);
                assert(self.calls@ =~= c0 + added);
            }
            let now = match clocked {
                Ok(n) => n,
                Err(()) => {
                    let o = self.abort();
                    proof { self.lemma_log(c0, added); }
                    return Ok(o);
                },
            };
            if let Some(outcome) = self.client.tick(now) {
                proof { self.lemma_log(c0, added); }
                return Ok(outcome);
            }
            assert(run_spec(s0, body@, added) == (self@, Stage::Polling(round as nat)));
            let polled = runtime.poll();
            proof {
                lemma_run_push(s0, body@, added, RuntimeCall::Poll(polled));
                added = added.push(RuntimeCall::Poll(polled));
                self.calls@ = self.calls@.push(RuntimeCall::Poll(polled));
                assert(self.calls@ =~= c0 + added);
            }
            let envelope = match polled {
                Ok(e) => e,
                Err(()) => {
                    let o = self.abort();
                    proof { self.lemma_log(c0, added); }
                    return Ok(o);
                },
            };
            assert(envelope is Some && shell_input(self@, envelope->Some_0) ==> run_spec(s0, body@, added) == (
            self@, Stage::Pushing(round as nat, envelope->Some_0)));
            assert(!(envelope is Some && shell_input(self@, envelope->Some_0)) ==> run_spec(s0, body@, added) == (
            self@, Stage::Checking(round as nat, envelope)));
            if let Some(e) = envelope {
                if e.sender == 0 && e.generation == self.shell_generation && e.length == 128 {
                    let taken = input.push(e.bytes);
                    proof {
                        lemma_run_push(s0, body@, added, RuntimeCall::Push(taken));
                        added = added.push(RuntimeCall::Push(taken));
                        self.calls@ = self.calls@.push(RuntimeCall::Push(taken));
                    }
                    if !taken {
                        self.input_lost = true;
                    }
                    proof {
                        assert(self.calls@ =~= c0 + added);
                    }
                }
            }
            assert(run_spec(s0, body@, added) == (self@, Stage::Checking(round as nat, envelope)));
            let clocked = self.clock(runtime);
            proof {
                let c = self.calls@.last();
                lemma_run_push(s0, body@, added, c);
                added = added.push(c);
                assert(self.calls@ =~= c0 + added);
            }
            let now = match clocked {
                Ok(n) => n,
                Err(()) => {
                    let o = self.abort();
                    proof { self.lemma_log(c0, added); }
                    return Ok(o);
                },
            };
            if let Some(outcome) = self.client.tick(now) {
                proof { self.lemma_log(c0, added); }
                return Ok(outcome);
            }
            if let Some(e) = envelope {
                let bytes: &[u8] = if e.length <= 128 {
                    &e.bytes[0..e.length]
                } else {
                    &e.bytes[0..0]
                };
                proof {
                    assert(bytes@ =~= envelope_bytes(e));
                }
                if let Some(outcome) = self.client.receive(now, e.sender, e.generation, bytes) {
                    proof { self.lemma_log(c0, added); }
                    return Ok(outcome);
                }
            }
            assert(run_spec(s0, body@, added) == (self@, Stage::Yielding(round as nat)));
            let y = runtime.yield_now();
            proof {
                lemma_run_push(s0, body@, added, RuntimeCall::Yield(y));
                added = added.push(RuntimeCall::Yield(y));
                self.calls@ = self.calls@.push(RuntimeCall::Yield(y));
                assert(self.calls@ =~= c0 + added);
            }
            if y.is_err() {
                let o = self.abort();
                proof { self.lemma_log(c0, added); }
                return Ok(o);
            }
            round = round + 1;
        }
        let o = self.abort();
        proof { self.lemma_log(c0, added); }
        Ok(o)
    }

    proof fn lemma_log(&self, c0: Seq<RuntimeCall>, added: Seq<RuntimeCall>)
        requires
            self.calls@ == c0 + added,
        ensures
            self.runtime_calls().take(c0.len() as int) == c0,
            self.runtime_calls().skip(c0.len() as int) == added,
            c0.len() <= self.runtime_calls().len(),
    {
        assert(self.calls@.take(c0.len() as int) =~= c0);
        assert(self.calls@.skip(c0.len() as int) =~= added);
    }
}

} // verus!
