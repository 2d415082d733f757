//! Bounded network service composition: one channel, one trusted link
//! adapter, and the request protocol applications use through kernel
//! envelopes. Identity is bound from the envelope, never from request bytes.
use vstd::prelude::*;
use crate::channel::{self, Budget, Channel, ChannelView, Stats, channel_wf, live_spec, revoke_spec, enqueue_spec};
use crate::network::{Endpoint, MAX_FRAME};
use crate::expansion_wire::{encode, encode_spec, zeros, magic};
use crate::le::{le64, le_bytes, read64};

verus! {

pub const HEADER: usize = 16;
pub const MESSAGE: usize = 128;
pub const APP_PAYLOAD: usize = 112;

/// The trusted driver and clock adapter. Implementations must not retain
/// slices, block indefinitely, choose host resources or reach the network
/// any other way.
pub trait Link {
    fn ticks(&mut self) -> Result<u64, ()>;

    fn send(&mut self, frame: &[u8]) -> Result<(), ()>;

    fn receive(&mut self, out: &mut [u8; 554]) -> Result<Option<usize>, ()>;

    fn close(&mut self);
}

/// One call a service made on its link, with what the link answered: the
/// clock, a receive (and the frame buffer it left), a send, a close.
pub enum LinkCall {
    Ticks(Result<u64, ()>),
    Receive(Result<Option<usize>, ()>, Seq<u8>),
    Send(Result<(), ()>),
    Close,
}

/// A close of the link, where `closes` holds.
pub open spec fn closing(closes: bool) -> Seq<LinkCall> {
    if closes {
        seq![LinkCall::Close]
    } else {
        Seq::empty()
    }
}

/// How many of the calls close the link.
pub open spec fn close_count(calls: Seq<LinkCall>) -> nat
    decreases calls.len(),
{
    if calls.len() == 0 {
        0
    } else {
        close_count(calls.drop_last()) + if calls.last() is Close {
            1nat
        } else {
            0nat
        }
    }
}

proof fn lemma_close_count_push(calls: Seq<LinkCall>, c: LinkCall)
    ensures
        close_count(calls.push(c)) == close_count(calls) + if c is Close {
            1nat
        } else {
            0nat
        },
{
    assert(calls.push(c).drop_last() =~= calls);
}

/// Owner policy for one service instance.
#[derive(Clone, Copy)]
pub struct Policy {
    pub principal: u64,
    pub incarnation: u64,
    pub interface: u32,
    pub local: Endpoint,
    pub peer: Endpoint,
    pub issued: u64,
    pub expires: u64,
    pub tx: Budget,
    pub rx: Budget,
}

/// Reply status; `Success` is wire code 0, the others follow in order.
#[derive(Clone, Copy, Debug, PartialEq, Eq, Structural)]
pub enum Status {
    Success,
    Invalid,
    Denied,
    Closed,
    Full,
    Empty,
    Budget,
    Io,
    Oversize,
}

impl Status {
    pub open spec fn spec_code(self) -> u8 {
        match self {
            Status::Success => 0,
            Status::Invalid => 1,
            Status::Denied => 2,
            Status::Closed => 3,
            Status::Full => 4,
            Status::Empty => 5,
            Status::Budget => 6,
            Status::Io => 7,
            Status::Oversize => 8,
        }
    }

    pub fn code(&self) -> (r: u8)
        ensures
            r == self.spec_code(),
    {
        match self {
            Status::Success => 0,
            Status::Invalid => 1,
            Status::Denied => 2,
            Status::Closed => 3,
            Status::Full => 4,
            Status::Empty => 5,
            Status::Budget => 6,
            Status::Io => 7,
            Status::Oversize => 8,
        }
    }
}

/// The status a channel refusal is reported as.
pub open spec fn status_spec(e: channel::Error) -> Status {
    match e {
        channel::Error::Invalid => Status::Invalid,
        channel::Error::Denied => Status::Denied,
        channel::Error::Closed => Status::Closed,
        channel::Error::Full => Status::Full,
        channel::Error::Empty => Status::Empty,
        channel::Error::Budget => Status::Budget,
        channel::Error::Io => Status::Io,
    }
}

fn status(e: channel::Error) -> (r: Status)
    ensures
        r == status_spec(e),
{
    match e {
        channel::Error::Invalid => Status::Invalid,
        channel::Error::Denied => Status::Denied,
        channel::Error::Closed => Status::Closed,
        channel::Error::Full => Status::Full,
        channel::Error::Empty => Status::Empty,
        channel::Error::Budget => Status::Budget,
        channel::Error::Io => Status::Io,
    }
}

/// The header of a reply: magic, operation, status code and request id.
pub open spec fn reply_header(operation: u8, id: u64, status: Status) -> Seq<u8> {
    magic() + seq![0u8, operation, status.spec_code(), 0u8] + le_bytes(id as int, 8)
}

/// A reply to one request.
pub struct Reply {
    bytes: [u8; 128],
    length: usize,
}

impl View for Reply {
    type V = Seq<u8>;

    closed spec fn view(&self) -> Seq<u8> {
        self.bytes@.subrange(0, self.length as int)
    }
}

impl Reply {
    #[verifier::type_invariant]
    spec fn framed(&self) -> bool {
        HEADER <= self.length <= MESSAGE
    }

    /// A reply carrying `data` after its header.
    fn new(operation: u8, id: u64, status: Status, data: &[u8]) -> (r: Self)
        requires
            data@.len() <= APP_PAYLOAD,
        ensures
            r@ == reply_header(operation, id, status) + data@,
    {
        let mut b = [0u8; 128];
        b[0] = 0x52;
        b[1] = 0x4e;
        b[2] = 0x45;
        b[3] = 0x54;
        b[5] = operation;
        b[6] = status.code();
        crate::le::put_le(&mut b, 8, id, 8);
        proof {
            crate::le::lemma_le_bytes_len(id as int, 8);
            assert(b@.subrange(0, HEADER as int) =~= reply_header(operation, id, status));
        }
        let mut i: usize = 0;
        while i < data.len()
            invariant
                i <= data@.len() <= APP_PAYLOAD,
                b@.len() == MESSAGE,
                b@.subrange(0, HEADER as int) == reply_header(operation, id, status),
                forall|k: int| 0 <= k < i ==> b@[HEADER + k] == data@[k],
            decreases data@.len() - i,
        {
            let ghost before = b@;
            b[HEADER + i] = data[i];
            proof {
                assert(b@.subrange(0, HEADER as int) =~= before.subrange(0, HEADER as int));
            }
            i = i + 1;
        }
        let r = Reply { bytes: b, length: HEADER + data.len() };
        proof {
            assert(r@ =~= reply_header(operation, id, status) + data@) by {
                assert forall|k: int| 0 <= k < r@.len() implies r@[k] == (reply_header(operation, id, status)
                    + data@)[k] by {
                    if k < HEADER {
                        assert(b@[k] == b@.subrange(0, HEADER as int)[k]);
                    }
                }
            }
        }
        r
    }

    pub fn bytes(&self) -> (r: &[u8])
        ensures
            r@ == self@,
    {
        proof {
            use_type_invariant(self);
        }
        &self.bytes[0..self.length]
    }

    /// The status the reply carries.
    pub fn status(&self) -> (r: Status)
        ensures
            self@.len() >= HEADER,
            r.spec_code() == (if self@[6] <= 7 { self@[6] } else { 8 }),
    {
        proof {
            use_type_invariant(self);
        }
        match self.bytes[6] {
            0 => Status::Success,
            1 => Status::Invalid,
            2 => Status::Denied,
            3 => Status::Closed,
            4 => Status::Full,
            5 => Status::Empty,
            6 => Status::Budget,
            7 => Status::Io,
            _ => Status::Oversize,
        }
    }
}

/// Abstract state of a service: the owner identity it was installed for,
/// whether it is closed, and its channel. The link is trusted and opaque.
pub struct ServiceView {
    pub principal: u64,
    pub incarnation: u64,
    pub interface: u32,
    pub closed: bool,
    pub channel: ChannelView,
}

/// A closed service holds a revoked channel with nothing queued.
pub open spec fn service_wf(s: ServiceView) -> bool {
    &&& channel_wf(s.channel)
    &&& s.closed ==> s.channel.closed && s.channel.tx.len() == 0 && s.channel.rx.len() == 0
}

/// Closing is idempotent: the first close revokes the channel.
pub open spec fn close_spec(s: ServiceView) -> ServiceView {
    if s.closed {
        s
    } else {
        ServiceView { closed: true, channel: revoke_spec(s.channel), ..s }
    }
}

/// Reading the clock: a closed service refuses; a failed tick or an expired
/// channel closes the service.
pub open spec fn time_spec(s: ServiceView, tick: Result<u64, ()>) -> (ServiceView, Result<u64, Status>) {
    if s.closed {
        (s, Err(Status::Closed))
    } else {
        match tick {
            Err(()) => (close_spec(s), Err(Status::Io)),
            Ok(now) => {
                let (c, r) = live_spec(s.channel, now);
                let s1 = ServiceView { channel: c, ..s };
                match r {
                    Ok(()) => (s1, Ok(now)),
                    Err(e) => (close_spec(s1), Err(status_spec(e))),
                }
            },
        }
    }
}

/// One receive attempt: a driver failure or a length outside the frame
/// bounds closes; malformed or surplus ingress is dropped without closing.
pub open spec fn ingress_step(s: ServiceView, now: u64, received: Result<Option<usize>, ()>, frame: Seq<u8>) -> (ServiceView, Result<(), Status>) {
    match received {
        Err(()) => (close_spec(s), Err(Status::Io)),
        Ok(None) => (s, Ok(())),
        Ok(Some(n)) => {
            if n < 60 || n > MAX_FRAME {
                (close_spec(s), Err(Status::Io))
            } else {
                let (c, r) = channel::ingress_spec(s.channel, s.interface, now, frame.subrange(0, n as int));
                let s1 = ServiceView { channel: c, ..s };
                match r {
                    Ok(()) => (s1, Ok(())),
                    Err(channel::Error::Invalid) => (s1, Ok(())),
                    Err(channel::Error::Full) => (s1, Ok(())),
                    Err(e) => (close_spec(s1), Err(status_spec(e))),
                }
            }
        },
    }
}

/// One transmit attempt with the oldest queued frame; an empty queue is no
/// error, any other refusal or a driver failure closes.
pub open spec fn egress_step(s: ServiceView, now: u64, written: Result<(), ()>) -> (ServiceView, Result<(), Status>) {
    let (c1, r1) = channel::transmit_pre(s.channel, s.interface, now);
    match r1 {
        Err(channel::Error::Empty) => (ServiceView { channel: c1, ..s }, Ok(())),
        Err(e) => (close_spec(ServiceView { channel: c1, ..s }), Err(status_spec(e))),
        Ok(()) => {
            let s1 = ServiceView { channel: channel::transmit_post(c1, written is Ok), ..s };
            if written is Ok {
                (s1, Ok(()))
            } else {
                (close_spec(s1), Err(Status::Io))
            }
        },
    }
}

/// One poll, given what the link answered: the clock, one receive (with the
/// frame buffer it filled), the clock again, and one send.
pub open spec fn poll_spec(
    s: ServiceView,
    tick: Result<u64, ()>,
    received: Result<Option<usize>, ()>,
    frame: Seq<u8>,
    tick2: Result<u64, ()>,
    written: Result<(), ()>,
) -> (ServiceView, Result<(), Status>) {
    let (s1, r1) = time_spec(s, tick);
    match r1 {
        Err(e) => (s1, Err(e)),
        Ok(now) => {
            let (s2, r2) = ingress_step(s1, now, received, frame);
            if r2 is Err {
                (s2, r2)
            } else {
                let (s3, r3) = time_spec(s2, tick2);
                match r3 {
                    Err(e) => (s3, Err(e)),
                    Ok(now2) => egress_step(s3, now2, written),
                }
            }
        },
    }
}

/// The request protocol, given the tick the link answered: identity is
/// checked first, then shape, then liveness; a send is queued, a receive
/// delivers the oldest payload, a close closes.
pub open spec fn request_spec(s: ServiceView, principal: u64, incarnation: u64, bytes: Seq<u8>, tick: Result<u64, ()>) -> (ServiceView, Seq<u8>) {
    if principal != s.principal || incarnation != s.incarnation {
        (s, reply_header(0, 0, Status::Denied))
    } else {
        match parse_spec(bytes) {
            None => (s, reply_header(0, 0, Status::Invalid)),
            Some((op, id)) => {
                if s.closed {
                    (s, reply_header(op, id, Status::Closed))
                } else {
                    let (s1, t) = time_spec(s, tick);
                    match t {
                        Err(e) => (s1, reply_header(op, id, e)),
                        Ok(now) => {
                            if op == 3 {
                                (close_spec(s1), reply_header(op, id, Status::Success))
                            } else if op == 1 {
                                let (c, r) = enqueue_spec(s1.channel, principal, incarnation, now, bytes.subrange(HEADER as int, bytes.len() as int));
                                (ServiceView { channel: c, ..s1 }, reply_header(op, id, match r {
                                    Ok(()) => Status::Success,
                                    Err(e) => status_spec(e),
                                }))
                            } else {
                                let (c, r) = channel::receive_spec(s1.channel, principal, incarnation, now);
                                let s2 = ServiceView { channel: c, ..s1 };
                                match r {
                                    Err(e) => (s2, reply_header(op, id, status_spec(e))),
                                    Ok(data) => if data.len() > APP_PAYLOAD {
                                        (s2, reply_header(op, id, Status::Oversize))
                                    } else {
                                        (s2, reply_header(op, id, Status::Success) + data)
                                    },
                                }
                            }
                        },
                    }
                }
            },
        }
    }
}

/// The link calls one poll makes, given what the link answered: none on a
/// closed service; otherwise the clock, then (while nothing failed) one
/// receive, the clock again and, with a frame queued, one send, each step
/// that fails followed by the close of the link.
pub open spec fn poll_calls(
    s: ServiceView,
    tick: Result<u64, ()>,
    received: Result<Option<usize>, ()>,
    frame: Seq<u8>,
    tick2: Result<u64, ()>,
    written: Result<(), ()>,
) -> Seq<LinkCall> {
    if s.closed {
        Seq::empty()
    } else {
        let (s1, r1) = time_spec(s, tick);
        let c1 = seq![LinkCall::Ticks(tick)] + closing(r1 is Err);
        match r1 {
            Err(_) => c1,
            Ok(now) => {
                let (s2, r2) = ingress_step(s1, now, received, frame);
                let c2 = c1 + seq![LinkCall::Receive(received, frame)] + closing(r2 is Err);
                if r2 is Err {
                    c2
                } else {
                    let (s3, r3) = time_spec(s2, tick2);
                    let c3 = c2 + seq![LinkCall::Ticks(tick2)] + closing(r3 is Err);
                    match r3 {
                        Err(_) => c3,
                        Ok(now2) => match channel::transmit_pre(s3.channel, s3.interface, now2).1 {
                            Ok(()) => c3 + seq![LinkCall::Send(written)] + closing(written is Err),
                            Err(channel::Error::Empty) => c3,
                            Err(_) => c3 + seq![LinkCall::Close],
                        },
                    }
                }
            },
        }
    }
}

/// The link calls one request makes, given the clock it read: none unless
/// the request reaches the link; otherwise the clock, and the close of the
/// link where the clock fails or the request is a close.
pub open spec fn request_calls(s: ServiceView, principal: u64, incarnation: u64, bytes: Seq<u8>, tick: Result<u64, ()>) -> Seq<LinkCall> {
    if !request_uses_link(s, principal, incarnation, bytes) {
        Seq::empty()
    } else {
        let r1 = time_spec(s, tick).1;
        seq![LinkCall::Ticks(tick)] + closing(r1 is Err || parse_spec(bytes)->Some_0.0 == 3)
    }
}

/// Whether a request reaches the link at all: only a well-formed request
/// from the installed identity to an open service reads the clock.
pub open spec fn request_uses_link(s: ServiceView, principal: u64, incarnation: u64, bytes: Seq<u8>) -> bool {
    principal == s.principal && incarnation == s.incarnation && parse_spec(bytes) is Some && !s.closed
}

/// A service bound to one owner identity and one channel; identity is
/// taken from the kernel envelope, never from request bytes.
pub struct Service<L: Link> {
    pub link: L,
    pub channel: Channel,
    principal: u64,
    incarnation: u64,
    interface: u32,
    closed: bool,
    calls: Ghost<Seq<LinkCall>>,
}

impl<L: Link> View for Service<L> {
    type V = ServiceView;

    closed spec fn view(&self) -> ServiceView {
        ServiceView {
            principal: self.principal,
            incarnation: self.incarnation,
            interface: self.interface,
            closed: self.closed,
            channel: self.channel@,
        }
    }
}

impl<L: Link> Service<L> {
    /// The link adapter as it stands.
    pub closed spec fn driver(&self) -> L {
        self.link
    }

    /// The calls made on the link since the service was installed, in order.
    pub closed spec fn link_calls(&self) -> Seq<LinkCall> {
        self.calls@
    }

    fn link_ticks(&mut self) -> (r: Result<u64, ()>)
        ensures
            final(self)@ == old(self)@,
            final(self).link_calls() == old(self).link_calls().push(LinkCall::Ticks(r)),
            close_count(final(self).link_calls()) == close_count(old(self).link_calls()),
    {
        let r = self.link.ticks();
        proof {
            lemma_close_count_push(self.calls@, LinkCall::Ticks(r));
            self.calls@ = self.calls@.push(LinkCall::Ticks(r));
        }
        r
    }

    fn link_receive(&mut self, out: &mut [u8; 554]) -> (r: Result<Option<usize>, ()>)
        ensures
            final(self)@ == old(self)@,
            final(self).link_calls() == old(self).link_calls().push(LinkCall::Receive(r, final(out)@)),
            close_count(final(self).link_calls()) == close_count(old(self).link_calls()),
    {
        let r = self.link.receive(out);
        proof {
            lemma_close_count_push(self.calls@, LinkCall::Receive(r, out@));
            self.calls@ = self.calls@.push(LinkCall::Receive(r, out@));
        }
        r
    }

    fn link_send(&mut self, frame: &[u8]) -> (r: Result<(), ()>)
        ensures
            final(self)@ == old(self)@,
            final(self).channel == old(self).channel,
            final(self).link_calls() == old(self).link_calls().push(LinkCall::Send(r)),
            close_count(final(self).link_calls()) == close_count(old(self).link_calls()),
    {
        let r = self.link.send(frame);
        proof {
            lemma_close_count_push(self.calls@, LinkCall::Send(r));
            self.calls@ = self.calls@.push(LinkCall::Send(r));
        }
        r
    }

    /// Installs the owner's policy; on refusal the supplied link is closed.
    pub fn new(link: L, p: Policy) -> (r: Result<Self, Status>)
        ensures
            r is Err <==> (p.interface == 0 || !p.local.spec_valid() || !p.peer.spec_valid() || p.local.mac@
                == p.peer.mac@ || p.local.ip@ == p.peer.ip@ || p.tx.packets == 0 || p.rx.packets == 0
                || p.tx.bytes < 60 || p.rx.bytes < 60 || p.principal == 0 || p.incarnation == 0 || p.expires
                <= p.issued),
            match r {
                Ok(s) => service_wf(s@) && s.driver() == link && s.link_calls() == Seq::<LinkCall>::empty() && s@.principal == p.principal && s@.incarnation
                    == p.incarnation && s@.interface == p.interface && !s@.closed && s@.channel == (ChannelView {
                    principal: p.principal,
                    incarnation: p.incarnation,
                    interface: p.interface,
                    local: p.local,
                    peer: p.peer,
                    expires: p.expires,
                    clock: p.issued,
                    closed: false,
                    grant: s@.channel.grant,
                    tx_budget: p.tx,
                    rx_budget: p.rx,
                    tx: Seq::empty(),
                    rx: Seq::empty(),
                    packet_id: 0,
                    stats: Stats { sent: 0, received: 0, dropped: 0, io_failed: 0 },
                }),
                Err(e) => e == Status::Invalid,
            },
    {
        let mut link = link;
        match Channel::new(p.principal, p.incarnation, p.interface, p.local, p.peer, p.issued, p.expires, p.tx, p.rx) {
            Ok(channel) => Ok(Service {
                link,
                channel,
                principal: p.principal,
                incarnation: p.incarnation,
                interface: p.interface,
                closed: false,
                calls: Ghost(Seq::empty()),
            }),
            Err(e) => {
                link.close();
                Err(status(e))
            },
        }
    }

    /// Closes once: revokes both queues and closes the link; later calls do
    /// nothing.
    pub fn close(&mut self)
        requires
            service_wf(old(self)@),
        ensures
            service_wf(final(self)@),
            final(self)@ == close_spec(old(self)@),
            old(self)@.closed ==> final(self).driver() == old(self).driver() && final(self).link_calls()
                == old(self).link_calls(),
            !old(self)@.closed ==> final(self).link_calls() == old(self).link_calls().push(LinkCall::Close),
            close_count(final(self).link_calls()) == close_count(old(self).link_calls()) + if !old(self)@.closed {
                1nat
            } else {
                0nat
            },
    {
        if !self.closed {
            self.closed = true;
            self.channel.revoke();
            self.link.close();
            proof {
                lemma_close_count_push(self.calls@, LinkCall::Close);
                self.calls@ = self.calls@.push(LinkCall::Close);
            }
        }
    }

    fn clock(&mut self, tick: Result<u64, ()>) -> (r: Result<u64, Status>)
        requires
            service_wf(old(self)@),
            !old(self)@.closed,
        ensures
            service_wf(final(self)@),
            final(self)@ == time_spec(old(self)@, tick).0,
            r == time_spec(old(self)@, tick).1,
            !final(self)@.closed ==> final(self).link_calls() == old(self).link_calls(),
            final(self)@.closed ==> final(self).link_calls() == old(self).link_calls().push(LinkCall::Close),
            close_count(final(self).link_calls()) == close_count(old(self).link_calls()) + if final(self)@.closed {
                1nat
            } else {
                0nat
            },
    {
        match tick {
            Err(()) => {
                self.close();
                Err(Status::Io)
            },
            Ok(now) => match self.channel.maintain(now) {
                Ok(()) => Ok(now),
                Err(e) => {
                    self.close();
                    Err(status(e))
                },
            },
        }
    }

    /// Answers one kernel envelope of at most 128 bytes. It never grants a
    /// capability; a send is acknowledged once queued, not once delivered.
    pub fn request(&mut self, principal: u64, incarnation: u64, bytes: &[u8]) -> (r: Reply)
        requires
            service_wf(old(self)@),
        ensures
            service_wf(final(self)@),
            exists|tick: Result<u64, ()>| #[trigger]
                request_spec(old(self)@, principal, incarnation, bytes@, tick) == (final(self)@, r@)
                    && final(self).link_calls() == old(self).link_calls() + request_calls(
                    old(self)@,
                    principal,
                    incarnation,
                    bytes@,
                    tick,
                ),
            !request_uses_link(old(self)@, principal, incarnation, bytes@) ==> final(self).driver() == old(self).driver()
                && final(self).link_calls() == old(self).link_calls(),
            close_count(final(self).link_calls()) == close_count(old(self).link_calls()) + if !old(self)@.closed
                && final(self)@.closed {
                1nat
            } else {
                0nat
            },
    {
        let ghost s0 = self@;
        let none: [u8; 0] = [];
        proof {
            assert(none@ =~= Seq::<u8>::empty());
        }
        if principal != self.principal || incarnation != self.incarnation {
            let r = Reply::new(0, 0, Status::Denied, &none);
            proof {
                assert(reply_header(0, 0, Status::Denied) + Seq::<u8>::empty() =~= reply_header(0, 0, Status::Denied));
                assert(request_spec(s0, principal, incarnation, bytes@, Err(())) == (self@, r@));
            }
            return r;
        }
        let (op, id) = match parse(bytes) {
            Some(v) => v,
            None => {
                let r = Reply::new(0, 0, Status::Invalid, &none);
                proof {
                    assert(reply_header(0, 0, Status::Invalid) + Seq::<u8>::empty() =~= reply_header(0, 0, Status::Invalid));
                    assert(request_spec(s0, principal, incarnation, bytes@, Err(())) == (self@, r@));
                }
                return r;
            },
        };
        if self.closed {
            let r = Reply::new(op, id, Status::Closed, &none);
            proof {
                assert(reply_header(op, id, Status::Closed) + Seq::<u8>::empty() =~= reply_header(op, id, Status::Closed));
                assert(request_spec(s0, principal, incarnation, bytes@, Err(())) == (self@, r@));
            }
            return r;
        }
        let tick = self.link_ticks();
        let now = match self.clock(tick) {
            Ok(n) => n,
            Err(e) => {
                let r = Reply::new(op, id, e, &none);
                proof {
                    assert(reply_header(op, id, e) + Seq::<u8>::empty() =~= reply_header(op, id, e));
                    assert(request_spec(s0, principal, incarnation, bytes@, tick) == (self@, r@));
                }
                return r;
            },
        };
        if op == 3 {
            self.close();
            let r = Reply::new(op, id, Status::Success, &none);
            proof {
                assert(reply_header(op, id, Status::Success) + Seq::<u8>::empty() =~= reply_header(op, id, Status::Success));
                assert(request_spec(s0, principal, incarnation, bytes@, tick) == (self@, r@));
            }
            return r;
        }
        if op == 1 {
            let payload = &bytes[HEADER..bytes.len()];
            let result = self.channel.enqueue(principal, incarnation, now, payload);
            let st = match result {
                Ok(()) => Status::Success,
                Err(e) => status(e),
            };
            let r = Reply::new(op, id, st, &none);
            proof {
                assert(reply_header(op, id, st) + Seq::<u8>::empty() =~= reply_header(op, id, st));
                assert(request_spec(s0, principal, incarnation, bytes@, tick) == (self@, r@));
            }
            return r;
        }
        match self.channel.receive(principal, incarnation, now) {
            Err(e) => {
                let st = status(e);
                let r = Reply::new(op, id, st, &none);
                proof {
                    assert(reply_header(op, id, st) + Seq::<u8>::empty() =~= reply_header(op, id, st));
                    assert(request_spec(s0, principal, incarnation, bytes@, tick) == (self@, r@));
                }
                r
            },
            Ok(data) => {
                let d = data.bytes();
                if d.len() > APP_PAYLOAD {
                    let r = Reply::new(op, id, Status::Oversize, &none);
                    proof {
                        assert(reply_header(op, id, Status::Oversize) + Seq::<u8>::empty() =~= reply_header(op, id, Status::Oversize));
                        assert(request_spec(s0, principal, incarnation, bytes@, tick) == (self@, r@));
                    }
                    r
                } else {
                    let r = Reply::new(op, id, Status::Success, d);
                    proof {
                        assert(request_spec(s0, principal, incarnation, bytes@, tick) == (self@, r@));
                    }
                    r
                }
            },
        }
    }

    /// At most one receive and one transmit attempt per call. Malformed
    /// ingress is charged but does not starve a queued transmit; expiry is
    /// checked again before the transmit, since the driver may yield.
    #[verifier::rlimit(40)]
    pub fn poll(&mut self) -> (r: Result<(), Status>)
        requires
            service_wf(old(self)@),
        ensures
            service_wf(final(self)@),
            exists|tick: Result<u64, ()>, received: Result<Option<usize>, ()>, frame: Seq<u8>, tick2: Result<u64, ()>, written: Result<(), ()>|
                #[trigger] poll_spec(old(self)@, tick, received, frame, tick2, written) == (final(self)@, r)
                    && final(self).link_calls() == old(self).link_calls() + poll_calls(
                    old(self)@,
                    tick,
                    received,
                    frame,
                    tick2,
                    written,
                ),
            old(self)@.closed ==> final(self).driver() == old(self).driver() && r == Err::<(), Status>(Status::Closed)
                && final(self).link_calls() == old(self).link_calls(),
            r is Err ==> final(self)@.closed,
            close_count(final(self).link_calls()) == close_count(old(self).link_calls()) + if !old(self)@.closed
                && final(self)@.closed {
                1nat
            } else {
                0nat
            },
            final(self)@.closed && !old(self)@.closed ==> final(self).link_calls().last() is Close,
    {
        let ghost s0 = self@;
        let ghost c0 = self.calls@;
        if self.closed {
            proof {
                assert(poll_spec(s0, Err(()), Err(()), Seq::empty(), Err(()), Err(())) == (self@, Err::<(), Status>(Status::Closed)));
                assert(self.calls@ =~= c0 + poll_calls(s0, Err(()), Err(()), Seq::empty(), Err(()), Err(())));
            }
            return Err(Status::Closed);
        }
        let tick = self.link_ticks();
        let now = match self.clock(tick) {
            Ok(n) => n,
            Err(e) => {
                proof {
                    assert(poll_spec(s0, tick, Err(()), Seq::empty(), Err(()), Err(())) == (self@, Err::<(), Status>(e)));
                    assert(self.calls@ =~= c0 + poll_calls(s0, tick, Err(()), Seq::empty(), Err(()), Err(())));
                }
                return Err(e);
            },
        };
        let ghost s1 = self@;
        let mut frame = [0u8; 554];
        let received = self.link_receive(&mut frame);
        assert(self@ == s1);
        match received {
            Err(()) => {
                self.close();
                proof {
                    assert(poll_spec(s0, tick, received, frame@, Err(()), Err(())) == (self@, Err::<(), Status>(Status::Io)));
                    assert(self.calls@ =~= c0 + poll_calls(s0, tick, received, frame@, Err(()), Err(())));
                }
                return Err(Status::Io);
            },
            Ok(Some(n)) => {
                if n < 60 || n > MAX_FRAME {
                    self.close();
                    proof {
                        assert(poll_spec(s0, tick, received, frame@, Err(()), Err(())) == (self@, Err::<(), Status>(Status::Io)));
                    assert(self.calls@ =~= c0 + poll_calls(s0, tick, received, frame@, Err(()), Err(())));
                    }
                    return Err(Status::Io);
                }
                let ri = self.channel.ingress(self.interface, now, &frame[0..n]);
                match ri {
                    Ok(()) => {},
                    Err(channel::Error::Invalid) => {},
                    Err(channel::Error::Full) => {},
                    Err(e) => {
                        self.close();
                        proof {
                            assert(poll_spec(s0, tick, received, frame@, Err(()), Err(())) == (self@, Err::<(), Status>(status_spec(e))));
                    assert(self.calls@ =~= c0 + poll_calls(s0, tick, received, frame@, Err(()), Err(())));
                        }
                        return Err(status(e));
                    },
                }
            },
            Ok(None) => {},
        }
        let ghost s2 = self@;
        assert(ingress_step(s1, now, received, frame@) == (s2, Ok::<(), Status>(())));
        let tick2 = self.link_ticks();
        let now2 = match self.clock(tick2) {
            Ok(n) => n,
            Err(e) => {
                proof {
                    assert(poll_spec(s0, tick, received, frame@, tick2, Err(())) == (self@, Err::<(), Status>(e)));
                    assert(self.calls@ =~= c0 + poll_calls(s0, tick, received, frame@, tick2, Err(())));
                }
                return Err(e);
            },
        };
        let ghost s3 = self@;
        let ghost written: Result<(), ()> = Ok(());
        let rt = match self.channel.dequeue(self.interface, now2) {
            Err(e) => Err(e),
            Ok(f) => {
                let w = self.link_send(f.as_slice());
                proof {
                    written = w;
                }
                self.channel.settle(w.is_ok())
            },
        };
        match rt {
            Ok(()) => {
                proof {
                    assert(poll_spec(s0, tick, received, frame@, tick2, written) == (self@, Ok::<(), Status>(())));
                    assert(self.calls@ =~= c0 + poll_calls(s0, tick, received, frame@, tick2, written));
                }
                Ok(())
            },
            Err(channel::Error::Empty) => {
                proof {
                    assert(poll_spec(s0, tick, received, frame@, tick2, written) == (self@, Ok::<(), Status>(())));
                    assert(self.calls@ =~= c0 + poll_calls(s0, tick, received, frame@, tick2, written));
                }
                Ok(())
            },
            Err(e) => {
                self.close();
                proof {
                    assert(poll_spec(s0, tick, received, frame@, tick2, written) == (self@, Err::<(), Status>(status_spec(e))));
                    assert(self.calls@ =~= c0 + poll_calls(s0, tick, received, frame@, tick2, written));
                }
                Err(status(e))
            },
        }
    }

}

/// A request from another identity, a malformed request, or any request to
/// a closed service changes nothing, whatever the clock would have said.
pub proof fn law_refused_request_changes_nothing(s: ServiceView, principal: u64, incarnation: u64, bytes: Seq<u8>, tick: Result<u64, ()>)
    requires
        !request_uses_link(s, principal, incarnation, bytes),
    ensures
        request_spec(s, principal, incarnation, bytes, tick).0 == s,
{
}

/// Once closed, a service stays closed: every poll reports `Closed` and
/// every request leaves it as it is, whatever the link answers.
pub proof fn law_close_is_sticky(
    s: ServiceView,
    tick: Result<u64, ()>,
    received: Result<Option<usize>, ()>,
    frame: Seq<u8>,
    tick2: Result<u64, ()>,
    written: Result<(), ()>,
    principal: u64,
    incarnation: u64,
    bytes: Seq<u8>,
)
    requires
        s.closed,
    ensures
        poll_spec(s, tick, received, frame, tick2, written) == (s, Err::<(), Status>(Status::Closed)),
        request_spec(s, principal, incarnation, bytes, tick).0 == s,
        close_spec(s) == s,
{
}

/// A failed poll leaves the service closed with both queues empty.
pub proof fn law_failed_poll_revokes_both_queues(
    s: ServiceView,
    tick: Result<u64, ()>,
    received: Result<Option<usize>, ()>,
    frame: Seq<u8>,
    tick2: Result<u64, ()>,
    written: Result<(), ()>,
)
    requires
        service_wf(s),
        poll_spec(s, tick, received, frame, tick2, written).1 is Err,
    ensures
        poll_spec(s, tick, received, frame, tick2, written).0.closed,
        poll_spec(s, tick, received, frame, tick2, written).0.channel.tx.len() == 0,
        poll_spec(s, tick, received, frame, tick2, written).0.channel.rx.len() == 0,
{
}

proof fn lemma_close_count_concat(a: Seq<LinkCall>, b: Seq<LinkCall>)
    ensures
        close_count(a + b) == close_count(a) + close_count(b),
    decreases b.len(),
{
    if b.len() > 0 {
        lemma_close_count_concat(a, b.drop_last());
        assert((a + b).drop_last() =~= a + b.drop_last());
    } else {
        assert(a + b =~= a);
    }
}

proof fn lemma_close_count_small(x: LinkCall, closes: bool)
    ensures
        close_count(seq![x]) == if x is Close { 1nat } else { 0nat },
        close_count(closing(closes)) == if closes { 1nat } else { 0nat },
        close_count(Seq::<LinkCall>::empty()) == 0,
{
    assert(close_count(Seq::<LinkCall>::empty()) == 0);
    assert(seq![x].drop_last() =~= Seq::<LinkCall>::empty());
    assert(seq![x].last() == x);
    assert(seq![LinkCall::Close].drop_last() =~= Seq::<LinkCall>::empty());
    assert(seq![LinkCall::Close].last() == LinkCall::Close);
}

/// A failed poll closes the link exactly once, as its last call, and
/// leaves both queues empty; from then on every poll answers `Closed` and
/// every request changes nothing, a well-formed one from the owner answering
/// `Closed`, and neither makes any link call, whatever the link would say.
pub proof fn law_failed_poll_then_closed(
    s: ServiceView,
    tick: Result<u64, ()>,
    received: Result<Option<usize>, ()>,
    frame: Seq<u8>,
    tick2: Result<u64, ()>,
    written: Result<(), ()>,
    later: (Result<u64, ()>, Result<Option<usize>, ()>, Seq<u8>, Result<u64, ()>, Result<(), ()>),
    principal: u64,
    incarnation: u64,
    bytes: Seq<u8>,
)
    requires
        service_wf(s),
        !s.closed,
        poll_spec(s, tick, received, frame, tick2, written).1 is Err,
    ensures
        ({
            let after = poll_spec(s, tick, received, frame, tick2, written).0;
            let calls = poll_calls(s, tick, received, frame, tick2, written);
            &&& after.closed
            &&& after.channel.tx.len() == 0 && after.channel.rx.len() == 0
            &&& close_count(calls) == 1
            &&& calls.last() is Close
            &&& poll_spec(after, later.0, later.1, later.2, later.3, later.4) == (after, Err::<(), Status>(Status::Closed))
            &&& poll_calls(after, later.0, later.1, later.2, later.3, later.4) == Seq::<LinkCall>::empty()
            &&& request_spec(after, principal, incarnation, bytes, later.0).0 == after
            &&& request_calls(after, principal, incarnation, bytes, later.0) == Seq::<LinkCall>::empty()
            &&& (principal == after.principal && incarnation == after.incarnation && parse_spec(bytes) is Some)
                ==> request_spec(after, principal, incarnation, bytes, later.0).1 == reply_header(
                parse_spec(bytes)->Some_0.0,
                parse_spec(bytes)->Some_0.1,
                Status::Closed,
            )
        }),
{
    let (s1, r1) = time_spec(s, tick);
    let c1 = seq![LinkCall::Ticks(tick)] + closing(r1 is Err);
    lemma_close_count_small(LinkCall::Ticks(tick), r1 is Err);
    lemma_close_count_concat(seq![LinkCall::Ticks(tick)], closing(r1 is Err));
    if let Ok(now) = r1 {
        let (s2, r2) = ingress_step(s1, now, received, frame);
        let c2 = c1 + seq![LinkCall::Receive(received, frame)] + closing(r2 is Err);
        lemma_close_count_small(LinkCall::Receive(received, frame), r2 is Err);
        lemma_close_count_concat(c1, seq![LinkCall::Receive(received, frame)]);
        lemma_close_count_concat(c1 + seq![LinkCall::Receive(received, frame)], closing(r2 is Err));
        if r2 is Ok {
            let (s3, r3) = time_spec(s2, tick2);
            let c3 = c2 + seq![LinkCall::Ticks(tick2)] + closing(r3 is Err);
            lemma_close_count_small(LinkCall::Ticks(tick2), r3 is Err);
            lemma_close_count_concat(c2, seq![LinkCall::Ticks(tick2)]);
            lemma_close_count_concat(c2 + seq![LinkCall::Ticks(tick2)], closing(r3 is Err));
            if let Ok(now2) = r3 {
                lemma_close_count_small(LinkCall::Send(written), written is Err);
                lemma_close_count_small(LinkCall::Close, false);
                lemma_close_count_concat(c3, seq![LinkCall::Send(written)]);
                lemma_close_count_concat(c3 + seq![LinkCall::Send(written)], closing(written is Err));
                lemma_close_count_concat(c3, seq![LinkCall::Close]);
            }
        }
    }
}

/// Shape of a request: framed, a known operation, payload only for a send,
/// and a nonzero id; its operation and id.
pub open spec fn parse_spec(bytes: Seq<u8>) -> Option<(u8, u64)> {
    if bytes.len() < HEADER || bytes.len() > MESSAGE || bytes.subrange(0, 4) != magic() || bytes[4] != 0 || bytes[6]
        != 0 || bytes[7] != 0 {
        None
    } else if !(1 <= bytes[5] <= 3) || (bytes[5] != 1 && bytes.len() != HEADER) {
        None
    } else if le64(bytes, 8) == 0 {
        None
    } else {
        Some((bytes[5], le64(bytes, 8) as u64))
    }
}

fn parse(bytes: &[u8]) -> (r: Option<(u8, u64)>)
    ensures
        r == parse_spec(bytes@),
{
    if bytes.len() < HEADER || bytes.len() > MESSAGE || bytes[0] != 0x52 || bytes[1] != 0x4e || bytes[2] != 0x45
        || bytes[3] != 0x54 || bytes[4] != 0 || bytes[6] != 0 || bytes[7] != 0 {
        proof {
            if bytes@.len() >= HEADER && bytes@.len() <= MESSAGE && bytes@.subrange(0, 4) == magic() {
                assert(bytes@[0] == bytes@.subrange(0, 4)[0] && bytes@[1] == bytes@.subrange(0, 4)[1]);
                assert(bytes@[2] == bytes@.subrange(0, 4)[2] && bytes@[3] == bytes@.subrange(0, 4)[3]);
            }
        }
        return None;
    }
    proof {
        assert(bytes@.subrange(0, 4) =~= magic());
    }
    let op = bytes[5];
    if !(1 <= op && op <= 3) || (op != 1 && bytes.len() != HEADER) {
        return None;
    }
    let id = read64(bytes, 8);
    if id == 0 {
        return None;
    }
    Some((op, id))
}

/// Encodes a request from caller-owned bytes; the whole destination is
/// zeroed first, so a refusal leaves it all zero.
pub fn request_bytes(operation: u8, id: u64, payload: &[u8], out: &mut [u8; 128]) -> (r: Option<usize>)
    ensures
        match encode_spec(operation, id, payload@) {
            Some(m) => r == Some((HEADER + payload@.len()) as usize) && final(out)@ == m,
            None => r is None && final(out)@ == zeros(128),
        },
{
    encode(operation, id, payload, out)
}

} // verus!
