//! Service-owned static-peer channel: bounded transmit and receive queues,
//! wire-byte budgets and a send grant, all tied to one principal incarnation,
//! one interface and one expiry. Caller identities and ticks come from the
//! kernel envelope and clock, never from application bytes.
use vstd::prelude::*;
use crate::network::{self, Endpoint, Grant, GrantView, MAX_PAYLOAD, frame_spec, frame_len, decode_spec, reserve_spec, same_bytes};

verus! {

pub const DEPTH: usize = 4;

#[derive(Clone, Copy, Debug, PartialEq, Eq, Structural)]
pub enum Error {
    Invalid,
    Denied,
    Closed,
    Full,
    Empty,
    Budget,
    Io,
}

/// One received payload, copied out of the frame it arrived in.
#[derive(Clone, Debug)]
pub struct Datagram {
    bytes: Vec<u8>,
}

impl View for Datagram {
    type V = Seq<u8>;

    closed spec fn view(&self) -> Seq<u8> {
        self.bytes@
    }
}

impl Datagram {
    pub fn bytes(&self) -> (r: &[u8])
        ensures
            r@ == self@,
    {
        self.bytes.as_slice()
    }
}

/// Packets and bytes that may still cross the wire in one direction.
#[derive(Clone, Copy, Debug, PartialEq, Eq, Structural)]
pub struct Budget {
    pub packets: u32,
    pub bytes: u32,
}

#[derive(Clone, Copy, Debug, PartialEq, Eq, Structural)]
pub struct Stats {
    pub sent: u32,
    pub received: u32,
    pub dropped: u32,
    pub io_failed: u32,
}

impl Default for Stats {
    fn default() -> (s: Self)
        ensures
            s == (Stats { sent: 0, received: 0, dropped: 0, io_failed: 0 }),
    {
        Stats { sent: 0, received: 0, dropped: 0, io_failed: 0 }
    }
}

#[verifier::ext_equal]
/// Abstract state of a channel; `tx` holds whole encoded frames and `rx`
/// received payloads, oldest first.
pub struct ChannelView {
    pub principal: u64,
    pub incarnation: u64,
    pub interface: u32,
    pub local: Endpoint,
    pub peer: Endpoint,
    pub expires: u64,
    pub clock: u64,
    pub closed: bool,
    pub grant: GrantView,
    pub tx_budget: Budget,
    pub rx_budget: Budget,
    pub tx: Seq<Seq<u8>>,
    pub rx: Seq<Seq<u8>>,
    pub packet_id: u16,
    pub stats: Stats,
}

/// A channel owned by a single service loop. It is not `Clone`: a live
/// channel cannot be snapshotted to restore its budgets.
pub struct Channel {
    principal: u64,
    incarnation: u64,
    interface: u32,
    local: Endpoint,
    peer: Endpoint,
    expires: u64,
    clock: u64,
    closed: bool,
    grant: Grant,
    tx_budget: Budget,
    rx_budget: Budget,
    tx: Vec<Vec<u8>>,
    rx: Vec<Datagram>,
    packet_id: u16,
    stats: Stats,
}

impl View for Channel {
    type V = ChannelView;

    closed spec fn view(&self) -> ChannelView {
        ChannelView {
            principal: self.principal,
            incarnation: self.incarnation,
            interface: self.interface,
            local: self.local,
            peer: self.peer,
            expires: self.expires,
            clock: self.clock,
            closed: self.closed,
            grant: self.grant@,
            tx_budget: self.tx_budget,
            rx_budget: self.rx_budget,
            tx: self.tx@.map_values(|f: Vec<u8>| f@),
            rx: self.rx@.map_values(|d: Datagram| d@),
            packet_id: self.packet_id,
            stats: self.stats,
        }
    }
}

/// Well-formedness: valid endpoints and queues within their depth.
pub open spec fn channel_wf(c: ChannelView) -> bool {
    &&& c.local.spec_valid()
    &&& c.peer.spec_valid()
    &&& c.tx.len() <= DEPTH
    &&& c.rx.len() <= DEPTH
}

/// Closing: both queues are discarded and the grant is revoked.
pub open spec fn revoke_spec(c: ChannelView) -> ChannelView {
    ChannelView { closed: true, grant: GrantView { revoked: true, ..c.grant }, tx: Seq::empty(), rx: Seq::empty(), ..c }
}

/// Liveness check on a tick: a closed channel stays closed; a tick before the
/// last one seen or at or after expiry closes it; otherwise the clock advances.
pub open spec fn live_spec(c: ChannelView, now: u64) -> (ChannelView, Result<(), Error>) {
    if c.closed {
        (c, Err(Error::Closed))
    } else if now < c.clock || now >= c.expires {
        (revoke_spec(c), Err(Error::Closed))
    } else {
        (ChannelView { clock: now, ..c }, Ok(()))
    }
}

/// An unauthenticated caller never advances the clock.
pub open spec fn caller_spec(c: ChannelView, principal: u64, incarnation: u64, now: u64) -> (ChannelView, Result<(), Error>) {
    if principal != c.principal || incarnation != c.incarnation {
        (c, Err(Error::Denied))
    } else {
        live_spec(c, now)
    }
}

pub open spec fn enqueue_spec(c: ChannelView, principal: u64, incarnation: u64, now: u64, payload: Seq<u8>) -> (ChannelView, Result<(), Error>) {
    let (c1, r1) = caller_spec(c, principal, incarnation, now);
    if r1 is Err {
        (c1, r1)
    } else if payload.len() > MAX_PAYLOAD {
        (c1, Err(Error::Invalid))
    } else if c1.tx.len() >= DEPTH {
        (c1, Err(Error::Full))
    } else {
        let frame = frame_spec(c1.local, c1.peer, c1.packet_id, payload);
        if c1.tx_budget.packets == 0 || frame.len() > c1.tx_budget.bytes {
            (c1, Err(Error::Budget))
        } else {
            let (g, rg) = reserve_spec(c1.grant, principal, incarnation, c1.peer, now, payload.len());
            if rg is Err {
                (ChannelView { grant: g, ..c1 }, Err(Error::Budget))
            } else {
                (
                    ChannelView {
                        grant: g,
                        tx_budget: Budget {
                            packets: (c1.tx_budget.packets - 1) as u32,
                            bytes: (c1.tx_budget.bytes - frame.len()) as u32,
                        },
                        packet_id: c1.packet_id.wrapping_add(1),
                        tx: c1.tx.push(frame),
                        ..c1
                    },
                    Ok(()),
                )
            }
        }
    }
}

/// The part of a transmission before the driver is called: the interface and
/// clock checks and the dequeue of the oldest frame.
pub open spec fn transmit_pre(c: ChannelView, interface: u32, now: u64) -> (ChannelView, Result<(), Error>) {
    if interface != c.interface {
        (c, Err(Error::Denied))
    } else {
        let (c1, r1) = live_spec(c, now);
        if r1 is Err {
            (c1, r1)
        } else if c1.tx.len() == 0 {
            (c1, Err(Error::Empty))
        } else {
            (ChannelView { tx: c1.tx.drop_first(), ..c1 }, Ok(()))
        }
    }
}

/// The state after the driver reported success or failure; a failure closes
/// the channel and the frame is not retried.
pub open spec fn transmit_post(c: ChannelView, written: bool) -> ChannelView {
    if written {
        ChannelView { stats: Stats { sent: c.stats.sent.saturating_add(1), ..c.stats }, ..c }
    } else {
        revoke_spec(ChannelView { stats: Stats { io_failed: c.stats.io_failed.saturating_add(1), ..c.stats }, ..c })
    }
}

pub open spec fn dropped(c: ChannelView) -> ChannelView {
    ChannelView { stats: Stats { dropped: c.stats.dropped.saturating_add(1), ..c.stats }, ..c }
}

/// Ingress is charged in full, padding and invalid frames included, before
/// any parsing; a budget failure closes the channel.
pub open spec fn ingress_spec(c: ChannelView, interface: u32, now: u64, frame: Seq<u8>) -> (ChannelView, Result<(), Error>) {
    if interface != c.interface {
        (c, Err(Error::Denied))
    } else {
        let (c1, r1) = live_spec(c, now);
        if r1 is Err {
            (c1, r1)
        } else if c1.rx_budget.packets == 0 || frame.len() > c1.rx_budget.bytes {
            (revoke_spec(dropped(c1)), Err(Error::Budget))
        } else {
            let c2 = ChannelView {
                rx_budget: Budget {
                    packets: (c1.rx_budget.packets - 1) as u32,
                    bytes: (c1.rx_budget.bytes - frame.len()) as u32,
                },
                ..c1
            };
            match decode_spec(frame, c2.local, c2.peer) {
                Err(_) => (dropped(c2), Err(Error::Invalid)),
                Ok((a, b)) => if c2.rx.len() >= DEPTH {
                    (dropped(c2), Err(Error::Full))
                } else {
                    (
                        ChannelView {
                            rx: c2.rx.push(frame.subrange(a, b)),
                            stats: Stats { received: c2.stats.received.saturating_add(1), ..c2.stats },
                            ..c2
                        },
                        Ok(()),
                    )
                },
            }
        }
    }
}

pub open spec fn receive_spec(c: ChannelView, principal: u64, incarnation: u64, now: u64) -> (ChannelView, Result<Seq<u8>, Error>) {
    let (c1, r1) = caller_spec(c, principal, incarnation, now);
    if r1 is Err {
        (c1, Err(r1->Err_0))
    } else if c1.rx.len() == 0 {
        (c1, Err(Error::Empty))
    } else {
        (ChannelView { rx: c1.rx.drop_first(), ..c1 }, Ok(c1.rx[0]))
    }
}

impl Channel {
    /// Installs a channel; this is trusted service policy, never an
    /// application operation.
    pub fn new(principal: u64, incarnation: u64, interface: u32, local: Endpoint, peer: Endpoint, now: u64, expires: u64, tx: Budget, rx: Budget) -> (r: Result<Self, Error>)
        ensures
            r is Err <==> (interface == 0 || !local.spec_valid() || !peer.spec_valid() || local.mac@ == peer.mac@
                || local.ip@ == peer.ip@ || tx.packets == 0 || rx.packets == 0 || tx.bytes < 60 || rx.bytes < 60
                || principal == 0 || incarnation == 0 || expires <= now),
            match r {
                Ok(c) => channel_wf(c@) && c@ == (ChannelView {
                    principal,
                    incarnation,
                    interface,
                    local,
                    peer,
                    expires,
                    clock: now,
                    closed: false,
                    grant: GrantView {
                        principal,
                        incarnation,
                        peer,
                        expires,
                        last_tick: now,
                        packets: tx.packets,
                        bytes: tx.bytes,
                        revoked: false,
                    },
                    tx_budget: tx,
                    rx_budget: rx,
                    tx: Seq::empty(),
                    rx: Seq::empty(),
                    packet_id: 0,
                    stats: Stats { sent: 0, received: 0, dropped: 0, io_failed: 0 },
                }),
                Err(e) => e == Error::Invalid,
            },
    {
        if interface == 0 || !local.valid() || !peer.valid() || same_bytes(&local.mac, &peer.mac) || same_bytes(
            &local.ip,
            &peer.ip,
        ) || tx.packets == 0 || rx.packets == 0 || tx.bytes < 60 || rx.bytes < 60 {
            return Err(Error::Invalid);
        }
        let grant = match Grant::new(principal, incarnation, peer, now, expires, tx.packets, tx.bytes) {
            Ok(g) => g,
            Err(_) => return Err(Error::Invalid),
        };
        let c = Channel {
            principal,
            incarnation,
            interface,
            local,
            peer,
            expires,
            clock: now,
            closed: false,
            grant,
            tx_budget: tx,
            rx_budget: rx,
            tx: Vec::new(),
            rx: Vec::new(),
            packet_id: 0,
            stats: Stats::default(),
        };
        proof {
            assert(c@.tx =~= Seq::<Seq<u8>>::empty());
            assert(c@.rx =~= Seq::<Seq<u8>>::empty());
        }
        Ok(c)
    }

    fn live(&mut self, now: u64) -> (r: Result<(), Error>)
        requires
            channel_wf(old(self)@),
        ensures
            channel_wf(final(self)@),
            final(self)@ == live_spec(old(self)@, now).0,
            r == live_spec(old(self)@, now).1,
    {
        if self.closed {
            return Err(Error::Closed);
        }
        if now < self.clock || now >= self.expires {
            self.revoke();
            return Err(Error::Closed);
        }
        self.clock = now;
        Ok(())
    }

    fn caller(&mut self, principal: u64, incarnation: u64, now: u64) -> (r: Result<(), Error>)
        requires
            channel_wf(old(self)@),
        ensures
            channel_wf(final(self)@),
            final(self)@ == caller_spec(old(self)@, principal, incarnation, now).0,
            r == caller_spec(old(self)@, principal, incarnation, now).1,
    {
        if principal != self.principal || incarnation != self.incarnation {
            return Err(Error::Denied);
        }
        self.live(now)
    }

    /// Closes the channel at once: no queued send or receive survives.
    /// Bytes already delivered cannot be recalled.
    pub fn revoke(&mut self)
        ensures
            final(self)@ == revoke_spec(old(self)@),
    {
        self.closed = true;
        self.grant.revoke();
        self.tx = Vec::new();
        self.rx = Vec::new();
        proof {
            assert(self@.tx =~= Seq::<Seq<u8>>::empty());
            assert(self@.rx =~= Seq::<Seq<u8>>::empty());
        }
    }

    /// Checks expiry even when there are no packets or requests.
    pub fn maintain(&mut self, now: u64) -> (r: Result<(), Error>)
        requires
            channel_wf(old(self)@),
        ensures
            channel_wf(final(self)@),
            final(self)@ == live_spec(old(self)@, now).0,
            r == live_spec(old(self)@, now).1,
    {
        self.live(now)
    }

    pub fn stats(&self) -> (r: Stats)
        ensures
            r == self@.stats,
    {
        self.stats
    }

    /// Transmit and receive budgets.
    pub fn budgets(&self) -> (r: (Budget, Budget))
        ensures
            r == (self@.tx_budget, self@.rx_budget),
    {
        (self.tx_budget, self.rx_budget)
    }

    /// Queued frames to send and payloads to deliver.
    pub fn pending(&self) -> (r: (usize, usize))
        ensures
            r.0 == self@.tx.len() && r.1 == self@.rx.len(),
    {
        (self.tx.len(), self.rx.len())
    }

    /// Copies and encodes the payload into a frame owned by the channel and
    /// then reserves its wire budget; endpoints and interface are never
    /// caller input.
    pub fn enqueue(&mut self, principal: u64, incarnation: u64, now: u64, payload: &[u8]) -> (r: Result<(), Error>)
        requires
            channel_wf(old(self)@),
        ensures
            channel_wf(final(self)@),
            final(self)@ == enqueue_spec(old(self)@, principal, incarnation, now, payload@).0,
            r == enqueue_spec(old(self)@, principal, incarnation, now, payload@).1,
    {
        let r1 = self.caller(principal, incarnation, now);
        if r1.is_err() {
            return r1;
        }
        if payload.len() > MAX_PAYLOAD {
            return Err(Error::Invalid);
        }
        if self.tx.len() >= DEPTH {
            return Err(Error::Full);
        }
        let frame = network::frame_vec(self.local, self.peer, self.packet_id, payload);
        if self.tx_budget.packets == 0 || frame.len() > self.tx_budget.bytes as usize {
            return Err(Error::Budget);
        }
        let peer = self.peer;
        if self.grant.reserve(principal, incarnation, peer, now, payload.len()).is_err() {
            return Err(Error::Budget);
        }
        self.tx_budget = Budget {
            packets: self.tx_budget.packets - 1,
            bytes: self.tx_budget.bytes - frame.len() as u32,
        };
        self.packet_id = self.packet_id.wrapping_add(1);
        let ghost before = self.tx@;
        self.tx.push(frame);
        proof {
            assert(self.tx@.map_values(|f: Vec<u8>| f@) =~= before.map_values(|f: Vec<u8>| f@).push(frame@));
        }
        Ok(())
    }

    /// Interface and clock checks, then the dequeue of the oldest frame for
    /// the driver.
    pub(crate) fn dequeue(&mut self, interface: u32, now: u64) -> (r: Result<Vec<u8>, Error>)
        requires
            channel_wf(old(self)@),
        ensures
            channel_wf(final(self)@),
            final(self)@ == transmit_pre(old(self)@, interface, now).0,
            match r {
                Ok(f) => transmit_pre(old(self)@, interface, now).1 is Ok && f@ == old(self)@.tx[0],
                Err(e) => transmit_pre(old(self)@, interface, now).1 == Err::<(), Error>(e),
            },
    {
        if interface != self.interface {
            return Err(Error::Denied);
        }
        let r1 = self.live(now);
        if let Err(e) = r1 {
            return Err(e);
        }
        if self.tx.len() == 0 {
            return Err(Error::Empty);
        }
        let ghost before = self.tx@;
        let frame = self.tx.remove(0);
        proof {
            assert(self.tx@.map_values(|f: Vec<u8>| f@) =~= before.map_values(|f: Vec<u8>| f@).drop_first());
        }
        Ok(frame)
    }

    /// Records what the driver reported for a dequeued frame.
    pub(crate) fn settle(&mut self, written: bool) -> (r: Result<(), Error>)
        requires
            channel_wf(old(self)@),
        ensures
            channel_wf(final(self)@),
            final(self)@ == transmit_post(old(self)@, written),
            r == (if written { Ok::<(), Error>(()) } else { Err(Error::Io) }),
    {
        if written {
            self.stats.sent = self.stats.sent.saturating_add(1);
            Ok(())
        } else {
            self.stats.io_failed = self.stats.io_failed.saturating_add(1);
            self.revoke();
            Err(Error::Io)
        }
    }

    /// One synchronous driver attempt with the oldest frame. A failure
    /// consumes the frame and its reservation and closes the channel; nothing
    /// is retried.
    pub fn transmit<F: FnOnce(&[u8]) -> Result<(), ()>>(&mut self, interface: u32, now: u64, write: F) -> (r: Result<(), Error>)
        requires
            channel_wf(old(self)@),
            forall|s: &[u8]| #[trigger] write.requires((s,)),
        ensures
            channel_wf(final(self)@),
            ({
                let (c1, r1) = transmit_pre(old(self)@, interface, now);
                if r1 is Err {
                    final(self)@ == c1 && r == r1
                } else {
                    exists|s: &[u8], w: Result<(), ()>|
                        #![trigger write.ensures((s,), w)]
                        s@ == old(self)@.tx[0] && write.ensures((s,), w) && final(self)@ == transmit_post(c1, w is Ok)
                            && r == (if w is Ok { Ok::<(), Error>(()) } else { Err(Error::Io) })
                }
            }),
    {
        let frame = match self.dequeue(interface, now) {
            Ok(f) => f,
            Err(e) => return Err(e),
        };
        let w = write(frame.as_slice());
        self.settle(w.is_ok())
    }

    /// Charges all ingress, invalid frames and padding included, before
    /// parsing; accepted payloads are copied into the receive queue.
    pub fn ingress(&mut self, interface: u32, now: u64, frame: &[u8]) -> (r: Result<(), Error>)
        requires
            channel_wf(old(self)@),
        ensures
            channel_wf(final(self)@),
            final(self)@ == ingress_spec(old(self)@, interface, now, frame@).0,
            r == ingress_spec(old(self)@, interface, now, frame@).1,
    {
        if interface != self.interface {
            return Err(Error::Denied);
        }
        let r1 = self.live(now);
        if r1.is_err() {
            return r1;
        }
        if self.rx_budget.packets == 0 || frame.len() > self.rx_budget.bytes as usize {
            self.stats.dropped = self.stats.dropped.saturating_add(1);
            self.revoke();
            return Err(Error::Budget);
        }
        self.rx_budget = Budget {
            packets: self.rx_budget.packets - 1,
            bytes: self.rx_budget.bytes - frame.len() as u32,
        };
        let payload = match network::decode(frame, self.local, self.peer) {
            Ok(p) => p,
            Err(_) => {
                self.stats.dropped = self.stats.dropped.saturating_add(1);
                return Err(Error::Invalid);
            },
        };
        if self.rx.len() >= DEPTH {
            self.stats.dropped = self.stats.dropped.saturating_add(1);
            return Err(Error::Full);
        }
        let mut bytes: Vec<u8> = Vec::new();
        let mut i: usize = 0;
        while i < payload.len()
            invariant
                i <= payload@.len(),
                bytes@ == payload@.subrange(0, i as int),
            decreases payload@.len() - i,
        {
            bytes.push(payload[i]);
            i = i + 1;
            proof {
                assert(bytes@ =~= payload@.subrange(0, i as int));
            }
        }
        proof {
            assert(bytes@ =~= payload@);
        }
        let ghost before = self.rx@;
        let d = Datagram { bytes };
        self.rx.push(d);
        proof {
            assert(self.rx@.map_values(|d: Datagram| d@) =~= before.map_values(|d: Datagram| d@).push(d@));
        }
        self.stats.received = self.stats.received.saturating_add(1);
        Ok(())
    }

    /// Delivers the oldest received payload to the channel's principal.
    pub fn receive(&mut self, principal: u64, incarnation: u64, now: u64) -> (r: Result<Datagram, Error>)
        requires
            channel_wf(old(self)@),
        ensures
            channel_wf(final(self)@),
            final(self)@ == receive_spec(old(self)@, principal, incarnation, now).0,
            match r {
                Ok(d) => receive_spec(old(self)@, principal, incarnation, now).1 == Ok::<Seq<u8>, Error>(d@),
                Err(e) => receive_spec(old(self)@, principal, incarnation, now).1 == Err::<Seq<u8>, Error>(e),
            },
    {
        let r1 = self.caller(principal, incarnation, now);
        if let Err(e) = r1 {
            return Err(e);
        }
        if self.rx.len() == 0 {
            return Err(Error::Empty);
        }
        let ghost before = self.rx@;
        let d = self.rx.remove(0);
        proof {
            assert(self.rx@.map_values(|d: Datagram| d@) =~= before.map_values(|d: Datagram| d@).drop_first());
        }
        Ok(d)
    }
}

/// Law: at or after its expiry, or on a tick older than the last one seen,
/// a channel closes and discards both queues and its send grant; a closed
/// channel stays closed.
pub proof fn law_expiry_discards_both_queues(c: ChannelView, now: u64)
    ensures
        !c.closed && (now >= c.expires || now < c.clock) ==> {
            let d = live_spec(c, now).0;
            &&& d.closed && d.grant.revoked
            &&& d.tx.len() == 0 && d.rx.len() == 0
            &&& live_spec(c, now).1 == Err::<(), Error>(Error::Closed)
        },
        c.closed ==> live_spec(c, now).0 == c && live_spec(c, now).1 == Err::<(), Error>(Error::Closed),
{
}

/// A transmit hands the driver the oldest queued frame, and its answer
/// decides the rest: success dequeues it and counts it sent; failure counts
/// it, revokes the channel with both queues emptied and refunds no budget,
/// and every later transmit is refused as closed without reaching the
/// driver.
pub proof fn law_transmit_outcomes(c: ChannelView, interface: u32, now: u64, later: u32, later_now: u64)
    requires
        transmit_pre(c, interface, now).1 is Ok,
    ensures
        ({
            let c1 = transmit_pre(c, interface, now).0;
            let ok = transmit_post(c1, true);
            let failed = transmit_post(c1, false);
            &&& c1.tx == c.tx.drop_first()
            &&& c.tx.len() >= 1
            &&& ok.stats.sent == c.stats.sent.saturating_add(1) && ok.tx == c.tx.drop_first()
            &&& failed.closed && failed.grant.revoked && failed.tx.len() == 0 && failed.rx.len() == 0
            &&& failed.stats.io_failed == c.stats.io_failed.saturating_add(1)
            &&& failed.tx_budget == c.tx_budget && failed.rx_budget == c.rx_budget
            &&& later == c.interface ==> transmit_pre(failed, later, later_now) == (failed, Err::<(), Error>(Error::Closed))
        }),
{
}

} // verus!
