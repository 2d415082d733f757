use rar_os::channel::Budget;
use rar_os::network::{self, Endpoint, MAX_FRAME};
use rar_os::service::{request_bytes, Link, Policy, Reply, Service, Status, APP_PAYLOAD, HEADER, MESSAGE};
use std::cell::Cell;
use std::rc::Rc;

const A: Endpoint = Endpoint { mac: [2, 0, 0, 0, 0, 1], ip: [10, 42, 0, 1], port: 4000 };
const B: Endpoint = Endpoint { mac: [2, 0, 0, 0, 0, 2], ip: [10, 42, 0, 2], port: 4001 };

#[derive(Default)]
struct Wire {
    now: u64,
    after_receive: Option<u64>,
    fail: u8,
    reads: usize,
    writes: usize,
    clocks: usize,
    closed: usize,
    closed_observer: Rc<Cell<usize>>,
    bad_length: Option<usize>,
    incoming: Option<Vec<u8>>,
    outgoing: Vec<u8>,
}

impl Link for Wire {
    fn ticks(&mut self) -> Result<u64, ()> {
        self.clocks += 1;
        if self.fail == 1 {
            Err(())
        } else {
            Ok(self.now)
        }
    }

    fn send(&mut self, b: &[u8]) -> Result<(), ()> {
        self.writes += 1;
        if self.fail == 2 {
            return Err(());
        }
        self.outgoing = b.to_vec();
        Ok(())
    }

    fn receive(&mut self, out: &mut [u8; MAX_FRAME]) -> Result<Option<usize>, ()> {
        self.reads += 1;
        if let Some(n) = self.after_receive {
            self.now = n;
        }
        if self.fail == 3 {
            return Err(());
        }
        if let Some(n) = self.bad_length {
            return Ok(Some(n));
        }
        if self.fail == 4 {
            return Ok(Some(MAX_FRAME + 1));
        }
        if let Some(b) = self.incoming.take() {
            out[..b.len()].copy_from_slice(&b);
            Ok(Some(b.len()))
        } else {
            Ok(None)
        }
    }

    fn close(&mut self) {
        self.closed += 1;
        self.closed_observer.set(self.closed);
    }
}

fn policy() -> Policy {
    Policy {
        principal: 6,
        incarnation: 1 << 40,
        interface: 1,
        local: A,
        peer: B,
        issued: 0,
        expires: 100,
        tx: Budget { packets: 8, bytes: 4096 },
        rx: Budget { packets: 8, bytes: 4096 },
    }
}

fn service() -> Service<Wire> {
    match Service::new(Wire::default(), policy()) {
        Ok(s) => s,
        Err(e) => panic!("{:?}", e),
    }
}

fn req(op: u8, data: &[u8]) -> Vec<u8> {
    let mut out = [0; MESSAGE];
    let n = request_bytes(op, u64::MAX, data, &mut out).unwrap();
    out[..n].to_vec()
}

fn incoming(data: &[u8]) -> Vec<u8> {
    let mut out = [0; MAX_FRAME];
    let n = network::encode(B, A, 0, data, &mut out).unwrap();
    out[..n].to_vec()
}

fn request(s: &mut Service<Wire>, op: u8, data: &[u8]) -> Reply {
    s.request(6, 1 << 40, &req(op, data))
}

fn assert_closed(s: &mut Service<Wire>) {
    let before = (s.link.reads, s.link.writes, s.link.clocks, s.link.closed);
    assert_eq!(s.poll(), Err(Status::Closed));
    assert_eq!(request(s, 1, b"x").status(), Status::Closed);
    s.close();
    assert_eq!((s.link.reads, s.link.writes, s.link.clocks, s.link.closed), before);
    assert_eq!(s.channel.pending(), (0, 0));
    assert_eq!(s.link.closed, 1);
}

#[test]
fn service_copies_application_request_and_actual_driver_frame() {
    let mut s = service();
    let mut r = req(1, b"challenge");
    assert_eq!(s.request(6, 1 << 40, &r).status(), Status::Success);
    r.fill(0);
    assert_eq!(s.link.writes, 0);
    s.poll().unwrap();
    assert_eq!(network::decode(&s.link.outgoing, B, A), Ok(&b"challenge"[..]));
    s.link.incoming = Some(incoming(b"response"));
    s.poll().unwrap();
    let reply = request(&mut s, 2, b"");
    assert_eq!(reply.status(), Status::Success);
    assert_eq!(&reply.bytes()[HEADER..], b"response");
    assert_eq!(&reply.bytes()[8..16], &u64::MAX.to_le_bytes());
}

#[test]
fn untrusted_identity_and_malformed_messages_have_no_io_or_budget_effect() {
    let mut s = service();
    let r = req(1, b"x");
    for (p, i) in [(7, 1 << 40), (6, 1), (0, 0)] {
        assert_eq!(s.request(p, i, &r).status(), Status::Denied);
    }
    for n in 0..HEADER {
        assert_eq!(s.request(6, 1 << 40, &r[..n]).status(), Status::Invalid);
    }
    for field in [0, 1, 2, 3, 4, 5, 6, 7] {
        let mut bad = r.clone();
        bad[field] = 255;
        assert_eq!(s.request(6, 1 << 40, &bad).status(), Status::Invalid);
    }
    let mut bad = r.clone();
    bad[8..16].fill(0);
    assert_eq!(s.request(6, 1 << 40, &bad).status(), Status::Invalid);
    for op in [2, 3] {
        let mut bad = r.clone();
        bad[5] = op;
        assert_eq!(s.request(6, 1 << 40, &bad).status(), Status::Invalid);
    }
    assert_eq!(s.request(6, 1 << 40, &[0; 129]).status(), Status::Invalid);
    assert_eq!((s.link.clocks, s.link.reads, s.link.writes), (0, 0, 0));
    assert_eq!(s.channel.budgets(), (policy().tx, policy().rx));
}

#[test]
fn all_application_lengths_round_trip_and_oversize_is_not_truncated() {
    for n in 0..=APP_PAYLOAD {
        let mut s = service();
        let data = vec![0x37; n];
        assert_eq!(request(&mut s, 1, &data).status(), Status::Success);
        s.poll().unwrap();
        assert_eq!(network::decode(&s.link.outgoing, B, A), Ok(&data[..]));
        s.link.incoming = Some(incoming(&data));
        s.poll().unwrap();
        let r = request(&mut s, 2, b"");
        assert_eq!(r.status(), Status::Success);
        assert_eq!(&r.bytes()[HEADER..], &data[..]);
    }
    let mut s = service();
    s.link.incoming = Some(incoming(&[0x77; APP_PAYLOAD + 1]));
    s.poll().unwrap();
    let r = request(&mut s, 2, b"");
    assert_eq!(r.status(), Status::Oversize);
    assert_eq!(r.bytes().len(), HEADER);
    assert_eq!(request(&mut s, 2, b"").status(), Status::Empty);
}

#[test]
fn expiry_between_receive_and_send_prevents_transmission() {
    for time in [100, u64::MAX] {
        let mut s = service();
        request(&mut s, 1, b"queued");
        s.link.after_receive = Some(time);
        assert_eq!(s.poll(), Err(Status::Closed));
        assert_eq!(s.link.writes, 0);
        assert_closed(&mut s);
    }
    let mut s = service();
    s.link.now = 10;
    request(&mut s, 1, b"queued");
    s.link.after_receive = Some(9);
    assert_eq!(s.poll(), Err(Status::Closed));
    assert_eq!(s.link.writes, 0);
    assert_closed(&mut s);
}

#[test]
fn every_link_failure_revokes_both_queues_and_never_retries() {
    for fault in 1..=4 {
        let mut s = service();
        s.link.incoming = Some(incoming(b"queued reply"));
        s.poll().unwrap();
        request(&mut s, 1, b"one");
        request(&mut s, 1, b"two");
        assert_eq!(s.channel.pending(), (2, 1));
        s.link.fail = fault;
        assert_eq!(s.poll(), Err(Status::Io));
        assert_closed(&mut s);
    }
}

#[test]
fn malformed_ingress_does_not_starve_one_queued_send() {
    let mut s = service();
    request(&mut s, 1, b"out");
    s.link.incoming = Some(vec![0; 60]);
    s.poll().unwrap();
    assert_eq!((s.link.reads, s.link.writes), (1, 1));
    assert_eq!(s.channel.stats().dropped, 1);
}

#[test]
fn receive_budget_and_client_close_are_sticky() {
    let mut p = policy();
    p.rx = Budget { packets: 1, bytes: 60 };
    let mut s = match Service::new(Wire::default(), p) {
        Ok(s) => s,
        Err(e) => panic!("{:?}", e),
    };
    s.link.incoming = Some(incoming(&[1; 100]));
    assert_eq!(s.poll(), Err(Status::Budget));
    assert_closed(&mut s);
    let mut s = service();
    request(&mut s, 1, b"queued");
    assert_eq!(request(&mut s, 3, b"").status(), Status::Success);
    assert_closed(&mut s);
}

#[test]
fn encoder_rejects_invalid_shape_and_erases_destination() {
    for (op, id, n) in [(0, 1, 0), (4, 1, 0), (1, 0, 0), (1, 1, 113), (2, 1, 1), (3, 1, 1)] {
        let mut out = [0xaa; MESSAGE];
        assert_eq!(request_bytes(op, id, &vec![0; n], &mut out), None);
        assert_eq!(out, [0; MESSAGE]);
    }
}

#[test]
fn every_invalid_driver_length_closes_before_slice_construction() {
    for n in [0, 1, 59, MAX_FRAME + 1, usize::MAX] {
        let mut s = service();
        s.link.bad_length = Some(n);
        assert_eq!(s.poll(), Err(Status::Io));
        assert_closed(&mut s);
    }
}

#[test]
fn invalid_policy_closes_supplied_link_exactly_once() {
    for field in 0..5 {
        let link = Wire::default();
        let closed = link.closed_observer.clone();
        let mut p = policy();
        match field {
            0 => p.principal = 0,
            1 => p.incarnation = 0,
            2 => p.interface = 0,
            3 => p.expires = p.issued,
            _ => p.tx.packets = 0,
        }
        assert!(matches!(Service::new(link, p), Err(Status::Invalid)));
        assert_eq!(closed.get(), 1);
    }
}

#[test]
fn reply_header_carries_operation_status_and_id() {
    let mut s = service();
    let r = s.request(6, 1 << 40, &req(2, b""));
    assert_eq!(r.status(), Status::Empty);
    assert_eq!(&r.bytes()[..8], &[0x52, 0x4e, 0x45, 0x54, 0, 2, Status::Empty.code(), 0]);
    assert_eq!(Status::Oversize.code(), 8);
    assert_eq!(Status::Success.code(), 0);
}
