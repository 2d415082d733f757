use rar_os::channel::{Budget, Channel, Error, DEPTH};
use rar_os::network::{self, Endpoint, MAX_FRAME};

const A: Endpoint = Endpoint { mac: [2, 0, 0, 0, 0, 1], ip: [10, 42, 0, 1], port: 4000 };
const B: Endpoint = Endpoint { mac: [2, 0, 0, 0, 0, 2], ip: [10, 42, 0, 2], port: 4001 };

fn channel() -> Channel {
    Channel::new(6, 1 << 40, 1, A, B, 10, 100, Budget { packets: 8, bytes: 4096 }, Budget { packets: 8, bytes: 4096 })
        .unwrap()
}

fn inbound(data: &[u8]) -> ([u8; MAX_FRAME], usize) {
    let mut frame = [0; MAX_FRAME];
    let n = network::encode(B, A, 1, data, &mut frame).unwrap();
    (frame, n)
}

#[test]
fn service_owned_bytes_and_endpoints_cannot_change_after_enqueue() {
    let mut c = channel();
    let mut data = *b"hello";
    c.enqueue(6, 1 << 40, 10, &data).unwrap();
    data.fill(b'x');
    let mut observed = false;
    c.transmit(1, 11, |f| {
        assert_eq!(network::decode(f, B, A), Ok(&b"hello"[..]));
        observed = true;
        Ok(())
    })
    .unwrap();
    assert!(observed);
    assert_eq!(c.pending(), (0, 0));
    assert_eq!(c.stats().sent, 1);
    assert_eq!(c.budgets().0, Budget { packets: 7, bytes: 4036 });
}

#[test]
fn incorrect_identity_interface_and_clock_never_reach_driver() {
    let mut c = channel();
    assert_eq!(c.enqueue(7, 1 << 40, u64::MAX, b"x"), Err(Error::Denied));
    assert_eq!(c.enqueue(6, 1, 10, b"x"), Err(Error::Denied));
    c.enqueue(6, 1 << 40, 10, b"x").unwrap();
    assert_eq!(c.transmit(2, u64::MAX, |_| panic!()), Err(Error::Denied));
    assert_eq!(c.transmit(1, 9, |_| panic!()), Err(Error::Closed));
    assert_eq!(c.transmit(1, 11, |_| panic!()), Err(Error::Closed));
    assert_eq!(c.pending(), (0, 0));
}

#[test]
fn expiry_and_revocation_discard_both_queues() {
    for revoke in [true, false] {
        let mut c = channel();
        let (f, n) = inbound(b"reply");
        c.enqueue(6, 1 << 40, 10, b"x").unwrap();
        c.ingress(1, 10, &f[..n]).unwrap();
        assert_eq!(c.pending(), (1, 1));
        if revoke {
            c.revoke();
        }
        assert_eq!(c.transmit(1, 100, |_| panic!()), Err(Error::Closed));
        assert_eq!(c.receive(6, 1 << 40, 11).err(), Some(Error::Closed));
        assert_eq!(c.pending(), (0, 0));
    }
}

#[test]
fn bounded_queues_preserve_fifo_and_full_is_not_retried() {
    let mut c = channel();
    for x in 0..DEPTH {
        c.enqueue(6, 1 << 40, 10, &[x as u8]).unwrap();
    }
    let before = c.budgets();
    assert_eq!(c.enqueue(6, 1 << 40, 10, b"extra"), Err(Error::Full));
    assert_eq!(c.budgets(), before);
    for x in 0..DEPTH {
        c.transmit(1, 11, |f| {
            assert_eq!(network::decode(f, B, A), Ok(&[x as u8][..]));
            Ok(())
        })
        .unwrap();
    }
    assert_eq!(c.transmit(1, 11, |_| panic!()), Err(Error::Empty));
}

#[test]
fn uncertain_io_consumes_frame_without_automatic_replay() {
    let mut c = channel();
    c.enqueue(6, 1 << 40, 10, b"x").unwrap();
    c.enqueue(6, 1 << 40, 10, b"second").unwrap();
    let before = c.budgets();
    assert_eq!(c.transmit(1, 11, |_| Err(())), Err(Error::Io));
    assert_eq!(c.transmit(1, 12, |_| panic!()), Err(Error::Closed));
    assert_eq!(c.pending(), (0, 0));
    assert_eq!(c.budgets(), before);
    assert_eq!(c.stats().io_failed, 1);
}

#[test]
fn ingress_charges_invalid_padding_and_full_frames_before_parsing() {
    let mut c = channel();
    assert_eq!(c.ingress(1, 10, &[0; MAX_FRAME]), Err(Error::Invalid));
    assert_eq!(c.budgets().1, Budget { packets: 7, bytes: 4096 - MAX_FRAME as u32 });
    let (f, n) = inbound(b"x");
    for _ in 0..DEPTH {
        c.ingress(1, 10, &f[..n]).unwrap();
    }
    assert_eq!(c.ingress(1, 10, &f[..n]), Err(Error::Full));
    assert_eq!(c.stats().dropped, 2);
    for _ in 0..DEPTH {
        assert_eq!(c.receive(6, 1 << 40, 11).unwrap().bytes(), b"x");
    }
    assert_eq!(c.receive(6, 1 << 40, 11).err(), Some(Error::Empty));
}

#[test]
fn receive_is_copied_scoped_and_service_restart_has_no_old_queues() {
    let mut c = channel();
    let (mut f, n) = inbound(b"secret");
    c.ingress(1, 10, &f[..n]).unwrap();
    f.fill(0);
    assert_eq!(c.receive(7, 1 << 40, u64::MAX).err(), Some(Error::Denied));
    assert_eq!(c.receive(6, 1, 11).err(), Some(Error::Denied));
    assert_eq!(c.receive(6, 1 << 40, 11).unwrap().bytes(), b"secret");
    drop(c);
    let mut fresh = Channel::new(
        6,
        (1 << 40) + 1,
        1,
        A,
        B,
        10,
        100,
        Budget { packets: 1, bytes: 60 },
        Budget { packets: 1, bytes: 60 },
    )
    .unwrap();
    assert_eq!(fresh.enqueue(6, 1 << 40, 10, b"x"), Err(Error::Denied));
    assert_eq!(fresh.pending(), (0, 0));
}

#[test]
fn wire_budget_accounts_headers_and_empty_datagrams() {
    let mut c =
        Channel::new(6, 1, 1, A, B, 0, 100, Budget { packets: 100, bytes: 60 }, Budget { packets: 1, bytes: 60 })
            .unwrap();
    c.enqueue(6, 1, 0, b"").unwrap();
    assert_eq!(c.enqueue(6, 1, 0, b""), Err(Error::Budget));
    let (f, n) = inbound(b"");
    c.ingress(1, 0, &f[..n]).unwrap();
    assert_eq!(c.ingress(1, 0, &f[..n]), Err(Error::Budget));
    assert_eq!(c.budgets(), (Budget { packets: 99, bytes: 0 }, Budget { packets: 0, bytes: 0 }));
}

#[test]
fn ingress_budget_failure_is_sticky_even_for_smaller_later_frames() {
    let mut c =
        Channel::new(6, 1, 1, A, B, 0, 100, Budget { packets: 1, bytes: 60 }, Budget { packets: 5, bytes: 60 })
            .unwrap();
    let (large, n) = inbound(&[0; 100]);
    assert_eq!(c.ingress(1, 0, &large[..n]), Err(Error::Budget));
    let (small, n) = inbound(b"");
    assert_eq!(c.ingress(1, 0, &small[..n]), Err(Error::Closed));
    assert_eq!(c.pending(), (0, 0));
}

#[test]
fn all_invalid_construction_boundaries_refuse() {
    let good = Budget { packets: 1, bytes: 60 };
    for (principal, incarnation, interface, local, peer, now, expiry, tx, rx) in [
        (0, 1, 1, A, B, 0, 10, good, good),
        (1, 0, 1, A, B, 0, 10, good, good),
        (1, 1, 0, A, B, 0, 10, good, good),
        (1, 1, 1, A, B, 10, 10, good, good),
        (1, 1, 1, A, B, 11, 10, good, good),
        (1, 1, 1, A, A, 0, 10, good, good),
        (1, 1, 1, A, Endpoint { mac: A.mac, ..B }, 0, 10, good, good),
        (1, 1, 1, A, Endpoint { ip: A.ip, ..B }, 0, 10, good, good),
        (1, 1, 1, Endpoint { port: 0, ..A }, B, 0, 10, good, good),
        (1, 1, 1, A, Endpoint { port: 0, ..B }, 0, 10, good, good),
        (1, 1, 1, A, B, 0, 10, Budget { packets: 0, ..good }, good),
        (1, 1, 1, A, B, 0, 10, good, Budget { packets: 0, ..good }),
        (1, 1, 1, A, B, 0, 10, Budget { bytes: 59, ..good }, good),
        (1, 1, 1, A, B, 0, 10, good, Budget { bytes: 59, ..good }),
    ] {
        assert!(Channel::new(principal, incarnation, interface, local, peer, now, expiry, tx, rx).is_err());
    }
}

#[test]
fn invalid_configuration_and_oversize_have_no_partial_effect() {
    for interface in [0] {
        assert!(Channel::new(1, 1, interface, A, B, 0, 10, Budget { packets: 1, bytes: 60 }, Budget {
            packets: 1,
            bytes: 60,
        })
        .is_err());
    }
    let mut c = channel();
    let before = c.budgets();
    assert_eq!(c.enqueue(6, 1 << 40, 10, &[0; 513]), Err(Error::Invalid));
    assert_eq!(c.budgets(), before);
    assert_eq!(c.pending(), (0, 0));
}
