use rar_os::expansion_wire::{Client, Error, Operation, Status, HEADER, MESSAGE};

fn reply(op: Operation, id: u64, status: u8, payload: &[u8]) -> ([u8; MESSAGE], usize) {
    let mut out = [0; MESSAGE];
    let n = HEADER + payload.len();
    out[..4].copy_from_slice(b"RNET");
    out[5] = op.code();
    out[6] = status;
    out[8..16].copy_from_slice(&id.to_le_bytes());
    out[HEADER..n].copy_from_slice(payload);
    (out, n)
}

#[test]
fn exact_request_bytes_and_correlated_reply() {
    let mut c = Client::new(7, 1 << 40).unwrap();
    let mut out = [0xaa; MESSAGE];
    assert_eq!(c.begin(Operation::Send, b"abc", &mut out), Ok(19));
    assert_eq!(&out[..19], b"RNET\0\x01\0\0\x01\0\0\0\0\0\0\0abc");
    let (r, n) = reply(Operation::Send, 1, 0, b"");
    assert_eq!(c.accept(7, 1 << 40, &r[..n]).unwrap().status, Status::Success);
    assert_eq!(c.accept(7, 1 << 40, &r[..n]), Err(Error::Unexpected));
    assert_eq!(c.begin(Operation::Receive, b"", &mut out), Ok(16));
    let (r, n) = reply(Operation::Receive, 2, 0, b"answer");
    assert_eq!(c.accept(7, 1 << 40, &r[..n]).unwrap().payload, b"answer");
}

#[test]
fn wrong_peer_and_malformed_reply_preserve_pending_request() {
    let mut c = Client::new(7, u64::MAX).unwrap();
    let mut out = [0; MESSAGE];
    c.begin(Operation::Receive, b"", &mut out).unwrap();
    let (r, n) = reply(Operation::Receive, 1, 0, b"");
    for (peer, generation) in [(6, u64::MAX), (7, 1), (7, 0)] {
        assert_eq!(c.accept(peer, generation, &r[..n]), Err(Error::Peer));
    }
    for size in 0..HEADER {
        assert_eq!(c.accept(7, u64::MAX, &r[..size]), Err(Error::Invalid));
    }
    for field in [0, 1, 2, 3, 4, 5, 6, 7, 8, 15] {
        let mut bad = r;
        bad[field] = 255;
        assert_eq!(c.accept(7, u64::MAX, &bad[..n]), Err(Error::Invalid));
    }
    assert_eq!(c.accept(7, u64::MAX, &[0; 129]), Err(Error::Invalid));
    assert_eq!(c.begin(Operation::Receive, b"", &mut out), Err(Error::Busy));
    assert_eq!(out, [0; MESSAGE]);
    assert!(c.accept(7, u64::MAX, &r[..n]).is_ok());
}

#[test]
fn only_successful_receive_may_carry_payload() {
    for op in [Operation::Send, Operation::Receive, Operation::Close] {
        for status in 0..=8 {
            let mut c = Client::new(7, 1).unwrap();
            let mut out = [0; MESSAGE];
            c.begin(op, b"", &mut out).unwrap();
            let (r, n) = reply(op, 1, status, b"x");
            assert_eq!(c.accept(7, 1, &r[..n]).is_ok(), op == Operation::Receive && status == 0);
        }
    }
}

#[test]
fn closure_uncertainty_and_id_exhaustion_never_replay() {
    for status in [0, 3, 7] {
        let mut c = Client::new(7, 1).unwrap();
        let mut out = [0; MESSAGE];
        c.begin(Operation::Close, b"", &mut out).unwrap();
        let (r, n) = reply(Operation::Close, 1, status, b"");
        c.accept(7, 1, &r[..n]).unwrap();
        assert_eq!(c.begin(Operation::Send, b"x", &mut out), Err(Error::Closed));
    }
    let mut c = Client::new(7, 1).unwrap();
    let mut out = [0; MESSAGE];
    c.begin(Operation::Send, b"x", &mut out).unwrap();
    c.retire();
    assert_eq!(c.begin(Operation::Send, b"x", &mut out), Err(Error::Closed));
    let mut c = Client::new(7, 1).unwrap();
    c.next = u64::MAX;
    assert_eq!(c.begin(Operation::Send, b"x", &mut out), Err(Error::Exhausted));
    assert!(c.pending.is_none());
    assert_eq!(out, [0; MESSAGE]);
}

#[test]
fn invalid_begin_has_no_sequence_or_pending_effect() {
    let mut c = Client::new(7, 1).unwrap();
    let mut out = [0xaa; MESSAGE];
    assert_eq!(c.begin(Operation::Receive, b"x", &mut out), Err(Error::Invalid));
    assert_eq!(c.begin(Operation::Send, &[0; 113], &mut out), Err(Error::Invalid));
    assert_eq!((c.next, c.pending), (1, None));
    assert_eq!(out, [0; MESSAGE]);
    for (p, g) in [(0, 1), (6, 1), (8, 1), (7, 0)] {
        assert!(Client::new(p, g).is_err());
    }
}
