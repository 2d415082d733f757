use rar_os::network::{complement, decode, encode, sum, Endpoint, Error, Grant, MAX_FRAME, MAX_PAYLOAD, MIN_FRAME};

const A: Endpoint = Endpoint { mac: [2, 0, 0, 0, 0, 1], ip: [10, 42, 0, 1], port: 4000 };
const B: Endpoint = Endpoint { mac: [2, 0, 0, 0, 0, 2], ip: [10, 42, 0, 2], port: 4001 };

fn word(bytes: &[u8], at: usize) -> u16 {
    u16::from_be_bytes([bytes[at], bytes[at + 1]])
}

fn put(bytes: &mut [u8], at: usize, value: u16) {
    bytes[at..at + 2].copy_from_slice(&value.to_be_bytes());
}

fn frame(payload: &[u8]) -> ([u8; MAX_FRAME], usize) {
    let mut bytes = [0; MAX_FRAME];
    let n = encode(A, B, 0x1234, payload, &mut bytes).unwrap();
    (bytes, n)
}

// Independent bit-at-a-time checksum oracle.
fn oracle(bytes: &[u8]) -> u16 {
    let mut carry = 0u32;
    for bit in (0..bytes.len() * 8).step_by(16) {
        let mut w = 0u32;
        for i in 0..16 {
            w <<= 1;
            let index = bit + i;
            if index < bytes.len() * 8 {
                w |= u32::from((bytes[index / 8] >> (7 - index % 8)) & 1);
            }
        }
        carry += w;
        carry = (carry & 65535) + (carry >> 16);
    }
    !(carry as u16)
}

fn ip_fix(f: &mut [u8]) {
    f[24] = 0;
    f[25] = 0;
    let c = oracle(&f[14..34]);
    put(f, 24, c);
}

#[test]
fn all_payload_lengths_round_trip_and_independent_checksums() {
    let mut body = [0; MAX_PAYLOAD];
    for (i, b) in body.iter_mut().enumerate() {
        *b = (i.wrapping_mul(37)) as u8;
    }
    for size in 0..=MAX_PAYLOAD {
        let (f, n) = frame(&body[..size]);
        assert_eq!(decode(&f[..n], B, A), Ok(&body[..size]));
        assert_eq!(oracle(&f[14..34]), 0);
        let mut pseudo = [0; 12 + 8 + MAX_PAYLOAD];
        pseudo[..4].copy_from_slice(&A.ip);
        pseudo[4..8].copy_from_slice(&B.ip);
        pseudo[9] = 17;
        put(&mut pseudo, 10, (8 + size) as u16);
        pseudo[12..20 + size].copy_from_slice(&f[34..42 + size]);
        assert_eq!(oracle(&pseudo[..20 + size]), 0);
        assert!(f[42 + size..n].iter().all(|&x| x == 0));
    }
}

#[test]
fn fixed_network_order_known_answer_and_padding_bound() {
    // Manually summed network-order words: IP=1444, UDP=47fe.
    let golden: &[u8] = &[
        0x02, 0x00, 0x00, 0x00, 0x00, 0x02, 0x02, 0x00, 0x00, 0x00, 0x00, 0x01, 0x08, 0x00, 0x45, 0x00, 0x00, 0x1f,
        0x12, 0x34, 0x40, 0x00, 0x40, 0x11, 0x14, 0x44, 0x0a, 0x2a, 0x00, 0x01, 0x0a, 0x2a, 0x00, 0x02, 0x0f, 0xa0,
        0x0f, 0xa1, 0x00, 0x0b, 0x47, 0xfe, 0x41, 0x42, 0x43,
    ];
    let (f, n) = frame(b"ABC");
    assert_eq!(&f[..golden.len()], golden);
    assert_eq!(n, 60);
    assert_eq!(decode(&f[..n], B, A), Ok(&b"ABC"[..]));
    // Maximum bounded Ethernet tail is ignored, never surfaced as payload.
    let mut padded = f;
    padded[n..].fill(0xa5);
    assert_eq!(decode(&padded, B, A), Ok(&b"ABC"[..]));
    assert_eq!(complement(sum(&[0, 1, 0xf2, 3, 0xf4, 0xf5, 0xf6, 0xf7])), 0x220d);
}

#[test]
fn refusal_is_non_mutating() {
    let mut output = [0xa5; MAX_FRAME];
    assert_eq!(encode(A, B, 0, &[0; 513], &mut output), Err(Error::Invalid));
    for size in 0..MIN_FRAME {
        assert_eq!(encode(A, B, 0, b"x", &mut output[..size]), Err(Error::Invalid));
    }
    let mut bad = A;
    bad.port = 0;
    assert_eq!(encode(bad, B, 0, b"x", &mut output), Err(Error::Invalid));
    assert_eq!(output, [0xa5; MAX_FRAME]);
}

#[test]
fn all_truncations_and_oversize_refused() {
    let (f, n) = frame(&[7; 512]);
    for size in 0..n {
        assert!(decode(&f[..size], B, A).is_err());
    }
    assert_eq!(decode(&[0; MAX_FRAME + 1], B, A), Err(Error::Invalid));
}

#[test]
fn every_wire_bit_before_padding_is_checked() {
    let (f, n) = frame(b"payload");
    // ID, DSCP/ECN, DF and nonzero TTL may legitimately vary with a corrected
    // IP checksum, but single corruptions without recomputing it must fail.
    for i in 0..49 {
        for bit in 0..8 {
            let mut bad = f;
            bad[i] ^= 1 << bit;
            assert!(decode(&bad[..n], B, A).is_err(), "byte {i} bit {bit}");
        }
    }
    let mut padding = f;
    padding[59] = 0xaa;
    assert_eq!(decode(&padding[..n], B, A), Ok(&b"payload"[..]));
}

#[test]
fn unsupported_protocol_shapes_rejected_after_valid_ip_checksum() {
    let (f, n) = frame(b"payload");
    for (at, value) in [(14, 0x46), (14, 0x65), (22, 0), (23, 6), (20, 0x20), (20, 0x80), (21, 1)] {
        let mut bad = f;
        bad[at] = value;
        ip_fix(&mut bad);
        assert!(decode(&bad[..n], B, A).is_err());
    }
    for total in [0, 19, 27, 36, 541, 65535] {
        let mut bad = f;
        put(&mut bad, 16, total);
        ip_fix(&mut bad);
        assert!(decode(&bad[..n], B, A).is_err());
    }
    let mut bad = f;
    put(&mut bad, 40, 0);
    assert_eq!(decode(&bad[..n], B, A), Err(Error::Invalid));
    for length in [0, 7, 14, 16, 65535] {
        let mut bad = f;
        put(&mut bad, 38, length);
        assert!(decode(&bad[..n], B, A).is_err());
    }
    let mut allowed = f;
    put(&mut allowed, 20, 0);
    ip_fix(&mut allowed);
    assert!(decode(&allowed[..n], B, A).is_ok());
}

#[test]
fn checksum_zero_is_transmitted_as_ffff() {
    let mut found = false;
    for number in 0..=u16::MAX {
        let (f, n) = frame(&number.to_be_bytes());
        if word(&f, 40) == 0xffff {
            assert!(decode(&f[..n], B, A).is_ok());
            found = true;
            break;
        }
    }
    assert!(found);
}

#[test]
fn invalid_endpoint_classes_and_wrong_peer_denied() {
    for ip in [[0, 0, 0, 0], [127, 0, 0, 1], [224, 0, 0, 1], [255, 255, 255, 255], [169, 254, 1, 1]] {
        assert!(!Endpoint { ip, ..A }.valid());
    }
    assert!(!Endpoint { mac: [0; 6], ..A }.valid());
    assert!(!Endpoint { mac: [1, 0, 0, 0, 0, 1], ..A }.valid());
    let (f, n) = frame(b"x");
    for peer in [
        Endpoint { port: 4002, ..A },
        Endpoint { ip: [10, 42, 0, 3], ..A },
        Endpoint { mac: [2, 0, 0, 0, 0, 3], ..A },
    ] {
        assert_eq!(decode(&f[..n], B, peer), Err(Error::Denied));
    }
}

#[test]
fn grants_are_scoped_revocable_incarnation_and_time_bounded() {
    let mut g = Grant::new(5, 1 << 40, B, 10, 20, 3, 100).unwrap();
    for (p, i, e) in [(6, 1 << 40, B), (5, 0, B), (5, 1, B), (5, 1 << 40, A)] {
        assert_eq!(g.reserve(p, i, e, 11, 1), Err(Error::Denied));
        assert_eq!(g.remaining(), (3, 100));
    }
    assert_eq!(g.reserve(5, 1 << 40, B, 9, 1), Err(Error::Expired));
    assert_eq!(g.reserve(5, 1 << 40, B, 11, 513), Err(Error::Invalid));
    assert_eq!(g.reserve(5, 1 << 40, B, 11, 101), Err(Error::Exhausted));
    assert_eq!(g.reserve(5, 1 << 40, B, 12, 40), Ok(()));
    assert_eq!(g.remaining(), (2, 60));
    assert_eq!(g.reserve(5, 1 << 40, B, 11, 1), Err(Error::Expired));
    assert_eq!(g.reserve(5, 1 << 40, B, 20, 1), Err(Error::Expired));
    assert_eq!(g.reserve(5, 1 << 40, B, 13, 1), Err(Error::Expired));
    assert_eq!(g.remaining(), (2, 60));
    g.revoke();
    assert_eq!(g.reserve(5, 1 << 40, B, 13, 1), Err(Error::Denied));
}

#[test]
fn empty_packets_consume_budget_and_failures_cannot_refund() {
    let mut g = Grant::new(1, 1, A, 0, u64::MAX, 2, 0).unwrap();
    assert_eq!(g.reserve(1, 1, A, 0, 0), Ok(()));
    assert_eq!(g.reserve(1, 1, A, 0, 0), Ok(()));
    assert_eq!(g.reserve(1, 1, A, 0, 0), Err(Error::Exhausted));
    assert_eq!(g.remaining(), (0, 0));
    assert!(Grant::new(0, 1, A, 0, 1, 1, 1).is_err());
    assert!(Grant::new(1, 0, A, 0, 1, 1, 1).is_err());
    assert!(Grant::new(1, 1, A, 1, 1, 1, 1).is_err());
    assert!(Grant::new(1, 1, A, 0, 1, 0, 1).is_err());
}

#[test]
fn deterministic_malformed_corpus_never_panics() {
    let mut state = 0x12345678u32;
    let mut f = [0; MAX_FRAME];
    for attempt in 0..4096usize {
        for b in &mut f {
            state ^= state << 13;
            state ^= state >> 17;
            state ^= state << 5;
            *b = state as u8;
        }
        let n = attempt % (MAX_FRAME + 1);
        assert!(decode(&f[..n], B, A).is_err());
    }
}
