use rar_os::alpha_wire::{Boot, Message, READ_DOCUMENT};

fn boot() -> [u8; 256] {
    let mut b = [0; 256];
    b[..8].copy_from_slice(b"RARAPP00");
    b[12..16].copy_from_slice(&256u32.to_le_bytes());
    b[16..32].fill(7);
    b[32..40].copy_from_slice(&0x1_0000_0001u64.to_le_bytes());
    b[40..44].copy_from_slice(&10u32.to_le_bytes());
    b[44..48].copy_from_slice(&3u32.to_le_bytes());
    b[48..56].copy_from_slice(&0x401000u64.to_le_bytes());
    for i in 0..3 {
        b[56 + i * 8..64 + i * 8].copy_from_slice(&((1u64 << 32) | (i as u64 + 1)).to_le_bytes());
    }
    b[96..100].copy_from_slice(&3u32.to_le_bytes());
    b[100..104].copy_from_slice(&1u32.to_le_bytes());
    b[112..120].copy_from_slice(&9u64.to_le_bytes());
    b[120..128].copy_from_slice(&10u64.to_le_bytes());
    b
}

#[test]
fn bootstrap_exact_lengths_reserved_authority_and_full_identities() {
    let good = boot();
    let b = Boot::decode(&good).unwrap();
    assert_eq!(b.incarnation, 0x1_0000_0001);
    for len in 0..256 {
        assert!(Boot::decode(&good[..len]).is_err());
    }
    assert!(Boot::decode(&[0; 257]).is_err());
    for at in (0..16).chain(80..96).chain(104..112).chain(128..256) {
        let mut bad = good;
        bad[at] ^= 0x80;
        assert!(Boot::decode(&bad).is_err(), "{at}");
    }
    for at in [16usize, 32, 40, 44, 48, 56, 64, 72, 96, 100, 112, 120] {
        let mut bad = good;
        let size = if at == 16 {
            16
        } else if [40, 44, 96, 100].contains(&at) {
            4
        } else {
            8
        };
        bad[at..at + size].fill(0);
        assert!(Boot::decode(&bad).is_err(), "{at}");
    }
}

#[test]
fn bootstrap_encoding_revalidates_all_public_authority_fields() {
    let good = boot();
    let b = Boot::decode(&good).unwrap();
    assert_eq!(b.encode(), Ok(good));
    let mut bad = b;
    bad.incarnation = 0;
    assert!(bad.encode().is_err());
    let mut bad = b;
    bad.principal = 8;
    assert!(bad.encode().is_err());
    let mut bad = b;
    bad.rights = 15;
    assert!(bad.encode().is_err());
    let mut bad = b;
    bad.caps[3] = 0x1_0000_0004;
    assert!(bad.encode().is_err());
    let mut bad = b;
    bad.peer_incarnations[2] = 1;
    assert!(bad.encode().is_err());
    let mut bad = b;
    bad.entry = 0x420000;
    assert!(bad.encode().is_err());
    for rights in [1u32, 3, 5, 7, 9, 11, 13, 15] {
        let mut value = b;
        value.rights = rights;
        for i in 1..5 {
            value.caps[i] = if rights & (1 << (i - 1)) != 0 { (1u64 << 32) | (i as u64 + 1) } else { 0 };
        }
        for (i, principal) in [3u32, 1, 7, 12].into_iter().enumerate() {
            let enabled = rights & (1 << i) != 0;
            value.peer_principals[i] = if enabled { principal } else { 0 };
            value.peer_incarnations[i] = if enabled { u64::MAX } else { 0 };
        }
        assert_eq!(Boot::decode(&value.encode().unwrap()), Ok(value));
    }
}

#[test]
fn messages_are_bounded_canonical_and_correlated() {
    for op in 1..=6 {
        for len in 0..=112 {
            let m = Message::new(op, 0, u32::MAX, &[7; 112][..len]).unwrap();
            assert_eq!(Message::decode(&m.encode()), Ok(m));
        }
    }
    let request = Message::new(READ_DOCUMENT, 0, 7, b"").unwrap();
    let reply = Message::new(READ_DOCUMENT, 0, 7, b"hello").unwrap();
    assert!(reply.reply_to(&request, 1, 0x1_0000_0001, 1, 0x1_0000_0001));
    for id in [0, 1, u64::MAX] {
        assert!(!reply.reply_to(&request, 1, id, 1, 0x1_0000_0001));
    }
    assert!(!reply.reply_to(&request, 2, 0x1_0000_0001, 1, 0x1_0000_0001));
    for len in 0..128 {
        assert!(Message::decode(&reply.encode()[..len]).is_err());
    }
    let good = reply.encode();
    for at in (0..5).chain(7..8).chain(14..16).chain(21..128) {
        let mut bad = good;
        bad[at] ^= 1;
        assert!(Message::decode(&bad).is_err(), "{at}");
    }
    for op in [0, 7, 255] {
        assert!(Message::new(op, 0, 1, b"").is_err());
    }
    assert!(Message::new(1, 8, 1, b"").is_err());
    assert!(Message::new(1, 0, 0, b"").is_err());
    assert!(Message::new(1, 0, 1, &[0; 113]).is_err());
}
