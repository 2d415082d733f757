use rar_os::alpha_transport::Received;
use rar_os::alpha_wire::Message;

#[test]
fn full_envelope_length_and_identity_are_never_truncated() {
    let mut b = [0; 152];
    b[..8].copy_from_slice(&3u64.to_le_bytes());
    b[8..16].copy_from_slice(&0x1_0000_0001u64.to_le_bytes());
    b[16..24].copy_from_slice(&128u64.to_le_bytes());
    b[24..].copy_from_slice(&Message::new(4, 0, 1, b"x").unwrap().encode());
    assert_eq!(Received::decode(&b, 128).unwrap().incarnation, 0x1_0000_0001);
    for len in 0..152 {
        assert!(Received::decode(&b[..len], 128).is_err());
    }
    for returned in [-5, -1, 0, 1, 127, 129, i64::MAX] {
        assert!(Received::decode(&b, returned).is_err());
    }
    let mut bad = b;
    bad[4] = 1;
    assert!(Received::decode(&bad, 128).is_err());
    let mut bad = b;
    bad[8..16].fill(0);
    assert!(Received::decode(&bad, 128).is_err());
    let mut bad = b;
    bad[16] = 127;
    assert!(Received::decode(&bad, 128).is_err());
}
