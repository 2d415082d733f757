use rar_os::pe::{parse, BASE};

fn put16(b: &mut [u8], p: usize, x: u16) {
    b[p..p + 2].copy_from_slice(&x.to_le_bytes());
}

fn put32(b: &mut [u8], p: usize, x: u32) {
    b[p..p + 4].copy_from_slice(&x.to_le_bytes());
}

fn image() -> [u8; 1024] {
    let mut b = [0; 1024];
    b[..2].copy_from_slice(b"MZ");
    put32(&mut b, 60, 64);
    b[64..68].copy_from_slice(b"PE\0\0");
    put16(&mut b, 68, 0x8664);
    put16(&mut b, 70, 1);
    put16(&mut b, 84, 240);
    let o = 88;
    put16(&mut b, o, 0x20b);
    put32(&mut b, o + 16, 4096);
    b[o + 24..o + 32].copy_from_slice(&BASE.to_le_bytes());
    put32(&mut b, o + 32, 4096);
    put32(&mut b, o + 56, 8192);
    put32(&mut b, o + 60, 512);
    put32(&mut b, o + 108, 16);
    let s = o + 240;
    put32(&mut b, s + 8, 16);
    put32(&mut b, s + 12, 4096);
    put32(&mut b, s + 16, 512);
    put32(&mut b, s + 20, 512);
    put32(&mut b, s + 36, 0x6000_0020);
    b
}

#[test]
fn valid_static_fixture() {
    let l = parse(&image()).unwrap();
    assert_eq!(l.entry, BASE + 4096);
    assert!(!l.sections[0].writable);
}

#[test]
fn malformed_and_wx_fail() {
    let good = image();
    for length in [0, 511, 700] {
        assert!(parse(&good[..length]).is_err());
    }
    for (offset, value) in [
        (60, u32::MAX),
        (88 + 56, 0x100000),
        (88 + 16, 0),
        (328 + 36, 0xe0000020),
        (328 + 20, u32::MAX),
        (328 + 12, 0),
        (88 + 112 + 8, 1),
        (88 + 112 + 5 * 8, 1),
        (88 + 112 + 9 * 8, 1),
    ] {
        let mut b = good;
        put32(&mut b, offset, value);
        assert!(parse(&b).is_err(), "offset {}", offset);
    }
}
