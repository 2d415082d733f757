use rar_os::conformance::{
    expected_name, parse_bundle, row_fields, skipped_row, suite_complete, validate, verdict, Code, Semantic,
};

fn put(b: &mut Vec<u8>, at: usize, value: u64, n: usize) {
    for i in 0..n {
        b[at + i] = (value >> (8 * i)) as u8;
    }
}

struct Fixture {
    expected: u16,
    trusted_base: u64,
    trusted_size: u64,
    handoff: Vec<u8>,
    map: Vec<u8>,
    rhd: Vec<u8>,
}

fn record(kind: u16, flags: u16, id: u32, body: &[u8]) -> Vec<u8> {
    let mut r = vec![0u8; 16];
    put(&mut r, 0, kind as u64, 2);
    put(&mut r, 2, flags as u64, 2);
    put(&mut r, 4, (16 + body.len()) as u64, 4);
    put(&mut r, 8, id as u64, 4);
    r.extend_from_slice(body);
    r
}

fn memory(base: u64, length: u64) -> Vec<u8> {
    let mut m = vec![0u8; 32];
    put(&mut m, 0, base, 8);
    put(&mut m, 8, length, 8);
    put(&mut m, 16, 1, 2);
    put(&mut m, 18, 3, 2);
    put(&mut m, 20, 0, 2);
    put(&mut m, 24, 7, 4);
    m
}

fn rhd(arch: u16, records: &[Vec<u8>]) -> Vec<u8> {
    let mut r = vec![0u8; 32];
    r[..8].copy_from_slice(b"RARRHD\0\0");
    put(&mut r, 8, 1, 2);
    put(&mut r, 12, 32, 2);
    put(&mut r, 14, 16, 2);
    put(&mut r, 20, records.len() as u64, 2);
    put(&mut r, 24, arch as u64, 2);
    for rec in records {
        r.extend_from_slice(rec);
    }
    let total = r.len() as u64;
    put(&mut r, 16, total, 4);
    r
}

fn handoff(arch: u16, address: u64, length: u64) -> Vec<u8> {
    let mut h = vec![0u8; 128];
    h[..8].copy_from_slice(b"RARBOOT\0");
    put(&mut h, 8, 1, 2);
    put(&mut h, 12, 128, 2);
    put(&mut h, 16, 128, 4);
    put(&mut h, 20, arch as u64, 2);
    put(&mut h, 48, address, 8);
    put(&mut h, 56, length, 4);
    h
}

fn standard_records() -> Vec<Vec<u8>> {
    vec![record(1, 0, 1, &[]), record(2, 0, 1, &memory(0x1000, 0x1000)), record(2, 0, 2, &memory(0x2000, 0x1000))]
}

fn fixture(arch: u16, records: &[Vec<u8>]) -> Fixture {
    let r = rhd(arch, records);
    Fixture {
        expected: 0,
        trusted_base: 0x10000,
        trusted_size: 0x10000,
        handoff: handoff(arch, 0x10000, r.len() as u64),
        map: vec![0u8; 64],
        rhd: r,
    }
}

fn bytes(f: &Fixture) -> Vec<u8> {
    let mut b = vec![0u8; 44];
    b[..8].copy_from_slice(b"R0FXBIN\0");
    put(&mut b, 8, 1, 2);
    put(&mut b, 10, f.expected as u64, 2);
    put(&mut b, 12, f.handoff.len() as u64, 4);
    put(&mut b, 16, f.map.len() as u64, 4);
    put(&mut b, 20, f.rhd.len() as u64, 4);
    put(&mut b, 28, f.trusted_base, 8);
    put(&mut b, 36, f.trusted_size, 8);
    b.extend_from_slice(&f.handoff);
    b.extend_from_slice(&f.map);
    b.extend_from_slice(&f.rhd);
    b
}

fn code(f: &Fixture) -> u16 {
    let raw = bytes(f);
    let bundle = parse_bundle(&raw).expect("framed bundle");
    assert_eq!(bundle.expected, f.expected);
    verdict(&bundle).0
}

#[test]
fn valid_bundle_describes_kinds_and_memory() {
    let raw = bytes(&fixture(1, &standard_records()));
    let bundle = parse_bundle(&raw).unwrap();
    assert_eq!(bundle.handoff.len(), 128);
    assert_eq!(bundle.map.len(), 64);
    let semantic = validate(&bundle).unwrap();
    assert_eq!(semantic.record_kinds, vec![1, 2, 2]);
    assert_eq!(semantic.memory, vec![(0x1000, 0x1000, 1, 3, 0, 7), (0x2000, 0x1000, 1, 3, 0, 7)]);
    assert_eq!(expected_name(0), "ok");
}

#[test]
fn both_architectures_compute_the_same_semantics() {
    let x86 = verdict(&parse_bundle(&bytes(&fixture(1, &standard_records()))).unwrap()).1;
    let arm = verdict(&parse_bundle(&bytes(&fixture(2, &standard_records()))).unwrap()).1;
    assert!(suite_complete(12, &x86, &arm));
    assert!(!suite_complete(11, &x86, &arm));
    assert!(!suite_complete(12, &x86, &None));
    let other = Some(Semantic { record_kinds: vec![1], memory: vec![] });
    assert!(!suite_complete(12, &x86, &other));
}

#[test]
fn malformed_bundles_are_not_framed() {
    let mut raw = bytes(&fixture(1, &standard_records()));
    raw.push(0);
    assert!(parse_bundle(&raw).is_none());
    raw.pop();
    raw[0] = b'X';
    assert!(parse_bundle(&raw).is_none());
    assert!(parse_bundle(&raw[..40]).is_none());
}

#[test]
fn handoff_rules_give_their_codes_in_order() {
    let mut f = fixture(1, &standard_records());
    f.handoff.truncate(100);
    assert_eq!(code(&f), Code::Truncated.number());
    assert_eq!(code(&f), 1);

    let mut f = fixture(1, &standard_records());
    f.handoff[0] = b'X';
    assert_eq!(code(&f), 3);

    let mut f = fixture(1, &standard_records());
    put(&mut f.handoff, 16, 5000, 4);
    assert_eq!(code(&f), 2);

    let mut f = fixture(1, &standard_records());
    f.handoff[30] = 1;
    assert_eq!(code(&f), 8);

    let mut f = fixture(3, &standard_records());
    put(&mut f.rhd, 24, 1, 2);
    assert_eq!(code(&f), 18);

    let mut f = fixture(1, &standard_records());
    put(&mut f.handoff, 48, 0x10004, 8);
    assert_eq!(code(&f), 9);
    assert_eq!(expected_name(9), "bad-alignment");

    let mut f = fixture(1, &standard_records());
    f.trusted_size = 0x40;
    assert_eq!(code(&f), 12);
    assert_eq!(expected_name(12), "invalid-pointer-range");

    let mut f = fixture(1, &standard_records());
    f.trusted_base = u64::MAX;
    assert_eq!(code(&f), 10);

    let mut f = fixture(1, &standard_records());
    f.map.push(0);
    assert_eq!(code(&f), 20);
}

#[test]
fn description_rules_give_their_codes() {
    let overlapping =
        vec![record(2, 0, 1, &memory(0x1000, 0x1000)), record(2, 0, 2, &memory(0x1800, 0x1000))];
    assert_eq!(code(&fixture(1, &overlapping)), 13);
    assert_eq!(expected_name(13), "overlap");

    let critical = vec![record(1, 0, 1, &[]), record(7, 1, 1, &[])];
    assert_eq!(code(&fixture(1, &critical)), 15);
    let optional = vec![record(1, 0, 1, &[]), record(7, 0, 1, &[])];
    assert_eq!(code(&fixture(1, &optional)), 0);

    let repeated = vec![record(1, 0, 1, &[]), record(1, 0, 1, &[])];
    assert_eq!(code(&fixture(1, &repeated)), 28);

    let flagged = vec![record(1, 2, 1, &[])];
    assert_eq!(code(&fixture(1, &flagged)), 7);

    let short_memory = vec![record(2, 0, 1, &[0u8; 16])];
    assert_eq!(code(&fixture(1, &short_memory)), 14);

    let mut misaligned = record(1, 0, 1, &[0u8; 8]);
    put(&mut misaligned, 4, 20, 4);
    assert_eq!(code(&fixture(1, &[misaligned])), 9);

    let mut f = fixture(2, &standard_records());
    put(&mut f.rhd, 24, 1, 2);
    assert_eq!(code(&f), 18);
    assert_eq!(expected_name(18), "architecture-mismatch");
    assert_eq!(expected_name(28), "unmapped");
}

#[test]
fn valid_memory_records_are_disjoint() {
    let semantic = validate(&parse_bundle(&bytes(&fixture(1, &standard_records()))).unwrap()).unwrap();
    let (a, b) = (semantic.memory[0], semantic.memory[1]);
    assert!(a.0 + a.1 <= b.0 || b.0 + b.1 <= a.0);
}

#[test]
fn manifest_rows_split_into_three_fields() {
    assert!(skipped_row(b""));
    assert!(skipped_row(b"schema=1"));
    assert!(skipped_row(b"id|expected|file"));
    assert!(!skipped_row(b"valid-x86_64|ok|valid.bin"));
    let (id, name, file) = row_fields(b"valid-x86_64|ok|valid.bin").unwrap();
    assert_eq!((id, name, file), (&b"valid-x86_64"[..], &b"ok"[..], &b"valid.bin"[..]));
    assert!(row_fields(b"a|b").is_none());
    assert!(row_fields(b"a|b|c|d").is_none());
    assert_eq!(row_fields(b"||").unwrap(), (&b""[..], &b""[..], &b""[..]));
}
