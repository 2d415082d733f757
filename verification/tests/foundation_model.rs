use rar_os::foundation_model::{
    validate_regions, validate_table, validate_virtual_page, Allocation, Error, Frames, Heap, Mapping, Region,
};

#[test]
fn invalid_memory_maps_fail() {
    assert!(validate_regions(&[]).is_err());
    assert!(validate_regions(&[Region { start: 1, pages: 1, kind: 7 }]).is_err());
    assert!(validate_regions(&[Region { start: 4096, pages: u64::MAX, kind: 7 }]).is_err());
    assert!(validate_regions(&[Region { start: 4096, pages: 2, kind: 7 }, Region { start: 8192, pages: 1, kind: 7 }]).is_err());
}

#[test]
fn only_conventional_frames_are_allocated() {
    let mut f = Frames::new(&[Region { start: 4096, pages: 1, kind: 2 }, Region { start: 8192, pages: 2, kind: 7 }]).unwrap();
    assert_eq!(f.allocate(), Ok(8192));
    assert_eq!(f.allocate(), Ok(12288));
    assert_eq!(f.allocate(), Err(Error::Exhausted));
    assert_eq!(f.release_last(8192), Err(Error::Stale));
    assert_eq!(f.release_last(12288), Ok(()));
    assert_eq!(f.release_last(12288), Err(Error::Stale));
    assert_eq!(f.allocate(), Ok(12288));
}

#[test]
fn null_and_high_frames_are_not_allocated() {
    let mut f = Frames::new(&[Region { start: 0, pages: 1, kind: 7 }, Region { start: 0x1_0000_0000, pages: 1, kind: 7 }]).unwrap();
    assert_eq!(f.allocate(), Err(Error::Exhausted));
}

#[test]
fn mapping_permissions_and_bounds() {
    let m = Mapping { virtual_start: 0x1000, physical_start: 0x2000, pages: 1, writable: true, executable: false };
    assert_eq!(m.validate(0x2000, 0x3000), Ok(()));
    assert_eq!(Mapping { executable: true, ..m }.validate(0x2000, 0x3000), Err(Error::Permission));
    assert!(Mapping { virtual_start: 0, ..m }.validate(0, 0x4000).is_err());
    assert!(Mapping { virtual_start: 0x0000_8000_0000_0000, ..m }.validate(0, 0x4000).is_err());
    assert!(Mapping { pages: u64::MAX, ..m }.validate(0, u64::MAX).is_err());
    assert!(m.validate(0x3000, 0x4000).is_err());
    assert!(Mapping { physical_start: 0x2001, ..m }.validate(0, 0x4000).is_err());
}

#[test]
fn heap_alignment_exhaustion_and_reuse() {
    let mut h = Heap::new();
    let a = h.allocate(17, 4096).unwrap();
    let b = h.allocate(32, 4096).unwrap();
    assert_eq!(a.offset, 0);
    assert_eq!(b.offset, 4096);
    assert_eq!(h.deallocate(a), Ok(()));
    assert_eq!(h.deallocate(a), Err(Error::Stale));
    let c = h.allocate(17, 4096).unwrap();
    assert_eq!(c.offset, 0);
    assert_ne!(a, c);
    assert_eq!(h.deallocate(a), Err(Error::Stale));
    h.deallocate(b).unwrap();
    h.deallocate(c).unwrap();
    let all = h.allocate(65536, 16).unwrap();
    assert_eq!(h.allocate(1, 1), Err(Error::Exhausted));
    h.deallocate(all).unwrap();
    assert!(h.allocate(65536, 4096).is_ok());
}

#[test]
fn heap_rejects_invalid_and_forged_requests() {
    let mut h = Heap::new();
    for (s, a) in [(0, 1), (1, 0), (1, 3), (65537, 16), (1, 8192), (usize::MAX, 16)] {
        assert!(h.allocate(s, a).is_err());
    }
    let a = h.allocate(16, 16).unwrap();
    assert_eq!(h.deallocate(Allocation { offset: 16, ..a }), Err(Error::Stale));
    assert_eq!(h.deallocate(Allocation { size: 32, ..a }), Err(Error::Stale));
    h.deallocate(a).unwrap();
}

#[test]
fn heap_adversarial_sequence_never_overlaps() {
    let mut h = Heap::new();
    let mut live = [None; 64];
    for tick in 0..4096 {
        let slot = tick % 64;
        if let Some(a) = live[slot].take() {
            h.deallocate(a).unwrap();
        }
        let a: Allocation = h.allocate((tick * 71) % 511 + 1, 1 << ((tick % 8) + 1)).unwrap();
        for other in live.iter().flatten() {
            let other: &Allocation = other;
            assert!(a.offset + a.size <= other.offset || other.offset + other.size <= a.offset);
        }
        live[slot] = Some(a);
    }
}

#[test]
fn rejects_truncated_and_corrupt_headers() {
    assert!(validate_table(&[], 0, 24).is_err());
    let mut b = [0u8; 24];
    b[..8].copy_from_slice(&0x5453595320494249u64.to_le_bytes());
    b[8..12].copy_from_slice(&0x0002_0000u32.to_le_bytes());
    b[12..16].copy_from_slice(&24u32.to_le_bytes());
    let mut crc = 0xffff_ffffu32;
    for &v in &b {
        crc ^= v as u32;
        for _ in 0..8 {
            crc = (crc >> 1) ^ if crc & 1 != 0 { 0xedb8_8320 } else { 0 };
        }
    }
    b[16..20].copy_from_slice(&(!crc).to_le_bytes());
    assert_eq!(validate_table(&b, 0x5453595320494249, 24), Ok(()));
    b[23] = 1;
    assert!(validate_table(&b, 0x5453595320494249, 24).is_err());
    b[23] = 0;
    b[8] ^= 1;
    assert!(validate_table(&b, 0x5453595320494249, 24).is_err());
    assert!(validate_table(&b, 0, 24).is_err());
}

#[test]
fn rejects_noncanonical_alias_before_page_walk() {
    assert_eq!(validate_virtual_page(0xffff_8000_0010_0000), Ok(()));
    assert_eq!(validate_virtual_page(0x0000_8000_0010_0000), Err(Error::Invalid));
    assert_eq!(validate_virtual_page(0), Err(Error::Invalid));
    assert_eq!(validate_virtual_page(0x1001), Err(Error::Invalid));
    assert_eq!(validate_virtual_page(0x0000_7fff_ffff_f000), Ok(()));
}

#[test]
fn heap_takes_the_first_aligned_gap_that_fits() {
    let mut h = Heap::new();
    let a = h.allocate(16, 16).unwrap();
    let b = h.allocate(48, 16).unwrap();
    let c = h.allocate(16, 16).unwrap();
    assert_eq!((a.offset, b.offset, c.offset), (0, 16, 64));
    h.deallocate(b).unwrap();
    let small = h.allocate(20, 16).unwrap();
    assert_eq!(small.offset, 16);
    let aligned = h.allocate(16, 64).unwrap();
    assert_eq!(aligned.offset, 128);
    let fits = h.allocate(16, 32).unwrap();
    assert_eq!(fits.offset, 96);
}
