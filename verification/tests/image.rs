use rar_os::image::{build, executable_valid, CLUSTER, DATA};

fn u16at(b: &mut [u8], o: usize, n: u16) {
    b[o..o + 2].copy_from_slice(&n.to_le_bytes());
}

fn u32at(b: &mut [u8], o: usize, n: u32) {
    b[o..o + 4].copy_from_slice(&n.to_le_bytes());
}

fn cluster(n: usize) -> usize {
    DATA + (n - 2) * CLUSTER
}

fn executable(len: usize) -> Vec<u8> {
    let mut e = vec![0u8; len];
    e[..2].copy_from_slice(b"MZ");
    u32at(&mut e, 60, 128);
    e[128..132].copy_from_slice(b"PE\0\0");
    u16at(&mut e, 132, 0x8664);
    u16at(&mut e, 152, 0x20b);
    u16at(&mut e, 220, 10);
    e
}

#[test]
fn fat_geometry_and_payload() {
    let e = executable(3000);
    let image = build(&e).unwrap();
    assert_eq!(image.len(), 16777216);
    assert_eq!(&image[512..33 * 512], &image[33 * 512..65 * 512]);
    assert_eq!(&image[cluster(4)..cluster(4) + e.len()], &e[..]);
    assert!((4085..65525).contains(&((32768 - 97) / 4)));
}

#[test]
#[should_panic]
fn invalid_executable_rejected() {
    build(&[0; 1024]).unwrap();
}

#[test]
fn boot_sector_directory_and_chain_are_exact() {
    let e = executable(5000);
    assert!(executable_valid(&e));
    let image = build(&e).unwrap();
    assert_eq!(&image[..3], &[0xeb, 0x3c, 0x90]);
    assert_eq!(&image[3..11], b"RAROS   ");
    assert_eq!(&image[510..512], &[0x55, 0xaa]);
    assert_eq!(&image[512..524], &[0xf8, 0xff, 0xff, 0xff, 0xff, 0xff, 0xff, 0xff, 5, 0, 6, 0]);
    assert_eq!(&image[524..526], &[0xff, 0xff]);
    assert_eq!(&image[cluster(3) + 64..cluster(3) + 75], b"BOOTX64 EFI");
    assert_eq!(&image[cluster(3) + 92..cluster(3) + 96], &5000u32.to_le_bytes());
    let mut bad = executable(5000);
    bad[220] = 11;
    assert!(build(&bad).is_none());
    assert!(build(&executable(1023)).is_none());
}
