use rar_os::vault::{slot_kind, Block, Error, SlotKind, Snapshot, Vault};
use sha2::{Digest, Sha256};

type Sector = [u8; 512];
const RESERVE: Sector = [0xa5; 512];
const COMMIT: Sector = [0xc3; 512];

fn hash(bytes: &[u8]) -> [u8; 32] {
    Sha256::digest(bytes).into()
}

#[derive(Clone)]
struct Disk {
    live: Vec<Sector>,
    stable: Vec<Sector>,
    calls: usize,
    fail: Option<usize>,
    tear: usize,
    flush_after: bool,
}

impl Disk {
    fn fixture() -> Self {
        let mut h = [0; 512];
        h[..8].copy_from_slice(b"RARVLT00");
        h[8..12].copy_from_slice(&[0, 0, 0, 2]);
        h[12..16].copy_from_slice(&1u32.to_le_bytes());
        h[16..20].copy_from_slice(&512u32.to_le_bytes());
        h[20..24].copy_from_slice(&4u32.to_le_bytes());
        h[24..32].copy_from_slice(&2u64.to_le_bytes());
        h[32..64].fill(7);
        h[64..96].fill(9);
        h[96..100].copy_from_slice(&[1, 2, 3, 4]);
        let digest = hash(&h[..480]);
        h[480..].copy_from_slice(&digest);
        let mut sectors = vec![[0; 512]; 14];
        sectors[0] = h;
        sectors[1] = h;
        Self { live: sectors.clone(), stable: sectors, calls: 0, fail: None, tear: 0, flush_after: false }
    }

    fn hit(&mut self) -> bool {
        self.calls += 1;
        self.fail == Some(self.calls)
    }

    fn crash(mut self) -> Self {
        self.live = self.stable.clone();
        self.fail = None;
        self.calls = 0;
        self
    }
}

impl Block for Disk {
    fn read(&mut self, sector: u32) -> Result<Sector, Error> {
        if self.hit() {
            return Err(Error::Io);
        }
        self.live.get(sector as usize).copied().ok_or(Error::Bounds)
    }

    fn write(&mut self, sector: u32, bytes: &Sector) -> Result<(), Error> {
        let fail = self.hit();
        let at = sector as usize;
        if at >= self.live.len() {
            return Err(Error::Bounds);
        }
        if fail {
            self.live[at][..self.tear].copy_from_slice(&bytes[..self.tear]);
            self.stable[at][..self.tear].copy_from_slice(&bytes[..self.tear]);
            Err(Error::Io)
        } else {
            self.live[at] = *bytes;
            Ok(())
        }
    }

    fn flush(&mut self) -> Result<(), Error> {
        let fail = self.hit();
        if !fail || self.flush_after {
            self.stable = self.live.clone();
        }
        if fail {
            Err(Error::Io)
        } else {
            Ok(())
        }
    }
}

fn sample() -> Snapshot {
    let mut s = Snapshot::empty();
    s.put(b"note", b"new value").unwrap();
    s
}

fn mount(disk: Disk, capacity: u32) -> Vault<Disk> {
    match Vault::mount(disk, capacity) {
        Ok(v) => v,
        Err(e) => panic!("{:?}", e),
    }
}

#[test]
fn canonical_snapshot_and_limits() {
    let mut s = Snapshot::empty();
    s.put(b"b", b"2").unwrap();
    s.put(b"a", b"1").unwrap();
    assert_eq!(Snapshot::decode(&s.encode()).unwrap(), s);
    assert_eq!(s.get(b"a"), Some(&b"1"[..]));
    for (name, data) in [(&b""[..], &b"x"[..]), (&b"../x"[..], &b"x"[..]), (&b"a"[..], &[0; 65][..])] {
        let before = s;
        assert!(s.put(name, data).is_err());
        assert_eq!(s, before);
    }
    let mut large = Snapshot::empty();
    large.put(b"a", &[1; 64]).unwrap();
    large.put(b"b", &[2; 64]).unwrap();
    let before = large;
    assert!(large.put(b"c", b"x").is_err());
    assert_eq!(large, before);
    let mut raw = s.encode();
    raw[255] = 1;
    assert!(Snapshot::decode(&raw).is_err());
    for byte in 0..256 {
        let mut raw = s.encode();
        raw[byte] ^= 0x80;
        let _ = Snapshot::decode(&raw);
    }
}

#[test]
fn durable_roundtrip_and_exhaustion() {
    let disk = Disk::fixture();
    let header = [disk.live[0], disk.live[1]];
    let mut vault = mount(disk, 14);
    for revision in 1..=4 {
        assert_eq!(vault.publish(sample()).unwrap(), revision);
        let disk = vault.into_block().crash();
        assert_eq!([disk.live[0], disk.live[1]], header);
        vault = mount(disk, 14);
        assert_eq!(vault.revision(), revision);
        assert_eq!(*vault.snapshot(), sample());
    }
    assert!(vault.is_readonly());
    assert_eq!(vault.publish(sample()), Err(Error::ReadOnly));
}

fn fault_case(operation: usize, tear: usize, after: bool) {
    let mut vault = mount(Disk::fixture(), 14);
    vault.block.calls = 0;
    vault.block.fail = Some(operation);
    vault.block.tear = tear;
    vault.block.flush_after = after;
    assert!(vault.publish(sample()).is_err());
    assert!(vault.is_readonly());
    let calls = vault.block.calls;
    let bytes = vault.block.live.clone();
    assert_eq!(vault.publish(sample()), Err(Error::ReadOnly));
    assert_eq!(vault.block.calls, calls);
    assert_eq!(vault.block.live, bytes);
    let mut recovered = mount(vault.into_block().crash(), 14);
    assert!(recovered.revision() == 0 || recovered.revision() == 1);
    assert_eq!(*recovered.snapshot(), if recovered.revision() == 0 { Snapshot::empty() } else { sample() });
    let consumed = recovered.next_slot();
    let prefix = recovered.block.live[..(2 + consumed * 3) as usize].to_vec();
    let expected_revision = recovered.revision() + 1;
    let mut following = sample();
    following.put(b"note", b"after recovery").unwrap();
    following.put(b"next", b"second boot").unwrap();
    assert_eq!(recovered.publish(following), Ok(expected_revision));
    assert_eq!(recovered.block.live[..prefix.len()], prefix);
    let again = mount(recovered.into_block().crash(), 14);
    assert_eq!(again.revision(), expected_revision);
    assert_eq!(*again.snapshot(), following);
    assert_eq!(again.block.live[..prefix.len()], prefix);
}

#[test]
fn every_io_failure_and_flush_outcome_recovers_old_or_new() {
    for operation in 1..=12 {
        for tear in [0, 1, 255, 511, 512] {
            for after in [false, true] {
                fault_case(operation, tear, after);
            }
        }
    }
}

#[test]
fn every_prefix_of_each_sector_write_recovers_without_slot_reuse() {
    for operation in [4, 7, 10] {
        for tear in 0..=512 {
            fault_case(operation, tear, false);
        }
    }
}

#[test]
fn corruption_holes_forks_and_header_mismatch_fail_closed() {
    let mut vault = mount(Disk::fixture(), 14);
    vault.publish(sample()).unwrap();
    let disk = vault.into_block().crash();
    for (sector, offset) in [(0, 100), (2, 2), (3, 100), (4, 2)] {
        let mut bad = disk.clone();
        bad.live[sector][offset] ^= 0x40;
        assert!(Vault::mount(bad, 14).is_err());
    }
    let mut hole = Disk::fixture();
    hole.live[5] = RESERVE;
    assert!(Vault::mount(hole, 14).is_err());
    let mut conflict = Disk::fixture();
    conflict.live[2][0] = 0xa5;
    conflict.live[3][0] = 1;
    assert!(Vault::mount(conflict, 14).is_err());
    let mut fork = disk.clone();
    fork.live[5] = RESERVE;
    fork.live[6] = fork.live[3];
    fork.live[7] = COMMIT;
    assert!(Vault::mount(fork, 14).is_err());
    assert!(Vault::mount(Disk::fixture(), 13).is_err());
}

#[test]
fn snapshot_encoding_layout_is_exact() {
    let mut s = Snapshot::empty();
    s.put(b"b", b"yz").unwrap();
    s.put(b"a", b"x").unwrap();
    let raw = s.encode();
    assert_eq!(&raw[..9], b"RARDAT00\x02");
    assert_eq!(&raw[16..28], &[1, 1, b'a', b'x', 1, 2, b'b', b'y', b'z', 0, 0, 0]);
    let entries = s.entries();
    assert_eq!(entries.len(), 2);
    assert_eq!(entries[0], (&b"a"[..], &b"x"[..]));
    s.put(b"a", b"replaced").unwrap();
    assert_eq!(s.get(b"a"), Some(&b"replaced"[..]));
    assert_eq!(s.get(b"c"), None);
    let mut four = Snapshot::empty();
    for name in [b"d", b"c", b"b", b"a"] {
        four.put(name, b"").unwrap();
    }
    assert_eq!(four.put(b"e", b""), Err(Error::Bounds));
    assert_eq!(four.entries()[0].0, b"a");
}

#[test]
fn published_markers_make_a_sealed_slot_for_any_payload() {
    let reserve = [0xa5u8; 512];
    let commit = [0xc3u8; 512];
    for fill in [0u8, 0x5a, 0xff] {
        assert_eq!(slot_kind(&reserve, &[fill; 512], &commit), SlotKind::Sealed);
    }
    assert_eq!(slot_kind(&reserve, &[0; 512], &[0; 512]), SlotKind::Consumed);
    assert_eq!(slot_kind(&[0; 512], &[0; 512], &[0; 512]), SlotKind::Empty);
}

#[test]
fn recover_from_sectors_agrees_with_mount() {
    let mut vault = mount(Disk::fixture(), 14);
    vault.publish(sample()).unwrap();
    let disk = vault.into_block().crash();
    let sectors = disk.live.clone();
    let recovered = match Vault::recover(disk.clone(), &sectors, 14) {
        Ok(v) => v,
        Err(e) => panic!("{:?}", e),
    };
    let mounted = mount(disk.clone(), 14);
    assert_eq!(recovered.revision(), 1);
    assert_eq!(recovered.revision(), mounted.revision());
    assert_eq!(*recovered.snapshot(), sample());
    assert_eq!(recovered.next_slot(), mounted.next_slot());
    assert!(Vault::recover(disk.clone(), &sectors, 13).is_err());
    assert!(Vault::recover(disk.clone(), &sectors[..13].to_vec(), 14).is_err());
    let mut bad = sectors.clone();
    bad[3][100] ^= 0x40;
    assert!(Vault::recover(disk.clone(), &bad, 14).is_err());
    let empty = Vault::recover(Disk::fixture(), &Disk::fixture().live, 14).unwrap();
    assert_eq!(empty.revision(), 0);
    assert_eq!(*empty.snapshot(), Snapshot::empty());
}
