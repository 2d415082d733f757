use rar_os::documents::{self, install, read, shared, Error, Grant, Owner};
use rar_os::vault::Snapshot;

const OWNER_KEY: &[u8] = b"_rar.app0";
const DOCUMENT_KEY: &[u8] = b"_rar.doc0";

fn owner() -> Owner {
    Owner::from_verified_identity([7; 32]).unwrap()
}

fn other_owner() -> Owner {
    Owner::from_verified_identity([8; 32]).unwrap()
}

fn grant() -> Grant {
    Grant::new(owner(), 10, 0x1_0000_0001).unwrap()
}

#[test]
fn install_is_atomic_preserves_shared_and_separates_ownership() {
    let mut old = Snapshot::empty();
    old.put(b"note", b"shared").unwrap();
    let installed = install(&old, owner()).unwrap();
    assert_eq!(shared(&installed), Ok(old));
    assert_eq!(old.get(OWNER_KEY), None);
    assert_eq!(read(&installed, grant(), 10, 0x1_0000_0001), Ok(&b""[..]));
    assert_eq!(install(&installed, owner()), Ok(installed));
    assert_eq!(install(&installed, other_owner()), Err(Error::Denied));
    let edited = documents::write(&installed, grant(), 10, 0x1_0000_0001, b"private").unwrap();
    assert_eq!(shared(&edited), Ok(old));
    assert_eq!(read(&edited, grant(), 10, 0x1_0000_0001), Ok(&b"private"[..]));
}

#[test]
fn caller_cannot_select_other_owner_or_truncate_incarnation() {
    let snapshot = install(&Snapshot::empty(), owner()).unwrap();
    for principal in 0..16 {
        if principal != 10 {
            assert_eq!(read(&snapshot, grant(), principal, 0x1_0000_0001), Err(Error::Denied));
        }
    }
    for inc in [0, 1, 0x1_0000_0000, u64::MAX] {
        assert_eq!(documents::write(&snapshot, grant(), 10, inc, b"x"), Err(Error::Denied));
    }
    let other = Grant::new(other_owner(), 10, 0x1_0000_0001).unwrap();
    assert_eq!(read(&snapshot, other, 10, 0x1_0000_0001), Err(Error::Denied));
    assert!(Owner::from_verified_identity([0; 32]).is_err());
    for principal in [0, 9, 14, u32::MAX] {
        assert!(Grant::new(owner(), principal, 1).is_err());
    }
    assert!(Grant::new(owner(), 10, 0).is_err());
}

#[test]
fn quotas_refuse_without_changing_source() {
    let mut old = Snapshot::empty();
    old.put(b"a", &[1; 64]).unwrap();
    old.put(b"b", &[2; 40]).unwrap();
    let before = old;
    assert_eq!(install(&old, owner()), Err(Error::Quota));
    assert_eq!(old, before);
    let empty = install(&Snapshot::empty(), owner()).unwrap();
    assert_eq!(documents::write(&empty, grant(), 10, 0x1_0000_0001, &[0; 65]), Err(Error::Quota));
    let full = documents::write(&empty, grant(), 10, 0x1_0000_0001, &[1; 64]).unwrap();
    assert_eq!(read(&full, grant(), 10, 0x1_0000_0001), Ok(&[1; 64][..]));
    assert_eq!(read(&empty, grant(), 10, 0x1_0000_0001), Ok(&b""[..]));
    let mut slots = Snapshot::empty();
    for name in [b"a", b"b", b"c"] {
        slots.put(name, b"").unwrap();
    }
    assert_eq!(install(&slots, owner()), Err(Error::Quota));
}

#[test]
fn corrupt_or_unknown_private_namespace_is_never_projected() {
    for name in [&b"_unknown"[..], &b"."[..], &b".."[..]] {
        let mut s = Snapshot::empty();
        s.put(name, b"x").unwrap();
        assert_eq!(shared(&s), Err(Error::Invalid));
        assert_eq!(install(&s, owner()), Err(Error::Invalid));
    }
    for (name, value) in [(OWNER_KEY, &[7; 32][..]), (DOCUMENT_KEY, &b""[..])] {
        let mut s = Snapshot::empty();
        s.put(name, value).unwrap();
        assert_eq!(shared(&s), Err(Error::Invalid));
    }
    for len in 0..=64 {
        if len == 32 {
            continue;
        }
        let mut s = Snapshot::empty();
        s.put(OWNER_KEY, &[7; 64][..len]).unwrap();
        s.put(DOCUMENT_KEY, b"").unwrap();
        assert_eq!(shared(&s), Err(Error::Invalid));
    }
}

#[test]
fn installation_reserves_the_full_document_at_shared_32_33_boundary() {
    let mut fits = Snapshot::empty();
    fits.put(b"shared", &[1; 32]).unwrap();
    let installed = install(&fits, owner()).unwrap();
    let full = documents::write(&installed, grant(), 10, 0x1_0000_0001, &[2; 64]).unwrap();
    assert_eq!(shared(&full), Ok(fits));
    let mut too_much = Snapshot::empty();
    too_much.put(b"shared", &[1; 33]).unwrap();
    let before = too_much;
    assert_eq!(install(&too_much, owner()), Err(Error::Quota));
    assert_eq!(too_much, before);
    let mut incompatible = installed;
    incompatible.put(b"shared", &[1; 33]).unwrap();
    assert_eq!(shared(&incompatible), Err(Error::Invalid));
}

#[test]
fn binding_accepts_unowned_and_own_snapshots_only() {
    let g = grant();
    assert_eq!(g.validate_binding(&Snapshot::empty()), Ok(()));
    let mine = g.installation(&Snapshot::empty()).unwrap();
    assert_eq!(g.validate_binding(&mine), Ok(()));
    let theirs = install(&Snapshot::empty(), other_owner()).unwrap();
    assert_eq!(g.validate_binding(&theirs), Err(Error::Denied));
    assert_eq!(read(&theirs, g, 10, 0x1_0000_0001), Err(Error::Denied));
}
