use rar_os::desktop_service::{DesktopStore, Keyboard};
use rar_os::platform_store as storage;

#[test]
fn shared_workspace_is_explicit_and_other_apps_are_denied() {
    let mut s = DesktopStore::new();
    let create = storage::request(storage::CREATE, b"note", b"").unwrap();
    let write = storage::request(storage::WRITE, b"note", b"typed").unwrap();
    let read = storage::request(storage::READ, b"note", b"").unwrap();
    assert_eq!(s.process(6, 1, &create)[0], 0);
    assert_eq!(s.process(6, 1, &write)[0], 0);
    assert_eq!(&s.process(4, 1, &read)[16..21], b"typed");
    for role in [0, 1, 2, 3, 5, 7, 255] {
        assert_eq!(s.process(role, 1, &read)[0], storage::INVALID);
    }
    assert_eq!(s.process(4, 2, &read)[0], storage::INVALID);
}

#[test]
fn key_make_break_extended_and_repeat() {
    let mut k = Keyboard::new();
    assert_eq!(k.feed(0x1e), Some(b'a'));
    assert_eq!(k.feed(0x1e), None);
    assert_eq!(k.feed(0x9e), None);
    assert_eq!(k.feed(0x1e), Some(b'a'));
    k.feed(0xe0);
    assert_eq!(k.feed(0x50), Some(0x85));
    k.feed(0xe0);
    assert_eq!(k.feed(0xd0), None);
    assert_eq!(k.feed(0x3b), Some(0x81));
}

#[test]
fn shift_caps_pause_and_reset_are_bounded() {
    let mut k = Keyboard::new();
    k.feed(0x2a);
    assert_eq!(k.feed(0x1e), Some(b'A'));
    k.feed(0x9e);
    k.feed(0xaa);
    assert_eq!(k.feed(0x1e), Some(b'a'));
    k.reset();
    k.feed(0xe1);
    for b in [0x1d, 0x45, 0xe1, 0x9d, 0xc5] {
        assert_eq!(k.feed(b), None);
    }
    assert_eq!(k.feed(0x1e), Some(b'a'));
    k.reset();
    k.feed(0x3a);
    assert_eq!(k.feed(0x1e), Some(b'A'));
}

#[test]
fn welcome_file_is_present_and_shifted_symbols_translate() {
    let mut s = DesktopStore::new();
    let read = storage::request(storage::READ, b"welcome", b"").unwrap();
    let got = s.process(6, 1, &read);
    assert_eq!(got[0], storage::OK);
    assert_eq!(&got[16..16 + got[2] as usize], b"RAR OS ALPHA");
    let mut k = Keyboard::new();
    k.feed(0x36);
    assert_eq!(k.feed(0x02), Some(b'!'));
    assert_eq!(k.feed(0x28), Some(b'"'));
    k.feed(0xb6);
    assert_eq!(k.feed(0x35), Some(b'/'));
    assert_eq!(k.feed(0x00), None);
    assert_eq!(k.feed(0x02), Some(b'1'));
}
