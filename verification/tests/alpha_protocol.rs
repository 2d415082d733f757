use rar_os::alpha_protocol::{begin, document, document_reply, input, DENIED};
use rar_os::alpha_wire::{Message, DATAGRAM, INPUT, PAINT, READ_DOCUMENT, TOOL, WRITE_DOCUMENT};

#[test]
fn operation_payloads_are_directional_bounded_and_canonical() {
    for count in 0..=255 {
        assert_eq!(begin(1, count).is_ok(), (1..=6).contains(&count));
    }
    for row in 0..=255 {
        assert_eq!(rar_os::alpha_protocol::line(1, row, b"hello").is_ok(), row < 6);
    }
    assert!(rar_os::alpha_protocol::line(1, 0, &[32; 49]).is_err());
    assert!(rar_os::alpha_protocol::line(1, 0, b"\n").is_err());
    for key in 0..=255 {
        assert_eq!(input(1, key).is_ok(), matches!(key, 8 | 13 | 27 | 32..=126));
    }
    for n in 0..=112 {
        let data = [b'a'; 112];
        let read = Message::new(READ_DOCUMENT, 0, 1, &data[..n]).unwrap();
        assert_eq!(document(&read).is_ok(), n == 0);
        assert_eq!(document_reply(&read).is_ok(), n <= 64);
        let write = Message::new(WRITE_DOCUMENT, 0, 1, &data[..n]).unwrap();
        assert_eq!(document(&write).is_ok(), n <= 64);
        assert_eq!(document_reply(&write).is_ok(), n == 0);
        let denied = Message::new(WRITE_DOCUMENT, DENIED, 1, &data[..n]).unwrap();
        assert!(document(&denied).is_err());
        assert_eq!(document_reply(&denied).is_ok(), n == 0);
    }
    for op in [TOOL, DATAGRAM, INPUT, PAINT] {
        assert!(document(&Message::new(op, 0, 1, b"").unwrap()).is_err());
    }
}
