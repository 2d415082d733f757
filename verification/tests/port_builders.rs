use rar_os::ne2k::{check_header, Error as NicError, START};
use rar_os::pio::{lba_registers, sector_bytes, sector_words, status_step, Poll, Register};

#[test]
fn lba_registers_select_one_sector_little_end_first() {
    assert_eq!(
        lba_registers(0x0123_4567),
        [
            (Register::Head, 0xe1),
            (Register::Count, 1),
            (Register::LbaLow, 0x67),
            (Register::LbaMid, 0x45),
            (Register::LbaHigh, 0x23),
        ]
    );
    assert_eq!(lba_registers(0)[0], (Register::Head, 0xe0));
    assert_eq!(lba_registers(0x0fff_ffff)[0], (Register::Head, 0xef));
}

#[test]
fn sector_words_are_little_endian_and_round_trip() {
    let mut data = [0u8; 512];
    for (i, b) in data.iter_mut().enumerate() {
        *b = (i * 7 + 3) as u8;
    }
    data[0] = 0x34;
    data[1] = 0x12;
    let words = sector_words(&data);
    assert_eq!(words[0], 0x1234);
    assert_eq!(words[255], data[510] as u16 | (data[511] as u16) << 8);
    assert_eq!(sector_bytes(&words), data);
}

#[test]
fn status_step_reads_each_bit() {
    assert_eq!(status_step(0x00, true), Poll::Absent);
    assert_eq!(status_step(0xff, false), Poll::Absent);
    assert_eq!(status_step(0x80, true), Poll::Busy);
    assert_eq!(status_step(0x81, true), Poll::Busy);
    assert_eq!(status_step(0x41, true), Poll::Fault);
    assert_eq!(status_step(0x60, false), Poll::Fault);
    assert_eq!(status_step(0x58, true), Poll::Ready);
    assert_eq!(status_step(0x50, true), Poll::Busy);
    assert_eq!(status_step(0x50, false), Poll::Ready);
    assert_eq!(status_step(0x10, false), Poll::Busy);
}

#[test]
fn ring_header_checks_status_count_and_next_page() {
    assert_eq!(check_header(&[0x01, START + 1, 68, 0], START), Ok((64, START + 1)));
    assert_eq!(check_header(&[0x21, START + 1, 68, 0], START), Ok((64, START + 1)));
    assert_eq!(check_header(&[0x02, START + 1, 68, 0], START), Err(NicError::Corrupt));
    assert_eq!(check_header(&[0x01, START + 2, 68, 0], START), Err(NicError::Corrupt));
    assert_eq!(check_header(&[0x01, START + 1, 63, 0], START), Err(NicError::Corrupt));
    assert_eq!(check_header(&[0x01, START + 3, 0x2f, 0x02], START), Err(NicError::Corrupt));
    assert_eq!(check_header(&[0x01, 0x48, 0x2e, 0x02], 0x7f), Ok((554, 0x48)));
}
