use com_tool::codec::{crc16, crc16_for_u16, full_crc16, isak_crc16};

#[test]
fn full_crc16_check_value() {
    assert_eq!(full_crc16(b"123456789"), 0x29B1);
}

#[test]
fn full_crc16_empty_is_initial_value() {
    assert_eq!(full_crc16(&[]), 0xFFFF);
}

#[test]
fn crc16_single_byte() {
    assert_eq!(crc16(0xffff, 0x31), 0xC782);
}

#[test]
fn crc16_fold_matches_full_crc16() {
    let data = b"123456789";
    let mut crc: u16 = 0xffff;
    for b in data.iter() {
        crc = crc16(crc, *b);
    }
    assert_eq!(crc, full_crc16(data));
}

#[test]
fn full_crc16_continued_by_crc16() {
    let head = b"12345";
    let tail = b"6789";
    let mut crc = full_crc16(head);
    for b in tail.iter() {
        crc = crc16(crc, *b);
    }
    assert_eq!(crc, full_crc16(b"123456789"));
}

#[test]
fn crc16_for_u16_feeds_high_then_low() {
    assert_eq!(crc16_for_u16(0xffff, 0x1234), crc16(crc16(0xffff, 0x12), 0x34));
    assert_eq!(crc16_for_u16(0xffff, 0x1234), 0x0EC9);
}

#[test]
fn isak_crc16_values() {
    assert_eq!(isak_crc16(&[]), 0);
    assert_eq!(isak_crc16(b"A"), 0xF5A3);
    assert_eq!(isak_crc16(&[0x01]), 0xF1E1);
    assert_eq!(isak_crc16(&[0xff, 0x00]), 0x87F0);
    // The CRC-16/X-25 check value 0x906E, bytes swapped.
    assert_eq!(isak_crc16(b"123456789"), 0x6E90);
}
