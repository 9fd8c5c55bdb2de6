use schematic::cursor::{read_string, read_u16, read_u8, ByteCursor};
use schematic::error::DecodeError;

#[test]
fn read_u8_reads_one_byte_and_advances() {
    let mut c = ByteCursor::new(vec![0xAB, 0x01]);
    assert_eq!(read_u8(&mut c), Ok(0xAB));
    assert_eq!(c.pos(), 1);
    assert_eq!(read_u8(&mut c), Ok(0x01));
    assert_eq!(c.remaining(), 0);
}

#[test]
fn read_u8_at_end_is_eof() {
    let mut c = ByteCursor::new(vec![]);
    assert_eq!(read_u8(&mut c), Err(DecodeError::UnexpectedEof));
    assert_eq!(c.pos(), 0);
}

#[test]
fn read_u16_is_big_endian() {
    let mut c = ByteCursor::new(vec![0x01, 0x02, 0xFF, 0xFF]);
    assert_eq!(read_u16(&mut c), Ok(258));
    assert_eq!(read_u16(&mut c), Ok(65535));
    assert_eq!(c.pos(), 4);
}

#[test]
fn read_u16_with_one_byte_left_is_eof() {
    let mut c = ByteCursor::new(vec![0x00, 0x0A, 0x07]);
    assert_eq!(read_u16(&mut c), Ok(10));
    assert_eq!(read_u16(&mut c), Err(DecodeError::UnexpectedEof));
    assert_eq!(c.pos(), 2);
}

#[test]
fn read_string_ascii() {
    let mut c = ByteCursor::new(vec![0x00, 0x04, b'n', b'a', b'm', b'e', 0x09]);
    assert_eq!(read_string(&mut c), Ok("name".to_string()));
    assert_eq!(c.pos(), 6);
}

#[test]
fn read_string_multibyte_utf8() {
    let mut c = ByteCursor::new(vec![0x00, 0x03, b'c', 0xC3, 0xA9]);
    assert_eq!(read_string(&mut c), Ok("c\u{e9}".to_string()));
}

#[test]
fn read_string_of_length_zero_is_empty() {
    let mut c = ByteCursor::new(vec![0x00, 0x00]);
    assert_eq!(read_string(&mut c), Ok(String::new()));
    assert_eq!(c.pos(), 2);
}

#[test]
fn read_string_lone_continuation_byte_is_invalid() {
    let mut c = ByteCursor::new(vec![0x00, 0x01, 0x80]);
    assert_eq!(read_string(&mut c), Err(DecodeError::InvalidEncoding));
    assert_eq!(c.pos(), 0);
}

#[test]
fn read_string_short_body_is_eof() {
    let mut c = ByteCursor::new(vec![0x00, 0x05, b'a', b'b']);
    assert_eq!(read_string(&mut c), Err(DecodeError::UnexpectedEof));
    assert_eq!(c.pos(), 0);
}

#[test]
fn read_string_short_length_is_eof() {
    let mut c = ByteCursor::new(vec![0x00]);
    assert_eq!(read_string(&mut c), Err(DecodeError::UnexpectedEof));
}
