use osu_tourney_data_reader::bytes::{
    decode_i16, decode_i32, decode_i64, decode_i8, decode_ptr32, decode_u16, le_u32,
};
use osu_tourney_data_reader::error::MemoryError;

#[test]
fn little_endian_values() {
    let b = [0x78u8, 0x56, 0x34, 0x12, 0xff, 0xff, 0xff, 0xff];
    assert_eq!(le_u32(&b), 0x1234_5678);
    assert_eq!(decode_ptr32(&b), 0x1234_5678usize);
    assert_eq!(decode_i32(&[0xff, 0xff, 0xff, 0xff]), -1);
    assert_eq!(decode_i32(&[0, 0, 0, 0x80]), i32::MIN);
    assert_eq!(decode_u16(&[0x34, 0x12]), 0x1234);
    assert_eq!(decode_i16(&[0xfe, 0xff]), -2);
    assert_eq!(decode_i8(&[0x80]), -128);
    assert_eq!(decode_i64(&b), i64::from_le_bytes(b));
    assert_eq!(decode_i64(&[1, 0, 0, 0, 0, 0, 0, 0]), 1);
}

#[test]
fn error_messages() {
    assert_eq!(MemoryError::ProcessNotFound.message(), "Process not found");
    assert_eq!(MemoryError::ReadFailed("x".to_string()).message(), "Read failed: x");
    assert_eq!(MemoryError::InvalidString.message(), "Invalid string");
}

#[test]
fn pointer_and_signed_readings_agree() {
    let b = [0xfeu8, 0xff, 0xff, 0xff];
    let p = decode_ptr32(&b);
    assert_eq!(p, 0xffff_fffe);
    assert_eq!(decode_i32(&b), -2);
    assert_eq!(p as u32 as i32, decode_i32(&b));
    let b = [0x00u8, 0x00, 0x01, 0x00];
    assert_eq!(decode_ptr32(&b) as u32 as i32, decode_i32(&b));
}
