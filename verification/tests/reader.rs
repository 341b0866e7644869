use cpk_size_sync::reader::{align_up, read_i16, read_i32, read_i64, read_u32, u32_at};
use cpk_size_sync::entries::ValueLength;
use cpk_size_sync::writer::write_value;

#[test]
fn read_u32_is_little_endian() {
    let data = [0x01u8, 0x74, 0x32, 0x62, 0xff];
    assert_eq!(read_u32(&data, 0), Some(0x6232_7401));
    assert_eq!(read_u32(&data, 1), Some(0xff62_3274));
    assert_eq!(u32_at(&data, 0), 0x6232_7401);
}

#[test]
fn read_u32_out_of_range_is_none() {
    let data = [1u8, 2, 3, 4, 5];
    assert_eq!(read_u32(&data, 2), None);
    assert_eq!(read_u32(&data, 5), None);
    assert_eq!(read_u32(&data, usize::MAX), None);
    assert_eq!(read_u32(&[], 0), None);
}

#[test]
fn read_i32_is_signed() {
    let data = [0xffu8, 0xff, 0xff, 0xff, 0x00, 0x00, 0x00, 0x80];
    assert_eq!(read_i32(&data, 0), Some(-1));
    assert_eq!(read_i32(&data, 4), Some(i32::MIN));
    assert_eq!(read_i32(&data, 1), Some(0x00ff_ffff));
    assert_eq!(read_i32(&data, 5), None);
}

#[test]
fn read_i16_is_signed_little_endian() {
    let data = [0x01u8, 0x01, 0xfe, 0xff];
    assert_eq!(read_i16(&data, 0), Some(257));
    assert_eq!(read_i16(&data, 2), Some(-2));
    assert_eq!(read_i16(&data, 1), Some(-511));
    assert_eq!(read_i16(&data, 3), None);
    assert_eq!(read_i16(&data, usize::MAX), None);
}

#[test]
fn read_i64_is_signed_little_endian() {
    let data = [0x00u8, 0x04, 0, 0, 0, 0, 0, 0, 0x80];
    assert_eq!(read_i64(&data, 0), Some(1024));
    assert_eq!(read_i64(&data, 1), Some(i64::MIN + 4));
    assert_eq!(read_i64(&data, 2), None);
    let ones = [0xffu8; 8];
    assert_eq!(read_i64(&ones, 0), Some(-1));
    assert_eq!(read_i64(&ones, usize::MAX), None);
}

#[test]
fn align_up_rounds_to_the_next_multiple() {
    assert_eq!(align_up(0, 4), 0);
    assert_eq!(align_up(1, 4), 4);
    assert_eq!(align_up(4, 4), 4);
    assert_eq!(align_up(21, 4), 24);
    assert_eq!(align_up(0x31, 0x10), 0x40);
    assert_eq!(align_up(0x40, 0x10), 0x40);
    assert_eq!(align_up(7, 1), 7);
}

#[test]
fn write_value_narrows_to_four_bytes() {
    let mut out = vec![0xaau8; 8];
    write_value(&mut out, 2, 0x1_0000_0400, ValueLength::Int);
    assert_eq!(out, vec![0xaa, 0xaa, 0x00, 0x04, 0x00, 0x00, 0xaa, 0xaa]);
    assert_eq!(read_i32(&out, 2), Some(1024));
}

#[test]
fn write_value_keeps_negative_numbers() {
    let mut out = vec![0u8; 12];
    write_value(&mut out, 0, -2, ValueLength::Int);
    write_value(&mut out, 4, -2, ValueLength::Long);
    assert_eq!(&out[0..4], &[0xfe, 0xff, 0xff, 0xff]);
    assert_eq!(read_i32(&out, 0), Some(-2));
    assert_eq!(read_i64(&out, 4), Some(-2));
}

#[test]
fn write_value_eight_bytes_is_exact() {
    let mut out = vec![0u8; 8];
    write_value(&mut out, 0, 0x0102_0304_0506_0708, ValueLength::Long);
    assert_eq!(out, vec![8, 7, 6, 5, 4, 3, 2, 1]);
    write_value(&mut out, 0, i64::MIN, ValueLength::Long);
    assert_eq!(read_i64(&out, 0), Some(i64::MIN));
}

#[test]
fn value_length_in_bytes() {
    assert_eq!(ValueLength::Int.byte_len(), 4);
    assert_eq!(ValueLength::Long.byte_len(), 8);
}
