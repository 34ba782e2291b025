use mini_lsm::codec::{read_u16, read_u32};

#[test]
fn test_read_u16_is_big_endian() {
    let data = [0x12u8, 0x34, 0x56, 0x78, 0x9a];
    assert_eq!(read_u16(&data, 0), 0x1234);
    assert_eq!(read_u16(&data, 1), 0x3456);
    assert_eq!(read_u16(&data, 3), 0x789a);
    assert_eq!(read_u16(&[0, 1], 0), 1);
    assert_eq!(read_u16(&[1, 0], 0), 256);
    assert_eq!(read_u16(&[0xff, 0xff], 0), u16::MAX);
}

#[test]
fn test_read_u32_is_big_endian() {
    let data = [0x12u8, 0x34, 0x56, 0x78, 0x9a];
    assert_eq!(read_u32(&data, 0), 0x12345678);
    assert_eq!(read_u32(&data, 1), 0x3456789a);
    assert_eq!(read_u32(&[0, 0, 0, 1], 0), 1);
    assert_eq!(read_u32(&[1, 0, 0, 0], 0), 1 << 24);
    assert_eq!(read_u32(&[0xff; 4], 0), u32::MAX);
}
