use simple_reader::bytes::{r16, r32, r64};

#[test]
fn little_endian_fields_are_read_low_byte_first() {
    let d = [0x50u8, 0x4b, 0x05, 0x06, 0x01, 0x02, 0x03, 0x04, 0xff];
    assert_eq!(r16(&d, 0), 0x4b50);
    assert_eq!(r32(&d, 0), 0x06054b50);
    assert_eq!(r64(&d, 0), 0x0403_0201_0605_4b50);
    assert_eq!(r16(&d, 7), 0xff04);
}
