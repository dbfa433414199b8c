use rqlite::pager::read_varint_at;

#[test]
fn short_varint() {
    let buffer = [0b0000_0001];
    assert_eq!(read_varint_at(&buffer, 0), (1, 1));
}

#[test]
fn middle_varint() {
    let buffer = [0b1000_0001, 0b0111_1111];
    assert_eq!(read_varint_at(&buffer, 0), (2, 255));
}

#[test]
fn long_varint() {
    let buffer = [
        0b1000_0000,
        0b1111_1111,
        0b1000_0000,
        0b1000_0000,
        0b1000_0000,
        0b1000_0000,
        0b1000_0000,
        0b1000_0000,
        0b0110_1101,
    ];
    assert_eq!(
        read_varint_at(&buffer, 0),
        (
            9,
            0b00000001_11111100_00000000_00000000_00000000_00000000_00000000_01101101,
        )
    );
}

#[test]
fn minus_one() {
    let buffer = [
        0b1111_1111,
        0b1111_1111,
        0b1111_1111,
        0b1111_1111,
        0b1111_1111,
        0b1111_1111,
        0b1111_1111,
        0b1111_1111,
        0b1111_1111,
    ];
    assert_eq!(read_varint_at(&buffer, 0), (9, -1));
}

#[test]
fn varint_at_offset_reads_from_there() {
    let buffer = [0xff, 0x81, 0x00, 0x05];
    assert_eq!(read_varint_at(&buffer, 1), (2, 128));
    assert_eq!(read_varint_at(&buffer, 3), (1, 5));
}

#[test]
fn eight_byte_varint_keeps_seven_bits_each() {
    let buffer = [0x81, 0x80, 0x80, 0x80, 0x80, 0x80, 0x80, 0x00];
    assert_eq!(read_varint_at(&buffer, 0), (8, 1 << 49));
}
