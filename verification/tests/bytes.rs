use sky_archive::bytes_ext::{write_le_u16, write_le_u32, ByteReader, ReadError};

#[test]
fn reads_little_endian_fields() {
    let data = [0x34, 0x12, 0x56, 0x34, 0x12, 0x78, 0x56, 0x34, 0x12];
    let mut r = ByteReader::new(&data);
    assert_eq!(r.read_le_u16(), Ok(0x1234));
    assert_eq!(r.position(), 2);
    assert_eq!(r.read_le_u24(), Ok(0x12_3456));
    assert_eq!(r.position(), 5);
    assert_eq!(r.read_le_u32(), Ok(0x1234_5678));
    assert_eq!(r.position(), 9);
    assert_eq!(r.len(), 9);
}

#[test]
fn reads_big_endian_fields() {
    let data = [0x12, 0x34, 0x12, 0x34, 0x56, 0x78, 0xff];
    let mut r = ByteReader::new(&data);
    assert_eq!(r.read_be_u16(), Ok(0x1234));
    assert_eq!(r.read_be_u32(), Ok(0x1234_5678));
    assert_eq!(r.read_u8(), Ok(0xff));
    assert_eq!(r.position(), 7);
}

#[test]
fn reads_signed_fields_in_twos_complement() {
    let data = [0xff, 0xff, 0x00, 0x80, 0xff, 0x7f, 0xfe, 0xff, 0x05, 0x00];
    let mut r = ByteReader::new(&data);
    assert_eq!(r.read_le_i16(), Ok(-1));
    assert_eq!(r.read_le_i16(), Ok(-32768));
    assert_eq!(r.read_le_i16(), Ok(32767));
    assert_eq!(r.read_le_i16(), Ok(-2));
    assert_eq!(r.read_le_i16(), Ok(5));
}

#[test]
fn truncated_field_fails_and_leaves_nothing_to_read() {
    let data = [1, 2, 3];
    let mut r = ByteReader::new(&data);
    assert_eq!(r.read_le_u32(), Err(ReadError::UnexpectedEof));
    assert_eq!(r.position(), 3);
    assert_eq!(r.read_u8(), Err(ReadError::UnexpectedEof));

    let mut r = ByteReader::new(&data);
    assert_eq!(r.read_le_u16(), Ok(0x0201));
    assert_eq!(r.read_le_u16(), Err(ReadError::UnexpectedEof));
    assert_eq!(r.position(), 3);

    let mut r = ByteReader::new(&data);
    assert_eq!(r.read_be_u32(), Err(ReadError::UnexpectedEof));
    let mut r = ByteReader::new(&data[..1]);
    assert_eq!(r.read_be_u16(), Err(ReadError::UnexpectedEof));
    let mut r = ByteReader::new(&data[..2]);
    assert_eq!(r.read_le_u24(), Err(ReadError::UnexpectedEof));
    let mut r = ByteReader::new(&data[..1]);
    assert_eq!(r.read_le_i16(), Err(ReadError::UnexpectedEof));
    assert_eq!(r.position(), 1);
}

#[test]
fn read_exact_hands_out_the_bytes_asked_for() {
    let data = [10, 20, 30, 40, 50];
    let mut r = ByteReader::new(&data);
    assert_eq!(r.read_exact(2), Ok(&data[0..2]));
    assert_eq!(r.read_exact(0), Ok(&data[2..2]));
    assert_eq!(r.read_exact(3), Ok(&data[2..5]));
    assert_eq!(r.read_exact(0), Ok(&data[5..5]));
    assert_eq!(r.read_exact(1), Err(ReadError::UnexpectedEof));

    let mut r = ByteReader::new(&data);
    assert_eq!(r.read_exact(6), Err(ReadError::UnexpectedEof));
    assert_eq!(r.position(), 5);
}

#[test]
fn read_to_end_takes_what_is_left() {
    let data = [10, 20, 30, 40, 50];
    let mut r = ByteReader::new(&data);
    assert_eq!(r.read_u8(), Ok(10));
    assert_eq!(r.read_to_end(), &data[1..]);
    assert_eq!(r.position(), 5);
    assert_eq!(r.read_to_end(), &data[5..]);
}

#[test]
fn bytes_past_the_end_read_as_zero() {
    let data = [7, 9];
    let mut r = ByteReader::new(&data);
    assert_eq!(r.peek_u8_or_zero(0), 7);
    assert_eq!(r.peek_u8_or_zero(1), 9);
    assert_eq!(r.peek_u8_or_zero(2), 0);
    assert_eq!(r.position(), 0);
    assert_eq!(r.read_u8_or_zero(), 7);
    assert_eq!(r.read_u8_or_zero(), 9);
    assert_eq!(r.position(), 2);
    assert_eq!(r.read_u8_or_zero(), 0);
    assert_eq!(r.position(), 2);
    assert_eq!(r.peek_u8_or_zero(0), 0);
}

#[test]
fn seek_is_clamped_to_the_end() {
    let data = [1, 2, 3, 4];
    let mut r = ByteReader::new(&data);
    r.seek(2);
    assert_eq!(r.position(), 2);
    assert_eq!(r.read_u8(), Ok(3));
    r.seek(4);
    assert_eq!(r.position(), 4);
    r.seek(100);
    assert_eq!(r.position(), 4);
    r.seek(0);
    assert_eq!(r.read_u8(), Ok(1));
}

#[test]
fn writes_little_endian_fields() {
    let mut out = vec![0xaa];
    write_le_u16(&mut out, 0x1234);
    write_le_u32(&mut out, 0x89ab_cdef);
    assert_eq!(out, vec![0xaa, 0x34, 0x12, 0xef, 0xcd, 0xab, 0x89]);
}

#[test]
fn written_fields_read_back() {
    for v in [0u32, 1, 0xff, 0x100, 0x1234_5678, u32::MAX] {
        let mut out = Vec::new();
        write_le_u32(&mut out, v);
        write_le_u16(&mut out, (v & 0xffff) as u16);
        let mut r = ByteReader::new(&out);
        assert_eq!(r.read_le_u32(), Ok(v));
        assert_eq!(r.read_le_u16(), Ok((v & 0xffff) as u16));
    }
}

#[test]
fn read_error_has_a_message() {
    assert_eq!(ReadError::UnexpectedEof.message(), "failed to fill whole buffer");
}
