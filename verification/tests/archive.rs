use sky_archive::archive::{
    bytes_to_vec, get_resource_by_id, make_entry, read_dinner_table, read_entry, read_resource,
    rescale_6_bit_color_to_8_bit, Entry, Header, ENTRY_LEN, HEADER_LEN,
};
use sky_archive::bytes_ext::{ByteReader, ReadError};

const STREAM: [u8; 50] = [
    0x52, 0x4e, 0x43, 0x01, 0x00, 0x00, 0x00, 0x13, 0x00, 0x00, 0x00, 0x20, 0x00, 0x00, 0x00, 0x00,
    0x00, 0x01, 0x10, 0x89, 0x19, 0x48, 0x44, 0x44, 0x44, 0x44, 0x44, 0x44, 0x44, 0x04, 0x89, 0x88,
    0x88, 0x88, 0x88, 0x88, 0x88, 0x88, 0x06, 0x00, 0x96, 0xb0, 0x61, 0x62, 0x63, 0x83, 0x14, 0x58,
    0x59, 0x21,
];

fn directory_bytes(lines: &[(u16, u32, u32)]) -> Vec<u8> {
    let mut bytes = (lines.len() as u32).to_le_bytes().to_vec();
    for (number, offset, raw_size) in lines {
        bytes.extend_from_slice(&number.to_le_bytes());
        bytes.extend_from_slice(&offset.to_le_bytes()[..3]);
        bytes.extend_from_slice(&raw_size.to_le_bytes()[..3]);
    }
    bytes
}

fn header_bytes(flags: u16) -> Vec<u8> {
    let mut bytes = Vec::new();
    for field in [flags, 0x0102, 0x8304, 320, 200, 0x0506, 0x0708, 9] {
        bytes.extend_from_slice(&field.to_le_bytes());
    }
    bytes.extend_from_slice(&(-3i16).to_le_bytes());
    bytes.extend_from_slice(&(258i16).to_le_bytes());
    bytes.extend_from_slice(&0xbeefu16.to_le_bytes());
    bytes
}

fn plain_entry(offset: u32, size: u32) -> Entry {
    Entry { number: 1, offset, size, has_file_header: false, uses_file_header: true }
}

fn header_entry(size: u32) -> Entry {
    Entry { number: 2, offset: 0, size, has_file_header: true, uses_file_header: true }
}

#[test]
fn directory_has_one_entry_for_each_line() {
    let lines = [
        (1u16, 0u32, 0x00_0300u32),
        (2, 0x01_0203, 0x80_0010),
        (0xbeef, 0xff_ffff, 0xc0_0005),
        (4, 7, 0x40_0007),
        (5, 8, 0xff_ffff),
    ];
    let bytes = directory_bytes(&lines);
    let mut r = ByteReader::new(&bytes);
    let directory = read_dinner_table(&mut r).unwrap();
    assert_eq!(directory.len(), 5);
    assert_eq!(r.position(), 4 + 5 * ENTRY_LEN);
    assert_eq!(
        directory[0],
        Entry { number: 1, offset: 0, size: 768, has_file_header: true, uses_file_header: true }
    );
    assert_eq!(
        directory[1],
        Entry {
            number: 2,
            offset: 0x01_0203,
            size: 16,
            has_file_header: false,
            uses_file_header: true
        }
    );
    assert_eq!(
        directory[2],
        Entry {
            number: 0xbeef,
            offset: 0xff_ffff,
            size: 5,
            has_file_header: false,
            uses_file_header: false
        }
    );
    assert_eq!(
        directory[3],
        Entry { number: 4, offset: 7, size: 7, has_file_header: true, uses_file_header: false }
    );
    assert_eq!(
        directory[4],
        Entry {
            number: 5,
            offset: 8,
            size: 0x3f_ffff,
            has_file_header: false,
            uses_file_header: false
        }
    );
}

#[test]
fn every_entry_has_its_size_masked_and_its_flags_from_the_top_bits() {
    let lines: Vec<(u16, u32, u32)> =
        (0..64u32).map(|i| (i as u16, i * 3, (i << 18) | (i * 0x1111))).collect();
    let bytes = directory_bytes(&lines);
    let mut r = ByteReader::new(&bytes);
    let directory = read_dinner_table(&mut r).unwrap();
    assert_eq!(directory.len(), lines.len());
    for (entry, (number, offset, raw)) in directory.iter().zip(lines.iter()) {
        assert_eq!(entry.number, *number);
        assert_eq!(entry.offset, *offset);
        assert_eq!(entry.size, raw & 0x3f_ffff);
        assert!(entry.size < 1 << 22);
        assert_eq!(entry.has_file_header, raw & (1 << 23) == 0);
        assert_eq!(entry.uses_file_header, raw & (1 << 22) == 0);
    }
}

#[test]
fn empty_directory_has_no_entries() {
    let bytes = directory_bytes(&[]);
    let mut r = ByteReader::new(&bytes);
    assert_eq!(read_dinner_table(&mut r), Ok(vec![]));
    assert_eq!(r.position(), 4);
}

#[test]
fn directory_is_read_from_where_the_reader_stands() {
    let mut bytes = vec![0xff; 3];
    bytes.extend(directory_bytes(&[(7, 1, 2)]));
    bytes.push(0xff);
    let mut r = ByteReader::new(&bytes);
    r.seek(3);
    assert_eq!(read_dinner_table(&mut r).unwrap(), vec![make_entry(7, 1, 2)]);
    assert_eq!(r.position(), 15);
}

#[test]
fn truncated_directory_is_an_error() {
    let bytes = directory_bytes(&[(1, 0, 0x300), (2, 0x300, 0x10)]);
    for len in 0..bytes.len() {
        let mut r = ByteReader::new(&bytes[..len]);
        assert_eq!(read_dinner_table(&mut r), Err(ReadError::UnexpectedEof));
        assert_eq!(r.position(), len);
    }
    let mut r = ByteReader::new(&bytes);
    assert_eq!(read_dinner_table(&mut r).unwrap().len(), 2);
}

#[test]
fn make_entry_takes_the_size_field_apart() {
    assert_eq!(
        make_entry(3, 9, 0x00_0000),
        Entry { number: 3, offset: 9, size: 0, has_file_header: true, uses_file_header: true }
    );
    assert_eq!(
        make_entry(3, 9, 0x3f_ffff),
        Entry {
            number: 3,
            offset: 9,
            size: 0x3f_ffff,
            has_file_header: true,
            uses_file_header: true
        }
    );
    assert_eq!(
        make_entry(3, 9, 0x40_0000),
        Entry { number: 3, offset: 9, size: 0, has_file_header: true, uses_file_header: false }
    );
    assert_eq!(
        make_entry(3, 9, 0x80_0001),
        Entry { number: 3, offset: 9, size: 1, has_file_header: false, uses_file_header: true }
    );
}

#[test]
fn read_entry_slices_the_data_file() {
    let file: Vec<u8> = (0..100u8).collect();
    assert_eq!(read_entry(&plain_entry(10, 5), &file), Ok(vec![10, 11, 12, 13, 14]));
    assert_eq!(read_entry(&plain_entry(0, 100), &file), Ok(file.clone()));
    assert_eq!(read_entry(&plain_entry(100, 0), &file), Ok(vec![]));
    assert_eq!(read_entry(&plain_entry(99, 1), &file), Ok(vec![99]));
}

#[test]
fn read_entry_fails_where_the_data_file_is_too_short() {
    let file: Vec<u8> = (0..100u8).collect();
    assert_eq!(read_entry(&plain_entry(99, 2), &file), Err(ReadError::UnexpectedEof));
    assert_eq!(read_entry(&plain_entry(0, 101), &file), Err(ReadError::UnexpectedEof));
    assert_eq!(read_entry(&plain_entry(101, 0), &file), Err(ReadError::UnexpectedEof));
    assert_eq!(read_entry(&plain_entry(0xff_ffff, 0x3f_ffff), &file), Err(ReadError::UnexpectedEof));
}

#[test]
fn uncompressed_entry_of_768_bytes_is_extracted_byte_for_byte() {
    let mut file = vec![0xaa; 5];
    let palette: Vec<u8> = (0..768u32).map(|i| (i * 7 % 64) as u8).collect();
    file.extend_from_slice(&palette);
    file.extend_from_slice(&[0xbb; 9]);
    let entry = Entry {
        number: 60,
        offset: 5,
        size: 768,
        has_file_header: false,
        uses_file_header: false,
    };
    let data = read_entry(&entry, &file).unwrap();
    let resource = read_resource(&entry, data).unwrap();
    assert_eq!(resource.entry, entry);
    assert_eq!(resource.header, None);
    assert_eq!(resource.data, palette);
    assert!(!resource.is_compressed());
}

#[test]
fn resource_without_header_may_be_empty_or_look_like_a_header() {
    let resource = read_resource(&plain_entry(0, 0), vec![]).unwrap();
    assert_eq!(resource.header, None);
    assert_eq!(resource.data, vec![]);
    let bytes = header_bytes(0x80);
    let resource = read_resource(&plain_entry(0, 22), bytes.clone()).unwrap();
    assert_eq!(resource.header, None);
    assert_eq!(resource.data, bytes);
}

#[test]
fn header_fields_are_little_endian() {
    let mut bytes = header_bytes(0x0011);
    bytes.push(0x77);
    let mut r = ByteReader::new(&bytes);
    let header = Header::read(&mut r).unwrap();
    assert_eq!(
        header,
        Header {
            flags: 0x0011,
            x: 0x0102,
            y: 0x8304,
            width: 320,
            height: 200,
            sp_size: 0x0506,
            tot_size: 0x0708,
            n_sprites: 9,
            offset_x: -3,
            offset_y: 258,
            compressed_size: 0xbeef,
        }
    );
    assert_eq!(r.position(), HEADER_LEN);
    assert_eq!(HEADER_LEN, 22);
}

#[test]
fn compression_flag_is_bit_seven_of_the_flags() {
    for (flags, compressed) in
        [(0u16, false), (0x80, true), (0x7f, false), (0xff, true), (0xff7f, false), (0x180, true)]
    {
        let bytes = header_bytes(flags);
        let mut r = ByteReader::new(&bytes);
        assert_eq!(Header::read(&mut r).unwrap().is_compressed(), compressed);
    }
}

#[test]
fn resource_with_header_and_plain_payload() {
    let mut bytes = header_bytes(0x0001);
    bytes.extend_from_slice(b"payload");
    let entry = header_entry(bytes.len() as u32);
    let resource = read_resource(&entry, bytes).unwrap();
    assert_eq!(resource.entry, entry);
    assert_eq!(resource.header.unwrap().flags, 1);
    assert_eq!(resource.header.unwrap().offset_x, -3);
    assert_eq!(resource.data, b"payload".to_vec());
    assert!(!resource.is_compressed());
}

#[test]
fn resource_with_header_only_has_an_empty_payload() {
    let resource = read_resource(&header_entry(22), header_bytes(0)).unwrap();
    assert!(resource.header.is_some());
    assert_eq!(resource.data, vec![]);
}

#[test]
fn resource_with_truncated_header_is_an_error() {
    for len in 0..22 {
        let bytes = header_bytes(0)[..len].to_vec();
        let result = read_resource(&header_entry(len as u32), bytes);
        assert_eq!(result.err(), Some(ReadError::UnexpectedEof));
    }
}

#[test]
fn resource_with_compressed_payload_is_decompressed() {
    let mut bytes = header_bytes(0x0080);
    bytes.extend_from_slice(&STREAM);
    let resource = read_resource(&header_entry(bytes.len() as u32), bytes).unwrap();
    assert!(resource.is_compressed());
    assert_eq!(resource.header.unwrap().flags, 0x80);
    assert_eq!(resource.data, b"abcabcabcabXYXYXYX!".to_vec());
}

#[test]
fn corrupt_signature_falls_back_to_the_raw_bytes() {
    let mut bytes = header_bytes(0x0080);
    let mut stream = STREAM.to_vec();
    stream[..4].copy_from_slice(b"XXXX");
    bytes.extend_from_slice(&stream);
    let resource = read_resource(&header_entry(bytes.len() as u32), bytes).unwrap();
    assert!(resource.is_compressed());
    // every byte after the header, also those that the decoder read
    assert_eq!(resource.data, stream);
}

#[test]
fn corrupt_signature_keeps_the_21_bytes_after_the_header() {
    let mut bytes = vec![0x80, 0x00];
    bytes.extend_from_slice(&[0; 20]);
    bytes.extend_from_slice(b"XXXX");
    bytes.extend_from_slice(&[0; 14]);
    bytes.extend_from_slice(&[9, 9, 9]);
    let expected = bytes[22..].to_vec();
    let resource = read_resource(&header_entry(bytes.len() as u32), bytes).unwrap();
    assert_eq!(resource.header.unwrap().flags, 0x80);
    assert_eq!(resource.data.len(), 21);
    assert_eq!(resource.data, expected);
}

#[test]
fn failed_decompression_falls_back_to_the_raw_bytes() {
    // too short for the header of a stream
    let mut bytes = header_bytes(0x0080);
    bytes.extend_from_slice(b"RNC\x01\x00");
    let resource = read_resource(&header_entry(bytes.len() as u32), bytes).unwrap();
    assert!(resource.header.is_some());
    assert_eq!(resource.data, b"RNC\x01\x00".to_vec());

    // a literal run that the source cannot fill
    let mut bytes = header_bytes(0x0080);
    bytes.extend_from_slice(&STREAM[..44]);
    let resource = read_resource(&header_entry(bytes.len() as u32), bytes).unwrap();
    assert_eq!(resource.data, STREAM[..44].to_vec());

    // no code matches
    let mut stream = b"RNC\x01".to_vec();
    stream.extend_from_slice(&[0, 0, 0, 0, 0, 0, 0, 6, 0, 0, 0, 0, 0, 1]);
    stream.extend_from_slice(&[0x00, 0x00, 0x02, 0x00, 0x00, 0x00]);
    stream.extend_from_slice(b"rest");
    let mut bytes = header_bytes(0x0080);
    bytes.extend_from_slice(&stream);
    let resource = read_resource(&header_entry(bytes.len() as u32), bytes).unwrap();
    assert_eq!(resource.data, stream);

    // a copy from before the output
    let mut stream = STREAM.to_vec();
    stream[18..].copy_from_slice(&[
        0x40, 0x22, 0x22, 0x22, 0x22, 0x22, 0x22, 0x22, 0x22, 0x48, 0x44, 0x44, 0x44, 0x44, 0x44,
        0x44, 0x44, 0x04, 0x89, 0x88, 0x88, 0x88, 0x88, 0x88, 0x88, 0x88, 0x04, 0x00, 0x00, 0x00,
        0x00, 0x00,
    ]);
    let mut bytes = header_bytes(0x0080);
    bytes.extend_from_slice(&stream);
    let resource = read_resource(&header_entry(bytes.len() as u32), bytes).unwrap();
    assert_eq!(resource.data, stream);

    // nothing at all after the header
    let resource = read_resource(&header_entry(22), header_bytes(0x0080)).unwrap();
    assert_eq!(resource.data, vec![]);
}

#[test]
fn resource_with_header_is_handed_out_whatever_follows_the_header() {
    for seed in 0..200u32 {
        let mut bytes = header_bytes(0x0080);
        let len = (seed % 61) as usize;
        let mut x = seed.wrapping_mul(2654435761).wrapping_add(12345);
        let mut tail = Vec::new();
        for _ in 0..len {
            x = x.wrapping_mul(1664525).wrapping_add(1013904223);
            tail.push((x >> 24) as u8);
        }
        if seed % 2 == 0 && tail.len() >= 18 {
            tail[..4].copy_from_slice(b"RNC\x01");
            // keep the pre-allocated output small
            tail[4] = 0;
            tail[5] = 0;
        }
        bytes.extend_from_slice(&tail);
        let resource = read_resource(&header_entry(bytes.len() as u32), bytes).unwrap();
        assert_eq!(resource.header.unwrap().flags, 0x80);
    }
}

#[test]
fn resource_is_found_by_its_number() {
    let mut file = b"0123456789".to_vec();
    let mut with_header = header_bytes(0);
    with_header.extend_from_slice(b"tail");
    file.extend_from_slice(&with_header);
    let directory = [
        make_entry(10, 0, 0x80_0004),
        make_entry(11, 4, 0x80_0006),
        make_entry(12, 10, with_header.len() as u32),
        make_entry(11, 0, 0x80_0001),
        make_entry(13, 5, 0x80_0100),
        make_entry(14, 0, 5),
    ];
    let resource = get_resource_by_id(10, &directory, &file).unwrap();
    assert_eq!(resource.entry, directory[0]);
    assert_eq!(resource.data, b"0123".to_vec());
    // the first entry with the number is taken
    let resource = get_resource_by_id(11, &directory, &file).unwrap();
    assert_eq!(resource.entry, directory[1]);
    assert_eq!(resource.data, b"456789".to_vec());
    let resource = get_resource_by_id(12, &directory, &file).unwrap();
    assert_eq!(resource.header.unwrap().width, 320);
    assert_eq!(resource.data, b"tail".to_vec());
    // no such number
    assert!(get_resource_by_id(9, &directory, &file).is_none());
    // the data file is too short
    assert!(get_resource_by_id(13, &directory, &file).is_none());
    // the bytes are too few for a header
    assert!(get_resource_by_id(14, &directory, &file).is_none());
    assert!(get_resource_by_id(10, &[], &file).is_none());
}

#[test]
fn six_bit_colours_are_scaled_to_eight_bits() {
    assert_eq!(rescale_6_bit_color_to_8_bit(0), 0);
    assert_eq!(rescale_6_bit_color_to_8_bit(1), 4);
    assert_eq!(rescale_6_bit_color_to_8_bit(32), 129);
    assert_eq!(rescale_6_bit_color_to_8_bit(62), 250);
    assert_eq!(rescale_6_bit_color_to_8_bit(63), 255);
    for c in 0..=63u8 {
        assert_eq!(rescale_6_bit_color_to_8_bit(c) as u32, 255 * c as u32 / 63);
    }
    // above six bits the scaled value is cut to eight bits
    assert_eq!(rescale_6_bit_color_to_8_bit(64), (255 * 64 / 63 - 256) as u8);
    assert_eq!(rescale_6_bit_color_to_8_bit(255), ((255 * 255 / 63) % 256) as u8);
}

#[test]
fn bytes_to_vec_copies() {
    assert_eq!(bytes_to_vec(&[1, 2, 3]), vec![1, 2, 3]);
    assert_eq!(bytes_to_vec(&[]), Vec::<u8>::new());
}
