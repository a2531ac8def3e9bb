use sky_archive::bytes_ext::{ByteReader, ReadError};
use sky_archive::huffman::{assign_codes, table_new, Table};
use sky_archive::rnc_decompress::{
    append_bytes, copy_match, decompress_rnc1, DecompressError, Decoder, Header, HEADER_LEN,
};

/// One block; literal-length table with the depths 2, 1, 3, 3.
const ONE_BLOCK: [u8; 50] = [
    0x52, 0x4e, 0x43, 0x01, 0x00, 0x00, 0x00, 0x13, 0x00, 0x00, 0x00, 0x20, 0x00, 0x00, 0x00, 0x00,
    0x00, 0x01, 0x10, 0x89, 0x19, 0x48, 0x44, 0x44, 0x44, 0x44, 0x44, 0x44, 0x44, 0x04, 0x89, 0x88,
    0x88, 0x88, 0x88, 0x88, 0x88, 0x88, 0x06, 0x00, 0x96, 0xb0, 0x61, 0x62, 0x63, 0x83, 0x14, 0x58,
    0x59, 0x21,
];

/// Two blocks with different tables; the first holds a literal run of 40 bytes.
const TWO_BLOCKS: [u8; 105] = [
    0x52, 0x4e, 0x43, 0x01, 0x00, 0x00, 0x00, 0x43, 0x00, 0x00, 0x00, 0x57, 0x00, 0x00, 0x00, 0x00,
    0x00, 0x02, 0x40, 0x22, 0x22, 0x22, 0x22, 0x22, 0x22, 0x22, 0x22, 0x48, 0x44, 0x44, 0x44, 0x44,
    0x44, 0x44, 0x44, 0x04, 0x89, 0x88, 0x88, 0x88, 0x88, 0x88, 0x88, 0x88, 0x04, 0x00, 0x0c, 0xd9,
    0x00, 0x01, 0x02, 0x03, 0x04, 0x05, 0x06, 0x07, 0x08, 0x09, 0x0a, 0x0b, 0x0c, 0x0d, 0x0e, 0x0f,
    0x10, 0x11, 0x12, 0x13, 0x14, 0x15, 0x16, 0x17, 0x18, 0x19, 0x1a, 0x1b, 0x1c, 0x1d, 0x1e, 0x1f,
    0x20, 0x21, 0x22, 0x23, 0x24, 0x25, 0x26, 0x27, 0x51, 0x01, 0x22, 0x22, 0x22, 0x22, 0x44, 0x84,
    0x00, 0x40, 0x28, 0x00, 0x7a, 0x7a, 0x65, 0x6e, 0x64,
];

/// One block whose tables are empty, and one subchunk.
const NO_CODES: [u8; 24] = [
    0x52, 0x4e, 0x43, 0x01, 0x00, 0x00, 0x00, 0x00, 0x00, 0x00, 0x00, 0x06, 0x00, 0x00, 0x00, 0x00,
    0x00, 0x01, 0x00, 0x00, 0x02, 0x00, 0x00, 0x00,
];

/// One block that opens with a copy from an output that is still empty.
const EARLY_COPY: [u8; 50] = [
    0x52, 0x4e, 0x43, 0x01, 0x00, 0x00, 0x00, 0x00, 0x00, 0x00, 0x00, 0x20, 0x00, 0x00, 0x00, 0x00,
    0x00, 0x01, 0x40, 0x22, 0x22, 0x22, 0x22, 0x22, 0x22, 0x22, 0x22, 0x48, 0x44, 0x44, 0x44, 0x44,
    0x44, 0x44, 0x44, 0x04, 0x89, 0x88, 0x88, 0x88, 0x88, 0x88, 0x88, 0x88, 0x04, 0x00, 0x00, 0x00,
    0x00, 0x00,
];

fn unpacked_len(stream: &[u8]) -> usize {
    u32::from_be_bytes([stream[4], stream[5], stream[6], stream[7]]) as usize
}

fn table_of(depths: &[u16]) -> Table {
    let mut table = table_new();
    for (i, d) in depths.iter().enumerate() {
        table[i].bit_depth = *d;
    }
    assign_codes(&mut table, depths.len());
    table
}

#[test]
fn decompressed_length_is_the_declared_length() {
    let mut r = ByteReader::new(&ONE_BLOCK);
    let out = decompress_rnc1(&mut r).unwrap();
    assert_eq!(out.len(), unpacked_len(&ONE_BLOCK));
    assert_eq!(out.len(), 19);

    let mut r = ByteReader::new(&TWO_BLOCKS);
    let out = decompress_rnc1(&mut r).unwrap();
    assert_eq!(out.len(), unpacked_len(&TWO_BLOCKS));
    assert_eq!(out.len(), 67);
}

#[test]
fn decompresses_literals_and_copies() {
    let mut r = ByteReader::new(&ONE_BLOCK);
    assert_eq!(decompress_rnc1(&mut r), Ok(b"abcabcabcabXYXYXYX!".to_vec()));
    assert_eq!(r.position(), ONE_BLOCK.len());
}

#[test]
fn decompresses_several_blocks() {
    let mut expected: Vec<u8> = (0u8..40).collect();
    expected.extend(0u8..20);
    expected.extend_from_slice(b"zzzzend");
    let mut r = ByteReader::new(&TWO_BLOCKS);
    assert_eq!(decompress_rnc1(&mut r), Ok(expected));
    assert_eq!(r.position(), TWO_BLOCKS.len());
}

#[test]
fn decompresses_from_where_the_reader_stands() {
    let mut data = vec![0xee; 7];
    data.extend_from_slice(&ONE_BLOCK);
    let mut r = ByteReader::new(&data);
    r.seek(7);
    assert_eq!(decompress_rnc1(&mut r), Ok(b"abcabcabcabXYXYXYX!".to_vec()));
    assert_eq!(r.position(), data.len());
}

#[test]
fn stream_without_blocks_is_empty() {
    let mut data = b"RNC\x01".to_vec();
    data.extend_from_slice(&[0; 14]);
    data.extend_from_slice(&[1, 2, 3]);
    let mut r = ByteReader::new(&data);
    assert_eq!(decompress_rnc1(&mut r), Ok(vec![]));
    // the two bits of padding take one word from the source
    assert_eq!(r.position(), 20);
}

#[test]
fn corrupt_signature_is_a_signature_error() {
    let mut data = ONE_BLOCK.to_vec();
    data[..4].copy_from_slice(b"XXXX");
    let mut r = ByteReader::new(&data);
    assert_eq!(decompress_rnc1(&mut r), Err(DecompressError::SignatureError));
    assert_eq!(r.position(), HEADER_LEN);

    let mut data = ONE_BLOCK.to_vec();
    data[3] = 0x02;
    let mut r = ByteReader::new(&data);
    assert_eq!(decompress_rnc1(&mut r), Err(DecompressError::SignatureError));
}

#[test]
fn truncated_header_is_an_io_error() {
    for len in 0..HEADER_LEN {
        let mut r = ByteReader::new(&ONE_BLOCK[..len]);
        assert_eq!(
            decompress_rnc1(&mut r),
            Err(DecompressError::Io(ReadError::UnexpectedEof))
        );
        assert_eq!(r.position(), len);
    }
    // the header is read whole before the signature is looked at
    let mut r = ByteReader::new(b"XXXX");
    assert_eq!(
        decompress_rnc1(&mut r),
        Err(DecompressError::Io(ReadError::UnexpectedEof))
    );
}

#[test]
fn truncated_literal_run_is_an_io_error() {
    for len in [42, 44, 49] {
        let mut r = ByteReader::new(&ONE_BLOCK[..len]);
        assert_eq!(
            decompress_rnc1(&mut r),
            Err(DecompressError::Io(ReadError::UnexpectedEof))
        );
        assert_eq!(r.position(), len);
    }
}

#[test]
fn bits_that_match_no_code_are_an_error() {
    let mut r = ByteReader::new(&NO_CODES);
    assert_eq!(decompress_rnc1(&mut r), Err(DecompressError::NoMatchingCode));
    assert_eq!(r.position(), 24);
}

#[test]
fn copy_from_before_the_output_is_an_error() {
    let mut r = ByteReader::new(&EARLY_COPY);
    assert_eq!(decompress_rnc1(&mut r), Err(DecompressError::BadMatchDistance));
    assert_eq!(r.position(), 48);
}

#[test]
fn errors_have_messages() {
    assert_eq!(DecompressError::SignatureError.message(), "Invalid signature");
    assert_eq!(
        DecompressError::Io(ReadError::UnexpectedEof).message(),
        ReadError::UnexpectedEof.message()
    );
    assert_eq!(DecompressError::NoMatchingCode.message(), "No matching Huffman code");
    assert_eq!(DecompressError::BadMatchDistance.message(), "Match distance out of range");
}

#[test]
fn header_fields_are_big_endian() {
    let data = [
        0x52, 0x4e, 0x43, 0x01, 0x01, 0x02, 0x03, 0x04, 0x0a, 0x0b, 0x0c, 0x0d, 0x11, 0x22, 0x33,
        0x44, 0x55, 0x66, 0x77,
    ];
    let mut r = ByteReader::new(&data);
    let header = Header::read(&mut r).unwrap();
    assert_eq!(header.signature, [b'R', b'N', b'C', 1]);
    assert_eq!(header.unpacked_len, 0x0102_0304);
    assert_eq!(header.packed_len, 0x0a0b_0c0d);
    assert_eq!(header.crc_unpacked, 0x1122);
    assert_eq!(header.crc_packed, 0x3344);
    assert_eq!(header.overlaps_size, 0x55);
    assert_eq!(header.blocks, 0x66);
    assert!(header.signature_is_valid());
    assert_eq!(r.position(), 18);
    assert_eq!(HEADER_LEN, 18);
}

#[test]
fn header_signature_must_be_rnc_1() {
    for (i, b) in [(0, b'r'), (1, b'M'), (2, b'c'), (3, 0), (3, 2)] {
        let mut data = ONE_BLOCK;
        data[i] = b;
        let mut r = ByteReader::new(&data);
        assert!(!Header::read(&mut r).unwrap().signature_is_valid());
    }
}

#[test]
fn overlapping_copy_repeats_what_it_wrote() {
    let mut out = b"..abc".to_vec();
    copy_match(&mut out, 2, 5);
    assert_eq!(out, b"..abcbcbcb".to_vec());
}

#[test]
fn copy_of_distance_one_repeats_the_last_byte() {
    let mut out = b"xy".to_vec();
    copy_match(&mut out, 1, 4);
    assert_eq!(out, b"xyyyyy".to_vec());
}

#[test]
fn copy_within_its_distance_is_a_plain_copy() {
    let mut out = b"abcdef".to_vec();
    copy_match(&mut out, 6, 3);
    assert_eq!(out, b"abcdefabc".to_vec());
    copy_match(&mut out, 2, 0);
    assert_eq!(out, b"abcdefabc".to_vec());
}

#[test]
fn every_copied_byte_equals_the_byte_one_distance_back() {
    for distance in 1..=5usize {
        for count in 0..=12usize {
            let mut out = b"01234".to_vec();
            copy_match(&mut out, distance, count);
            assert_eq!(out.len(), 5 + count);
            assert_eq!(&out[..5], b"01234");
            for j in 5..out.len() {
                assert_eq!(out[j], out[j - distance]);
            }
        }
    }
}

#[test]
fn append_bytes_appends() {
    let mut out = vec![1, 2];
    append_bytes(&mut out, &[3, 4, 5]);
    append_bytes(&mut out, &[]);
    assert_eq!(out, vec![1, 2, 3, 4, 5]);
}

#[test]
fn decoder_reads_values_through_a_table() {
    // codes of the depths 2, 1, 3, 3, least significant bit first:
    // slot 1 (0), slot 0 (01), slot 2 (011) with one extra bit 1,
    // slot 3 (111) with the two extra bits 10
    let bits: u16 = 0b10_111_1_011_01_0;
    let data = bits.to_le_bytes();
    let table = table_of(&[2, 1, 3, 3]);
    let mut d = Decoder::new(ByteReader::new(&data));
    assert_eq!(d.input_value(&table), Ok(1));
    assert_eq!(d.input_value(&table), Ok(0));
    assert_eq!(d.input_value(&table), Ok(3));
    assert_eq!(d.input_value(&table), Ok(6));
    assert_eq!(d.bit_queue.bits_in_queue(), 4);
}

#[test]
fn decoder_leaves_the_stream_where_no_code_matches() {
    let data = [0xff, 0xff];
    let mut table = table_new();
    table[0].bit_depth = 1;
    assign_codes(&mut table, 1);
    let mut d = Decoder::new(ByteReader::new(&data));
    assert_eq!(d.read_bits(3), 7);
    assert_eq!(d.input_value(&table), Err(DecompressError::NoMatchingCode));
    assert_eq!(d.bit_queue.bits_in_queue(), 13);
    assert_eq!(d.r.position(), 2);
}

#[test]
fn decoder_reads_a_table_description() {
    // four leaves with the depths 2, 1, 3, 3
    let bits: u32 = 4 | 2 << 5 | 1 << 9 | 3 << 13 | 3 << 17;
    let data = bits.to_le_bytes();
    let mut d = Decoder::new(ByteReader::new(&data));
    let mut table = table_new();
    table[9].bit_depth = 7;
    table[9].l3 = 7;
    d.read_table(&mut table);
    assert_eq!(table, table_of(&[2, 1, 3, 3]));
    assert_eq!(d.bit_queue.bits_in_queue(), 32 - 21);
}

#[test]
fn decoder_clamps_the_leaf_count_to_sixteen() {
    let mut data = vec![0x1f | 0x20, 0x42, 0x84, 0x08, 0x11, 0x22, 0x44, 0x88, 0x10, 0, 0, 0];
    data.extend_from_slice(&[0xff; 4]);
    let mut expected_depths = Vec::new();
    {
        let mut d = Decoder::new(ByteReader::new(&data));
        assert_eq!(d.read_bits(5), 31);
        for _ in 0..16 {
            expected_depths.push(d.read_bits(4));
        }
    }
    let mut d = Decoder::new(ByteReader::new(&data));
    let mut table = table_new();
    d.read_table(&mut table);
    assert_eq!(table, table_of(&expected_depths));
    assert_eq!(d.r.position(), 10);
    assert_eq!(d.bit_queue.bits_in_queue(), 80 - 69);
}

#[test]
fn decoder_with_no_leaves_gives_the_empty_table() {
    let data = [0u8; 2];
    let mut d = Decoder::new(ByteReader::new(&data));
    let mut table = table_of(&[1, 1]);
    d.read_table(&mut table);
    assert_eq!(table, table_new());
}

#[test]
fn decode_drops_earlier_output() {
    let mut d = Decoder::new(ByteReader::new(&ONE_BLOCK));
    d.output.push(9);
    assert_eq!(d.decode(), Ok(()));
    assert_eq!(d.output, b"abcabcabcabXYXYXYX!".to_vec());
}

#[test]
fn declared_length_is_never_held_against_the_output() {
    for declared in [0u32, 1, 18, 20, 0xffff] {
        let mut data = ONE_BLOCK;
        data[4..8].copy_from_slice(&declared.to_be_bytes());
        let mut r = ByteReader::new(&data);
        assert_eq!(decompress_rnc1(&mut r), Ok(b"abcabcabcabXYXYXYX!".to_vec()));
    }
}

#[test]
fn output_is_as_long_as_the_runs_add_up_to() {
    // literal runs of 3, 2 and 1 bytes, copies of 8 and 5 bytes
    let mut r = ByteReader::new(&ONE_BLOCK);
    assert_eq!(decompress_rnc1(&mut r).unwrap().len(), 3 + 8 + 2 + 5 + 1);
    // literal runs of 40, 0, 2 and 3 bytes, copies of 20 and 2 bytes
    let mut r = ByteReader::new(&TWO_BLOCKS);
    assert_eq!(decompress_rnc1(&mut r).unwrap().len(), 40 + 20 + 0 + 2 + 2 + 3);
}

#[test]
fn rejected_header_leaves_output_and_bit_queue_alone() {
    let mut data = ONE_BLOCK.to_vec();
    data[..4].copy_from_slice(b"XXXX");
    let mut d = Decoder::new(ByteReader::new(&data));
    assert_eq!(d.decode(), Err(DecompressError::SignatureError));
    assert_eq!(d.output, Vec::<u8>::new());
    assert_eq!(d.bit_queue.bits_in_queue(), 0);
    assert_eq!(d.r.position(), 18);

    let mut d = Decoder::new(ByteReader::new(&data));
    d.output.extend_from_slice(b"kept");
    assert_eq!(d.read_bits(3), data[0] as u16 & 7);
    assert_eq!(d.decode(), Err(DecompressError::SignatureError));
    assert_eq!(d.output, b"kept".to_vec());
    assert_eq!(d.bit_queue.bits_in_queue(), 13);
    assert_eq!(d.r.position(), 20);

    let mut d = Decoder::new(ByteReader::new(&ONE_BLOCK[..17]));
    d.output.push(1);
    assert_eq!(d.decode(), Err(DecompressError::Io(ReadError::UnexpectedEof)));
    assert_eq!(d.output, vec![1]);
    assert_eq!(d.bit_queue.bits_in_queue(), 0);
}
