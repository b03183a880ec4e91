use bytes::Bytes;
use lucene_segments::checksum::checksum;
use lucene_segments::directory_reader::IndexInput;
use lucene_segments::directory_reader::ID_LENGTH;
use lucene_segments::error::SegmentReadError;
use lucene_segments::header::HeaderError;
use lucene_segments::util::read_byte;
use lucene_segments::util::read_bytes;
use lucene_segments::util::read_int;
use lucene_segments::util::read_long;
use lucene_segments::util::read_string;
use lucene_segments::util::read_variable_int;
use lucene_segments::util::read_variable_long;
use lucene_segments::util::read_variable_string;
use lucene_segments::util::same_bytes;
use lucene_segments::util::same_text;

fn encode_vint(mut v: u64) -> Vec<u8> {
    let mut out = Vec::new();
    loop {
        let low = (v & 0x7f) as u8;
        v >>= 7;
        if v == 0 {
            out.push(low);
            return out;
        }
        out.push(low | 0x80);
    }
}

#[test]
fn read_byte_takes_the_first_byte() {
    let mut bytes = Bytes::from(vec![7u8, 8, 9]);
    assert_eq!(read_byte(&mut bytes), Ok(7));
    assert_eq!(&bytes[..], &[8u8, 9][..]);
}

#[test]
fn read_byte_on_empty_input_is_eof() {
    let mut bytes = Bytes::new();
    assert_eq!(read_byte(&mut bytes), Err(HeaderError::UnexpectedEof));
}

#[test]
fn read_int_is_big_endian() {
    let mut bytes = Bytes::from(vec![0x08u8, 0x09, 0xA0, 0xA1, 0xFF]);
    assert_eq!(read_int(&mut bytes), Ok(0x0809_A0A1));
    assert_eq!(&bytes[..], &[0xFFu8][..]);
}

#[test]
fn read_int_does_no_partial_read() {
    let mut bytes = Bytes::from(vec![1u8, 2, 3]);
    assert_eq!(read_int(&mut bytes), Err(HeaderError::UnexpectedEof));
    assert_eq!(bytes.len(), 3);
}

#[test]
fn read_long_is_big_endian() {
    let mut bytes = Bytes::from(vec![1u8, 2, 3, 4, 5, 6, 7, 8, 9]);
    assert_eq!(read_long(&mut bytes), Ok(0x0102_0304_0506_0708));
    assert_eq!(&bytes[..], &[9u8][..]);
}

#[test]
fn read_long_does_no_partial_read() {
    let mut bytes = Bytes::from(vec![1u8, 2, 3, 4, 5, 6, 7]);
    assert_eq!(read_long(&mut bytes), Err(HeaderError::UnexpectedEof));
    assert_eq!(bytes.len(), 7);
}

#[test]
fn read_bytes_copies_exactly_the_length() {
    let mut bytes = Bytes::from(vec![1u8, 2, 3, 4, 5]);
    assert_eq!(read_bytes(&mut bytes, 3), Ok(vec![1u8, 2, 3]));
    assert_eq!(&bytes[..], &[4u8, 5][..]);
    assert_eq!(read_bytes(&mut bytes, 0), Ok(Vec::new()));
    assert_eq!(read_bytes(&mut bytes, 3), Err(HeaderError::UnexpectedEof));
    assert_eq!(bytes.len(), 2);
}

#[test]
fn read_string_decodes_utf8() {
    let mut bytes = Bytes::from("héllo!".as_bytes().to_vec());
    assert_eq!(read_string(&mut bytes, 6), Ok("héllo".to_string()));
    assert_eq!(&bytes[..], &b"!"[..]);
}

#[test]
fn read_string_refuses_invalid_utf8() {
    let mut bytes = Bytes::from(vec![0x61u8, 0xFF, 0x62, 0x63]);
    assert_eq!(read_string(&mut bytes, 3), Err(HeaderError::InvalidUtf8));
    assert_eq!(&bytes[..], &[0x63u8][..]);
}

#[test]
fn read_string_refuses_a_short_input() {
    let mut bytes = Bytes::from(vec![0x61u8, 0x62]);
    assert_eq!(read_string(&mut bytes, 3), Err(HeaderError::UnexpectedEof));
}

#[test]
fn vint_of_one_byte() {
    let mut bytes = Bytes::from(vec![0x7Fu8, 0x01]);
    assert_eq!(read_variable_int(&mut bytes), Ok(127));
    assert_eq!(bytes.len(), 1);
}

#[test]
fn vint_of_two_bytes() {
    let mut bytes = Bytes::from(vec![0xACu8, 0x02]);
    assert_eq!(read_variable_int(&mut bytes), Ok(300));
    assert_eq!(bytes.len(), 0);
}

#[test]
fn vint_of_five_bytes() {
    let mut bytes = Bytes::from(vec![0x80u8, 0x80, 0x80, 0x80, 0x01]);
    assert_eq!(read_variable_int(&mut bytes), Ok(1 << 28));
    let mut bytes = Bytes::from(vec![0xFFu8, 0xFF, 0xFF, 0xFF, 0x0F]);
    assert_eq!(read_variable_int(&mut bytes), Ok(u32::MAX));
}

#[test]
fn vint_accepts_padding_with_empty_groups() {
    let mut bytes = Bytes::from(vec![0x80u8, 0x00]);
    assert_eq!(read_variable_int(&mut bytes), Ok(0));
}

#[test]
fn vint_with_an_overflowing_fifth_byte_is_too_long() {
    let mut bytes = Bytes::from(vec![0xFFu8, 0xFF, 0xFF, 0xFF, 0x10]);
    assert_eq!(read_variable_int(&mut bytes), Err(HeaderError::VarIntTooLong));
    let mut bytes = Bytes::from(vec![0x80u8, 0x80, 0x80, 0x80, 0x80, 0x00]);
    assert_eq!(read_variable_int(&mut bytes), Err(HeaderError::VarIntTooLong));
    assert_eq!(bytes.len(), 1);
}

#[test]
fn vint_that_ends_early_is_eof() {
    let mut bytes = Bytes::from(vec![0x80u8, 0x80]);
    assert_eq!(read_variable_int(&mut bytes), Err(HeaderError::UnexpectedEof));
    let mut bytes = Bytes::new();
    assert_eq!(read_variable_int(&mut bytes), Err(HeaderError::UnexpectedEof));
}

#[test]
fn vint_round_trips_and_has_the_stated_lengths() {
    let values = [
        0u32,
        1,
        127,
        128,
        300,
        16_383,
        16_384,
        (1 << 21) - 1,
        1 << 21,
        (1 << 28) - 1,
        1 << 28,
        0x7FFF_FFFF,
        0x8000_0000,
        u32::MAX,
    ];
    for v in values {
        let encoded = encode_vint(v as u64);
        if v < (1 << 7) {
            assert_eq!(encoded.len(), 1);
        }
        if v >= (1 << 28) {
            assert_eq!(encoded.len(), 5);
        }
        let mut bytes = Bytes::from(encoded);
        assert_eq!(read_variable_int(&mut bytes), Ok(v));
        assert_eq!(bytes.len(), 0);
    }
}

#[test]
fn vlong_reads_up_to_nine_bytes() {
    let mut bytes = Bytes::from(vec![0xFFu8, 0xFF, 0xFF, 0xFF, 0xFF, 0xFF, 0xFF, 0xFF, 0x7F]);
    assert_eq!(read_variable_long(&mut bytes), Ok(0x7FFF_FFFF_FFFF_FFFF));
    let mut bytes = Bytes::from(vec![0x80u8, 0x80, 0x80, 0x80, 0x80, 0x01]);
    assert_eq!(read_variable_long(&mut bytes), Ok(1 << 35));
    let mut bytes = Bytes::from(vec![0x05u8]);
    assert_eq!(read_variable_long(&mut bytes), Ok(5));
}

#[test]
fn vlong_with_a_tenth_byte_is_too_long() {
    let mut bytes =
        Bytes::from(vec![0xFFu8, 0xFF, 0xFF, 0xFF, 0xFF, 0xFF, 0xFF, 0xFF, 0xFF, 0x01]);
    assert_eq!(read_variable_long(&mut bytes), Err(HeaderError::VarIntTooLong));
}

#[test]
fn vlong_round_trips() {
    let values = [0u64, 127, 128, 1 << 32, (1 << 56) - 1, 1 << 56, (1 << 63) - 1];
    for v in values {
        let mut bytes = Bytes::from(encode_vint(v));
        assert_eq!(read_variable_long(&mut bytes), Ok(v));
        assert_eq!(bytes.len(), 0);
    }
}

#[test]
fn vstring_reads_length_then_text() {
    let mut bytes = Bytes::from(vec![0x03u8, b'a', b'b', b'c', b'd']);
    assert_eq!(read_variable_string(&mut bytes), Ok("abc".to_string()));
    assert_eq!(&bytes[..], &b"d"[..]);
    let mut bytes = Bytes::from(vec![0x00u8]);
    assert_eq!(read_variable_string(&mut bytes), Ok(String::new()));
}

#[test]
fn vstring_errors() {
    let mut bytes = Bytes::from(vec![0x03u8, b'a', b'b']);
    assert_eq!(read_variable_string(&mut bytes), Err(HeaderError::UnexpectedEof));
    let mut bytes = Bytes::from(vec![0x02u8, 0xC3, 0x28]);
    assert_eq!(read_variable_string(&mut bytes), Err(HeaderError::InvalidUtf8));
    let mut bytes = Bytes::from(vec![0xFFu8, 0xFF, 0xFF, 0xFF, 0x7F]);
    assert_eq!(read_variable_string(&mut bytes), Err(HeaderError::VarIntTooLong));
}

#[test]
fn long_vstring_uses_a_two_byte_length() {
    let text = "x".repeat(200);
    let mut encoded = encode_vint(200);
    assert_eq!(encoded, vec![0xC8u8, 0x01]);
    encoded.extend_from_slice(text.as_bytes());
    let mut bytes = Bytes::from(encoded);
    assert_eq!(read_variable_string(&mut bytes), Ok(text));
}

#[test]
fn same_bytes_and_same_text_compare_contents() {
    assert!(same_bytes(&[1, 2, 3], &[1, 2, 3]));
    assert!(!same_bytes(&[1, 2, 3], &[1, 2, 4]));
    assert!(!same_bytes(&[1, 2, 3], &[1, 2]));
    assert!(same_bytes(&[], &[]));
    assert!(same_text("segments", "segments"));
    assert!(!same_text("segments", "Segments"));
    assert!(!same_text("segments", "segment"));
}

#[test]
fn cursor_reads_in_order() {
    let mut data = vec![0x2Au8];
    data.extend_from_slice(&[0, 0, 1, 0]);
    data.extend_from_slice(&[0, 0, 0, 0, 0, 0, 2, 0]);
    data.extend_from_slice(&[0xAC, 0x02]);
    data.extend_from_slice(&[0x02, b'o', b'k']);
    data.extend_from_slice(&[b'h', b'i']);
    data.extend_from_slice(&[9, 9, 9]);
    let mut input = IndexInput::new(data);
    assert_eq!(input.offset(), 0);
    assert_eq!(input.read_byte(), Ok(0x2A));
    assert_eq!(input.read_int(), Ok(256));
    assert_eq!(input.read_long(), Ok(512));
    assert_eq!(input.read_variable_int(), Ok(300));
    assert_eq!(input.read_variable_string(), Ok("ok".to_string()));
    assert_eq!(input.read_string(2), Ok("hi".to_string()));
    assert_eq!(input.offset(), 20);
    assert!(!input.at_end());
    assert_eq!(input.read_bytes(3), Ok(vec![9u8, 9, 9]));
    assert!(input.at_end());
    assert_eq!(input.read_byte(), Err(SegmentReadError::UnexpectedEof));
    assert_eq!(input.offset(), 23);
}

#[test]
fn cursor_reads_magic_version_and_id() {
    let mut data = vec![0x3Fu8, 0xD7, 0x6C, 0x17, 0, 0, 0, 9];
    data.extend_from_slice(&[7u8; 16]);
    let mut input = IndexInput::new(data);
    assert_eq!(input.read_magic(), Ok(0x3FD7_6C17));
    assert_eq!(input.read_version(), Ok(9));
    assert_eq!(input.read_id(), Ok(vec![7u8; ID_LENGTH]));
    assert_eq!(input.read_id(), Err(SegmentReadError::UnexpectedEof));
}

#[test]
fn cursor_errors_carry_over() {
    let mut input = IndexInput::new(vec![0x01, 0xFF]);
    assert_eq!(input.read_variable_string(), Err(SegmentReadError::InvalidUtf8));
    let mut input = IndexInput::new(vec![0x80, 0x80, 0x80, 0x80, 0x80]);
    assert_eq!(input.read_variable_int(), Err(SegmentReadError::VarIntTooLong));
    let mut input = IndexInput::new(vec![0xFF; 9]);
    assert_eq!(input.read_variable_long(), Err(SegmentReadError::VarIntTooLong));
    let mut input = IndexInput::new(vec![0xFF; 3]);
    assert_eq!(input.read_variable_long(), Err(SegmentReadError::UnexpectedEof));
}

#[test]
fn cursor_checksums_what_it_has_read() {
    let mut input = IndexInput::new(b"123456789abc".to_vec());
    assert_eq!(input.checksum_so_far(), 0);
    assert_eq!(input.read_bytes(9), Ok(b"123456789".to_vec()));
    assert_eq!(input.checksum_so_far(), 0xCBF4_3926);
}

#[test]
fn checksum_of_known_inputs() {
    assert_eq!(checksum(b""), 0);
    assert_eq!(checksum(b"123456789"), 0xCBF4_3926);
    assert_eq!(checksum(b"a"), 0xE8B7_BE43);
    assert_eq!(checksum(b"The quick brown fox jumps over the lazy dog"), 0x414F_A339);
}

#[test]
fn checksum_tells_a_changed_byte() {
    let intact = b"segments of an index".to_vec();
    let sum = checksum(&intact);
    for i in 0..intact.len() {
        let mut changed = intact.clone();
        changed[i] ^= 0x01;
        assert_ne!(checksum(&changed), sum);
    }
}

#[test]
fn header_errors_map_onto_read_errors_of_the_same_name() {
    assert_eq!(
        SegmentReadError::from_header(HeaderError::UnexpectedEof),
        SegmentReadError::UnexpectedEof
    );
    assert_eq!(
        SegmentReadError::from_header(HeaderError::InvalidUtf8),
        SegmentReadError::InvalidUtf8
    );
    assert_eq!(
        SegmentReadError::from_header(HeaderError::VarIntTooLong),
        SegmentReadError::VarIntTooLong
    );
    assert_eq!(
        SegmentReadError::from_header(HeaderError::MagicMismatch),
        SegmentReadError::MagicMismatch
    );
    assert_eq!(
        SegmentReadError::from_header(HeaderError::CodecMismatch),
        SegmentReadError::CodecMismatch
    );
    assert_eq!(
        SegmentReadError::from_header(HeaderError::VersionTooOld),
        SegmentReadError::VersionTooOld
    );
    assert_eq!(
        SegmentReadError::from_header(HeaderError::VersionTooNew),
        SegmentReadError::VersionTooNew
    );
}
