use bytes::Bytes;
use lucene_segments::checksum::checksum;
use lucene_segments::commit::SegmentInfos;
use lucene_segments::directory_reader::IndexInput;
use lucene_segments::error::SegmentReadError;
use lucene_segments::header::check_footer;
use lucene_segments::header::check_header;
use lucene_segments::header::check_header_no_magic;
use lucene_segments::header::check_magic;
use lucene_segments::header::HeaderError;
use lucene_segments::header::CODEC_MAGIC;
use lucene_segments::header::CURRENT_VERSION;
use lucene_segments::header::FOOTER_MAGIC;
use lucene_segments::header::MIN_VERSION;

fn header_bytes(magic: u32, codec: &str, version: u32) -> Vec<u8> {
    let mut out = magic.to_be_bytes().to_vec();
    out.push(codec.len() as u8);
    out.extend_from_slice(codec.as_bytes());
    out.extend_from_slice(&version.to_be_bytes());
    out
}

fn with_footer(mut content: Vec<u8>) -> Vec<u8> {
    let sum = checksum(&content);
    content.extend_from_slice(&FOOTER_MAGIC.to_be_bytes());
    content.extend_from_slice(&sum.to_be_bytes());
    content
}

#[test]
fn constants_of_the_format() {
    assert_eq!(CODEC_MAGIC, 0x3fd7_6c17);
    assert_eq!(FOOTER_MAGIC, !CODEC_MAGIC);
    assert_eq!(MIN_VERSION, 9);
    assert_eq!(CURRENT_VERSION, 10);
}

#[test]
fn check_magic_accepts_the_magic() {
    let mut bytes = Bytes::from(vec![0x3Fu8, 0xD7, 0x6C, 0x17, 0x01]);
    assert_eq!(check_magic(&mut bytes), Ok(CODEC_MAGIC));
    assert_eq!(bytes.len(), 1);
}

#[test]
fn check_magic_refuses_anything_else() {
    let mut bytes = Bytes::from(vec![0x3Fu8, 0xD7, 0x6C, 0x18]);
    assert_eq!(check_magic(&mut bytes), Err(HeaderError::MagicMismatch));
    let mut bytes = Bytes::from(vec![0x3Fu8, 0xD7, 0x6C]);
    assert_eq!(check_magic(&mut bytes), Err(HeaderError::UnexpectedEof));
}

#[test]
fn check_header_returns_the_version() {
    let mut data = header_bytes(CODEC_MAGIC, "segments", 10);
    data.push(0xEE);
    let mut bytes = Bytes::from(data);
    assert_eq!(check_header(&mut bytes, "segments", MIN_VERSION, CURRENT_VERSION), Ok(10));
    assert_eq!(&bytes[..], &[0xEEu8][..]);
}

#[test]
fn version_below_the_range_is_too_old() {
    let mut bytes = Bytes::from(header_bytes(CODEC_MAGIC, "segments", MIN_VERSION - 1));
    assert_eq!(
        check_header(&mut bytes, "segments", MIN_VERSION, CURRENT_VERSION),
        Err(HeaderError::VersionTooOld)
    );
}

#[test]
fn version_above_the_range_is_too_new() {
    let mut bytes = Bytes::from(header_bytes(CODEC_MAGIC, "segments", CURRENT_VERSION + 1));
    assert_eq!(
        check_header(&mut bytes, "segments", MIN_VERSION, CURRENT_VERSION),
        Err(HeaderError::VersionTooNew)
    );
}

#[test]
fn versions_inside_the_range_succeed() {
    for version in MIN_VERSION..=CURRENT_VERSION {
        let mut bytes = Bytes::from(header_bytes(CODEC_MAGIC, "segments", version));
        assert_eq!(
            check_header(&mut bytes, "segments", MIN_VERSION, CURRENT_VERSION),
            Ok(version)
        );
    }
}

#[test]
fn check_header_honours_the_range_given() {
    let mut bytes = Bytes::from(header_bytes(CODEC_MAGIC, "Lucene90", 0));
    assert_eq!(check_header(&mut bytes, "Lucene90", 0, 0), Ok(0));
    let mut bytes = Bytes::from(header_bytes(CODEC_MAGIC, "Lucene90", 1));
    assert_eq!(check_header(&mut bytes, "Lucene90", 0, 0), Err(HeaderError::VersionTooNew));
}

#[test]
fn codec_name_is_matched_exactly() {
    let mut bytes = Bytes::from(header_bytes(CODEC_MAGIC, "Segments", 9));
    assert_eq!(
        check_header(&mut bytes, "segments", MIN_VERSION, CURRENT_VERSION),
        Err(HeaderError::CodecMismatch)
    );
    let mut bytes = Bytes::from(header_bytes(CODEC_MAGIC, "segments2", 9));
    assert_eq!(
        check_header(&mut bytes, "segments", MIN_VERSION, CURRENT_VERSION),
        Err(HeaderError::CodecMismatch)
    );
}

#[test]
fn magic_is_checked_before_the_codec() {
    let mut bytes = Bytes::from(header_bytes(0x1234_5678, "other", 99));
    assert_eq!(
        check_header(&mut bytes, "segments", MIN_VERSION, CURRENT_VERSION),
        Err(HeaderError::MagicMismatch)
    );
}

#[test]
fn check_header_no_magic_starts_at_the_codec() {
    let data = header_bytes(CODEC_MAGIC, "segments", 9);
    let mut bytes = Bytes::from(data[4..].to_vec());
    assert_eq!(
        check_header_no_magic(&mut bytes, "segments", MIN_VERSION, CURRENT_VERSION),
        Ok(9)
    );
    assert_eq!(bytes.len(), 0);
}

#[test]
fn header_with_a_malformed_codec_name() {
    let mut bytes = Bytes::from(vec![0x02u8, 0xC3, 0x28, 0, 0, 0, 9]);
    assert_eq!(
        check_header_no_magic(&mut bytes, "segments", MIN_VERSION, CURRENT_VERSION),
        Err(HeaderError::InvalidUtf8)
    );
}

#[test]
fn truncated_header_is_eof() {
    let data = header_bytes(CODEC_MAGIC, "segments", 9);
    for cut in 0..data.len() {
        let mut bytes = Bytes::from(data[..cut].to_vec());
        assert_eq!(
            check_header(&mut bytes, "segments", MIN_VERSION, CURRENT_VERSION),
            Err(HeaderError::UnexpectedEof)
        );
    }
}

#[test]
fn cursor_checks_the_header_too() {
    let mut input = IndexInput::new(header_bytes(CODEC_MAGIC, "segments", 10));
    assert_eq!(input.check_magic(), Ok(CODEC_MAGIC));
    assert_eq!(SegmentInfos::check_header(&mut input), Ok(10));
    assert!(input.at_end());
    let mut input = IndexInput::new(header_bytes(CODEC_MAGIC, "segments", 8));
    assert_eq!(input.check_magic(), Ok(CODEC_MAGIC));
    assert_eq!(SegmentInfos::check_header(&mut input), Err(SegmentReadError::VersionTooOld));
    let mut input = IndexInput::new(header_bytes(CODEC_MAGIC, "segments", 11));
    assert_eq!(input.check_magic(), Ok(CODEC_MAGIC));
    assert_eq!(SegmentInfos::check_header(&mut input), Err(SegmentReadError::VersionTooNew));
    let mut input = IndexInput::new(header_bytes(CODEC_MAGIC, "other", 9));
    assert_eq!(input.check_magic(), Ok(CODEC_MAGIC));
    assert_eq!(
        input.check_header_no_magic("segments", 9, 10),
        Err(SegmentReadError::CodecMismatch)
    );
    let mut input = IndexInput::new(header_bytes(1, "segments", 9));
    assert_eq!(input.check_magic(), Err(SegmentReadError::MagicMismatch));
}

#[test]
fn header_suffix_has_to_be_the_expected_one() {
    let mut input = IndexInput::new(vec![0x02, b'1', b'0', 0x55]);
    assert_eq!(SegmentInfos::check_header_suffix(&mut input, "10"), Ok(()));
    assert_eq!(input.offset(), 3);
    let mut input = IndexInput::new(vec![0x02, b'1', b'0']);
    assert_eq!(
        SegmentInfos::check_header_suffix(&mut input, "11"),
        Err(SegmentReadError::SuffixMismatch)
    );
    let mut input = IndexInput::new(vec![0x02, b'1', b'0']);
    assert_eq!(
        SegmentInfos::check_header_suffix(&mut input, "1"),
        Err(SegmentReadError::SuffixMismatch)
    );
    let mut input = IndexInput::new(vec![0x00]);
    assert_eq!(SegmentInfos::check_header_suffix(&mut input, ""), Ok(()));
    let mut input = IndexInput::new(vec![0x00]);
    assert_eq!(
        SegmentInfos::check_header_suffix(&mut input, "0"),
        Err(SegmentReadError::SuffixMismatch)
    );
    let mut input = IndexInput::new(vec![0x03, b'1']);
    assert_eq!(
        SegmentInfos::check_header_suffix(&mut input, "1"),
        Err(SegmentReadError::UnexpectedEof)
    );
    let mut input = IndexInput::new(vec![0x02, 0xC3, 0x28]);
    assert_eq!(
        SegmentInfos::check_header_suffix(&mut input, "ab"),
        Err(SegmentReadError::SuffixMismatch)
    );
}

#[test]
fn footer_is_accepted_after_its_content() {
    let data = with_footer(b"some content".to_vec());
    let mut input = IndexInput::new(data);
    assert_eq!(input.read_bytes(12), Ok(b"some content".to_vec()));
    assert_eq!(check_footer(&mut input), Ok(()));
    assert!(input.at_end());
}

#[test]
fn footer_of_an_empty_content() {
    let mut input = IndexInput::new(with_footer(Vec::new()));
    assert_eq!(check_footer(&mut input), Ok(()));
}

#[test]
fn footer_with_a_wrong_checksum() {
    let mut data = with_footer(b"some content".to_vec());
    let last = data.len() - 1;
    data[last] ^= 0x01;
    let mut input = IndexInput::new(data);
    assert_eq!(input.read_bytes(12), Ok(b"some content".to_vec()));
    assert_eq!(check_footer(&mut input), Err(SegmentReadError::ChecksumMismatch));
}

#[test]
fn footer_with_a_wrong_magic() {
    let mut data = with_footer(b"some content".to_vec());
    data[12] ^= 0x01;
    let mut input = IndexInput::new(data);
    assert_eq!(input.read_bytes(12), Ok(b"some content".to_vec()));
    assert_eq!(check_footer(&mut input), Err(SegmentReadError::ChecksumMismatch));
}

#[test]
fn footer_after_changed_content() {
    let mut data = with_footer(b"some content".to_vec());
    data[3] = b'E';
    let mut input = IndexInput::new(data);
    assert_eq!(input.read_bytes(12), Ok(b"somE content".to_vec()));
    assert_eq!(check_footer(&mut input), Err(SegmentReadError::ChecksumMismatch));
}

#[test]
fn footer_read_too_early() {
    let data = with_footer(b"some content".to_vec());
    let mut input = IndexInput::new(data);
    assert_eq!(input.read_bytes(4), Ok(b"some".to_vec()));
    assert_eq!(check_footer(&mut input), Err(SegmentReadError::ChecksumMismatch));
}

#[test]
fn footer_that_is_cut_short() {
    let data = with_footer(b"some content".to_vec());
    let mut input = IndexInput::new(data[..data.len() - 1].to_vec());
    assert_eq!(input.read_bytes(12), Ok(b"some content".to_vec()));
    assert_eq!(check_footer(&mut input), Err(SegmentReadError::UnexpectedEof));
    let mut input = IndexInput::new(b"some content".to_vec());
    assert_eq!(input.read_bytes(12), Ok(b"some content".to_vec()));
    assert_eq!(check_footer(&mut input), Err(SegmentReadError::UnexpectedEof));
}

#[test]
fn footer_followed_by_more_bytes() {
    let mut data = with_footer(b"some content".to_vec());
    data.push(0);
    let mut input = IndexInput::new(data);
    assert_eq!(input.read_bytes(12), Ok(b"some content".to_vec()));
    assert_eq!(check_footer(&mut input), Err(SegmentReadError::ChecksumMismatch));
}
